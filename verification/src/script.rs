//! The data model: scripts and cached dependencies.
//!
//! A script's identity is its opaque id, unique within the registry and
//! stable for life. A script fetched from a remote source carries its URL;
//! one authored by hand has none and can never be refreshed or auto-updated.
//! A dependency is identified by the URL it was fetched from; the cache keeps
//! at most one entry per URL.
use vstd::prelude::*;
use crate::strutil::opt_str_view;

verus! {

/// A unit of user-supplied code plus metadata, independently enabled,
/// ordered and deletable.
#[derive(Debug)]
pub struct Script {
    pub id: String,
    pub name: String,
    pub code: String,
    pub enabled: bool,
    /// Lower orders load first; ties are broken by collection order.
    pub order: i32,
    /// Present exactly when the script was fetched remotely.
    pub url: Option<String>,
    pub version: Option<String>,
    pub description: Option<String>,
    pub author: Option<String>,
    /// Declared dependency URLs, declaration order, duplicates removed.
    pub requires: Vec<String>,
    /// Unix timestamp of the last update attempt that was recorded.
    pub last_updated: Option<u64>,
    /// Message of the last failed automatic update, if any.
    pub last_fetch_error: Option<String>,
}

/// Mathematical model of `Script`.
pub ghost struct ScriptV {
    pub id: Seq<char>,
    pub name: Seq<char>,
    pub code: Seq<char>,
    pub enabled: bool,
    pub order: int,
    pub url: Option<Seq<char>>,
    pub version: Option<Seq<char>>,
    pub description: Option<Seq<char>>,
    pub author: Option<Seq<char>>,
    pub requires: Seq<Seq<char>>,
    pub last_updated: Option<u64>,
    pub last_fetch_error: Option<Seq<char>>,
}

impl View for Script {
    type V = ScriptV;

    open spec fn view(&self) -> ScriptV {
        ScriptV {
            id: self.id@,
            name: self.name@,
            code: self.code@,
            enabled: self.enabled,
            order: self.order as int,
            url: opt_str_view(self.url),
            version: opt_str_view(self.version),
            description: opt_str_view(self.description),
            author: opt_str_view(self.author),
            requires: self.requires.deep_view(),
            last_updated: self.last_updated,
            last_fetch_error: opt_str_view(self.last_fetch_error),
        }
    }
}

impl DeepView for Script {
    type V = ScriptV;

    open spec fn deep_view(&self) -> ScriptV {
        self.view()
    }
}

/// Remote code required by a script's header, cached independently of any
/// single script's lifecycle.
#[derive(Debug)]
pub struct Dependency {
    pub url: String,
    pub code: String,
    /// Unix timestamp of the fetch that produced `code`.
    pub last_updated: u64,
}

/// Mathematical model of `Dependency`.
pub ghost struct DepV {
    pub url: Seq<char>,
    pub code: Seq<char>,
    pub last_updated: u64,
}

impl View for Dependency {
    type V = DepV;

    open spec fn view(&self) -> DepV {
        DepV { url: self.url@, code: self.code@, last_updated: self.last_updated }
    }
}

impl DeepView for Dependency {
    type V = DepV;

    open spec fn deep_view(&self) -> DepV {
        self.view()
    }
}

/// A copy of an optional string, equal to the original.
pub fn clone_opt_string(o: &Option<String>) -> (r: Option<String>)
    ensures
        opt_str_view(r) == opt_str_view(*o),
{
    match o {
        Some(s) => Some(s.clone()),
        None => None,
    }
}

/// A copy of a string vector, equal to the original.
pub fn clone_string_vec(v: &Vec<String>) -> (r: Vec<String>)
    ensures
        r@ == v@,
{
    let mut out: Vec<String> = Vec::new();
    let mut k: usize = 0;
    while k < v.len()
        invariant
            k <= v@.len(),
            out@ =~= v@.take(k as int),
        decreases v@.len() - k,
    {
        out.push(v[k].clone());
        proof {
            assert(out@ =~= v@.take(k + 1 as int));
        }
        k = k + 1;
    }
    proof {
        assert(v@.take(v@.len() as int) =~= v@);
    }
    out
}

impl Script {
    /// A copy with the same model.
    pub fn duplicate(&self) -> (r: Script)
        ensures
            r@ == self@,
    {
        Script {
            id: self.id.clone(),
            name: self.name.clone(),
            code: self.code.clone(),
            enabled: self.enabled,
            order: self.order,
            url: clone_opt_string(&self.url),
            version: clone_opt_string(&self.version),
            description: clone_opt_string(&self.description),
            author: clone_opt_string(&self.author),
            requires: clone_string_vec(&self.requires),
            last_updated: self.last_updated,
            last_fetch_error: clone_opt_string(&self.last_fetch_error),
        }
    }
}

impl Dependency {
    /// A copy with the same model.
    pub fn duplicate(&self) -> (r: Dependency)
        ensures
            r@ == self@,
    {
        Dependency {
            url: self.url.clone(),
            code: self.code.clone(),
            last_updated: self.last_updated,
        }
    }
}

/// Some dependency in `deps` carries this URL.
pub open spec fn dep_cached(deps: Seq<DepV>, url: Seq<char>) -> bool {
    exists|i: int| 0 <= i < deps.len() && deps[i].url == url
}

/// Some script in `scripts` was fetched from this URL.
pub open spec fn has_source_url(scripts: Seq<ScriptV>, url: Seq<char>) -> bool {
    exists|i: int| 0 <= i < scripts.len() && scripts[i].url == Some(url)
}

/// Index of the first script carrying `id`.
pub open spec fn find_id(scripts: Seq<ScriptV>, id: Seq<char>) -> Option<int>
    decreases scripts.len(),
{
    if scripts.len() == 0 {
        None
    } else if scripts[0].id == id {
        Some(0)
    } else {
        match find_id(scripts.drop_first(), id) {
            Some(i) => Some(i + 1),
            None => None,
        }
    }
}

pub proof fn lemma_find_id_props(scripts: Seq<ScriptV>, id: Seq<char>)
    ensures
        match find_id(scripts, id) {
            Some(i) => 0 <= i < scripts.len() && scripts[i].id == id && forall|k: int|
                0 <= k < i ==> scripts[k].id != id,
            None => forall|k: int| 0 <= k < scripts.len() ==> scripts[k].id != id,
        },
    decreases scripts.len(),
{
    if scripts.len() == 0 {
    } else if scripts[0].id == id {
    } else {
        lemma_find_id_props(scripts.drop_first(), id);
        match find_id(scripts.drop_first(), id) {
            Some(i) => {
                assert(scripts[i + 1] == scripts.drop_first()[i]);
                assert forall|k: int| 0 <= k < i + 1 implies scripts[k].id != id by {
                    if k > 0 {
                        assert(scripts[k] == scripts.drop_first()[k - 1]);
                    }
                }
            },
            None => {
                assert forall|k: int| 0 <= k < scripts.len() implies scripts[k].id != id by {
                    if k > 0 {
                        assert(scripts[k] == scripts.drop_first()[k - 1]);
                    }
                }
            },
        }
    }
}

} // verus!
