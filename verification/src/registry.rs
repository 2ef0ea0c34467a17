//! The script registry: the ordered collection of installed scripts and the
//! shared dependency cache. The registry owns every mutation — add, toggle,
//! reorder, delete, refresh, auto-update — and never partially commits: a
//! failed operation leaves the scripts exactly as they were, while
//! dependencies fetched before the failure stay cached.
//!
//! Network fetches happen outside the registry, through a `FetchSession`;
//! the registry validates preconditions before the fetch begins and commits
//! or rejects the session's result afterwards.
use vstd::prelude::*;
use vstd::string::StringExecFns;
use crate::errors::{RegErrV, RegistryError, registry_error_text};
use crate::fetch::{FetchSession, PhaseV, SessionPhase};
use crate::meta::MetaSpec;
use crate::script::{DepV, Dependency, Script, ScriptV, dep_cached, find_id, has_source_url, lemma_find_id_props};
use crate::strutil::chars_of;

verus! {

/// The registry's durable state: scripts in collection order, and the
/// dependency cache keyed by URL.
pub struct Registry {
    pub scripts: Vec<Script>,
    pub deps: Vec<Dependency>,
}

/// Mathematical model of `Registry`.
pub ghost struct RegistryV {
    pub scripts: Seq<ScriptV>,
    pub deps: Seq<DepV>,
}

impl View for Registry {
    type V = RegistryV;

    open spec fn view(&self) -> RegistryV {
        RegistryV { scripts: self.scripts.deep_view(), deps: self.deps.deep_view() }
    }
}

/// Script ids are unique within the registry.
pub open spec fn scripts_wf(ss: Seq<ScriptV>) -> bool {
    forall|i: int, j: int| 0 <= i < j < ss.len() ==> ss[i].id != ss[j].id
}

/// The cache holds at most one entry per URL.
pub open spec fn deps_wf(ds: Seq<DepV>) -> bool {
    forall|i: int, j: int| 0 <= i < j < ds.len() ==> ds[i].url != ds[j].url
}

impl RegistryV {
    pub open spec fn wf(self) -> bool {
        scripts_wf(self.scripts) && deps_wf(self.deps)
    }
}

/// `s` with the enabled flag replaced.
pub open spec fn set_enabled(s: ScriptV, enabled: bool) -> ScriptV {
    ScriptV { enabled, ..s }
}

/// `s` with the order replaced.
pub open spec fn set_order(s: ScriptV, order: int) -> ScriptV {
    ScriptV { order, ..s }
}

/// Some script already carries this id.
pub open spec fn script_id_taken(ss: Seq<ScriptV>, id: Seq<char>) -> bool {
    exists|i: int| 0 <= i < ss.len() && ss[i].id == id
}

/// Index of the cache entry for `url`, if any.
pub open spec fn find_dep(ds: Seq<DepV>, url: Seq<char>) -> Option<int>
    decreases ds.len(),
{
    if ds.len() == 0 {
        None
    } else if ds[0].url == url {
        Some(0)
    } else {
        match find_dep(ds.drop_first(), url) {
            Some(i) => Some(i + 1),
            None => None,
        }
    }
}

pub proof fn lemma_find_dep_props(ds: Seq<DepV>, url: Seq<char>)
    ensures
        match find_dep(ds, url) {
            Some(i) => 0 <= i < ds.len() && ds[i].url == url && forall|k: int|
                0 <= k < i ==> ds[k].url != url,
            None => forall|k: int| 0 <= k < ds.len() ==> ds[k].url != url,
        },
    decreases ds.len(),
{
    if ds.len() == 0 {
    } else if ds[0].url == url {
    } else {
        lemma_find_dep_props(ds.drop_first(), url);
        match find_dep(ds.drop_first(), url) {
            Some(i) => {
                assert(ds[i + 1] == ds.drop_first()[i]);
                assert forall|k: int| 0 <= k < i + 1 implies ds[k].url != url by {
                    if k > 0 {
                        assert(ds[k] == ds.drop_first()[k - 1]);
                    }
                }
            },
            None => {
                assert forall|k: int| 0 <= k < ds.len() implies ds[k].url != url by {
                    if k > 0 {
                        assert(ds[k] == ds.drop_first()[k - 1]);
                    }
                }
            },
        }
    }
}

/// The cache after inserting `d`: an entry with the same URL is overwritten,
/// otherwise `d` is appended.
pub open spec fn upsert_dep(ds: Seq<DepV>, d: DepV) -> Seq<DepV> {
    match find_dep(ds, d.url) {
        Some(i) => ds.update(i, d),
        None => ds.push(d),
    }
}

/// The cache after inserting every element of `acq`, in order.
pub open spec fn merge_deps_spec(ds: Seq<DepV>, acq: Seq<DepV>) -> Seq<DepV>
    decreases acq.len(),
{
    if acq.len() == 0 {
        ds
    } else {
        upsert_dep(merge_deps_spec(ds, acq.drop_last()), acq.last())
    }
}

proof fn lemma_upsert_wf(ds: Seq<DepV>, d: DepV)
    requires
        deps_wf(ds),
    ensures
        deps_wf(upsert_dep(ds, d)),
{
    lemma_find_dep_props(ds, d.url);
    match find_dep(ds, d.url) {
        Some(i) => {
            let out = ds.update(i, d);
            assert forall|a: int, b: int| 0 <= a < b < out.len() implies out[a].url != out[b].url
            by {
                assert(ds[a].url != ds[b].url);
            }
        },
        None => {
            let out = ds.push(d);
            assert forall|a: int, b: int| 0 <= a < b < out.len() implies out[a].url != out[b].url
            by {
                if b < ds.len() {
                    assert(ds[a].url != ds[b].url);
                } else {
                    assert(out[b] == d);
                    assert(ds[a].url != d.url);
                }
            }
        },
    }
}

/// The name a new or refreshed script takes when the header declares none.
pub open spec fn name_or_default(n: Option<Seq<char>>) -> Seq<char> {
    match n {
        Some(s) => s,
        None => "Unnamed Script"@,
    }
}

/// The highest order among the scripts, or -1 when there are none.
pub open spec fn max_order(ss: Seq<ScriptV>) -> int
    decreases ss.len(),
{
    if ss.len() == 0 {
        -1
    } else {
        let rest = max_order(ss.drop_last());
        if ss.last().order > rest {
            ss.last().order
        } else {
            rest
        }
    }
}

/// The order a newly added script takes: one past the current maximum,
/// saturating at the type's ceiling.
pub open spec fn next_order(ss: Seq<ScriptV>) -> int {
    if max_order(ss) >= i32::MAX {
        i32::MAX as int
    } else {
        max_order(ss) + 1
    }
}

/// The script a successful add creates.
pub open spec fn new_script_spec(
    id: Seq<char>,
    url: Seq<char>,
    code: Seq<char>,
    meta: MetaSpec,
    order: int,
    now: u64,
) -> ScriptV {
    ScriptV {
        id,
        name: name_or_default(meta.name),
        code,
        enabled: true,
        order,
        url: Some(url),
        version: meta.version,
        description: meta.description,
        author: meta.author,
        requires: meta.requires,
        last_updated: Some(now),
        last_fetch_error: None,
    }
}

/// A script after a successful refresh or auto-update: content and metadata
/// replaced, identity, enabled flag, order and URL preserved, timestamp set,
/// error cleared.
pub open spec fn refreshed_spec(s: ScriptV, code: Seq<char>, meta: MetaSpec, now: u64) -> ScriptV {
    ScriptV {
        id: s.id,
        name: name_or_default(meta.name),
        code,
        enabled: s.enabled,
        order: s.order,
        url: s.url,
        version: meta.version,
        description: meta.description,
        author: meta.author,
        requires: meta.requires,
        last_updated: Some(now),
        last_fetch_error: None,
    }
}

/// A script after a failed auto-update attempt: the error message is stored
/// and the timestamp consumed, everything else untouched.
pub open spec fn errored_spec(s: ScriptV, error: RegErrV, now: u64) -> ScriptV {
    ScriptV {
        last_updated: Some(now),
        last_fetch_error: Some(registry_error_text(error)),
        ..s
    }
}

/// Seconds elapsed from `t` to `now`; zero when the clock went backwards.
pub open spec fn elapsed_since(now: u64, t: u64) -> int {
    if now >= t {
        now - t
    } else {
        0
    }
}

/// Seconds in the auto-update backoff window after a success.
pub const DAY_SECONDS: u64 = 86400;

/// Seconds in the auto-update backoff window after a failure.
pub const HOUR_SECONDS: u64 = 3600;

/// The auto-update policy for one script: only scripts with a source URL are
/// eligible; one never attempted is attempted now; one with a stored error is
/// retried an hour after its last attempt; a healthy one is re-checked a day
/// after its last update.
pub open spec fn should_attempt_spec(s: ScriptV, now: u64) -> bool {
    &&& s.url is Some
    &&& match s.last_updated {
        None => true,
        Some(t) => if s.last_fetch_error is Some {
            elapsed_since(now, t) >= HOUR_SECONDS
        } else {
            elapsed_since(now, t) >= DAY_SECONDS
        },
    }
}

/// Decides whether the auto-updater attempts a re-fetch of `s` at time
/// `now`.
pub fn should_attempt_update(s: &Script, now: u64) -> (r: bool)
    ensures
        r == should_attempt_spec(s@, now),
{
    if s.url.is_none() {
        return false;
    }
    match s.last_updated {
        None => true,
        Some(t) => {
            let elapsed: u64 = if now >= t {
                now - t
            } else {
                0
            };
            if s.last_fetch_error.is_some() {
                elapsed >= HOUR_SECONDS
            } else {
                elapsed >= DAY_SECONDS
            }
        },
    }
}

/// The ids of the scripts the auto-updater attempts at `now`, in collection
/// order.
pub open spec fn plan_spec(ss: Seq<ScriptV>, now: u64) -> Seq<Seq<char>> {
    ss.filter(|s: ScriptV| should_attempt_spec(s, now)).map_values(|s: ScriptV| s.id)
}

/// Relies on uuid::Uuid::new_v4 and its Display form: a freshly generated
/// random version-4 UUID rendered in the hyphenated format.
#[verifier::external_body]
fn random_uuid_string() -> (r: String) {
    uuid::Uuid::new_v4().to_string()
}

/// Relies on chrono::Utc::now and DateTime::timestamp: the current wall
/// clock as Unix seconds.
#[verifier::external_body]
fn unix_now() -> (r: i64) {
    chrono::Utc::now().timestamp()
}

/// The current Unix timestamp, clamped to zero for pre-epoch clocks.
pub fn current_timestamp() -> (r: u64) {
    let t = unix_now();
    if t < 0 {
        0
    } else {
        t as u64
    }
}

fn id_taken(scripts: &Vec<Script>, id: &String) -> (r: bool)
    ensures
        r == script_id_taken(scripts.deep_view(), id@),
{
    let mut k: usize = 0;
    while k < scripts.len()
        invariant
            k <= scripts@.len(),
            forall|t: int| 0 <= t < k ==> scripts.deep_view()[t].id != id@,
        decreases scripts@.len() - k,
    {
        if scripts[k].id.eq(id) {
            assert(scripts.deep_view()[k as int].id == id@);
            return true;
        }
        assert(scripts.deep_view()[k as int].id != id@);
        k = k + 1;
    }
    false
}

/// An id not carried by any script: a fresh UUID when it does not collide,
/// otherwise a string longer than every existing id.
fn fresh_id(scripts: &Vec<Script>) -> (r: String)
    ensures
        !script_id_taken(scripts.deep_view(), r@),
{
    let cand = random_uuid_string();
    if !id_taken(scripts, &cand) {
        return cand;
    }
    let mut cur: Vec<char> = vec!['x'];
    let mut j: usize = 0;
    while j < scripts.len()
        invariant
            j <= scripts@.len(),
            cur@.len() >= 1,
            forall|t: int| 0 <= t < j ==> cur@.len() > scripts.deep_view()[t].id.len(),
        decreases scripts@.len() - j,
    {
        let idc = chars_of(scripts[j].id.as_str());
        while cur.len() <= idc.len()
            invariant
                cur@.len() >= 1,
                forall|t: int| 0 <= t < j ==> cur@.len() > scripts.deep_view()[t].id.len(),
            decreases idc@.len() + 1 - cur@.len(),
        {
            cur.push('x');
        }
        assert(cur@.len() > scripts.deep_view()[j as int].id.len());
        j = j + 1;
    }
    let out = crate::strutil::string_of(&cur);
    proof {
        assert forall|t: int| 0 <= t < scripts.deep_view().len()
            implies scripts.deep_view()[t].id != out@ by {
            assert(out@.len() > scripts.deep_view()[t].id.len());
        }
    }
    out
}

impl Registry {
    /// An empty registry.
    pub fn new() -> (r: Registry)
        ensures
            r@.scripts =~= Seq::<ScriptV>::empty(),
            r@.deps =~= Seq::<DepV>::empty(),
            r@.wf(),
    {
        let r = Registry { scripts: Vec::new(), deps: Vec::new() };
        proof {
            assert(r@.scripts =~= Seq::<ScriptV>::empty());
            assert(r@.deps =~= Seq::<DepV>::empty());
        }
        r
    }

    /// Index of the script carrying `id`.
    fn find_index(&self, id: &String) -> (r: Option<usize>)
        ensures
            match r {
                Some(i) => find_id(self@.scripts, id@) == Some(i as int),
                None => find_id(self@.scripts, id@) is None,
            },
    {
        let ghost ss = self@.scripts;
        let mut k: usize = 0;
        while k < self.scripts.len()
            invariant
                ss == self@.scripts,
                k <= self.scripts@.len(),
                ss.len() == self.scripts@.len(),
                forall|t: int| 0 <= t < k ==> ss[t].id != id@,
            decreases self.scripts@.len() - k,
        {
            if self.scripts[k].id.eq(id) {
                proof {
                    lemma_find_id_props(ss, id@);
                    assert(ss[k as int].id == id@);
                }
                return Some(k);
            }
            assert(ss[k as int].id != id@);
            k = k + 1;
        }
        proof {
            lemma_find_id_props(ss, id@);
        }
        None
    }

    /// Sets the enabled flag of the script carrying `id`.
    pub fn toggle(&mut self, id: &String, enabled: bool) -> (r: Result<(), RegistryError>)
        requires
            old(self)@.wf(),
        ensures
            final(self)@.wf(),
            final(self)@.deps == old(self)@.deps,
            match find_id(old(self)@.scripts, id@) {
                Some(i) => r is Ok && final(self)@.scripts =~= old(self)@.scripts.update(
                    i,
                    set_enabled(old(self)@.scripts[i], enabled),
                ),
                None => (r matches Err(e) && e@ == RegErrV::NotFound) && final(self)@.scripts
                    == old(self)@.scripts,
            },
    {
        match self.find_index(id) {
            Some(i) => {
                proof {
                    lemma_find_id_props(self@.scripts, id@);
                }
                self.scripts[i].enabled = enabled;
                proof {
                    assert(self@.scripts =~= old(self)@.scripts.update(
                        i as int,
                        set_enabled(old(self)@.scripts[i as int], enabled),
                    ));
                    lemma_update_same_id_wf(old(self)@.scripts, i as int, self@.scripts[i as int]);
                }
                Ok(())
            },
            None => Err(RegistryError::NotFound),
        }
    }

    /// Sets the order of the script carrying `id`. Other scripts' orders are
    /// not renormalized; collisions are resolved by the assembler's stable
    /// ordering.
    pub fn reorder(&mut self, id: &String, new_order: i32) -> (r: Result<(), RegistryError>)
        requires
            old(self)@.wf(),
        ensures
            final(self)@.wf(),
            final(self)@.deps == old(self)@.deps,
            match find_id(old(self)@.scripts, id@) {
                Some(i) => r is Ok && final(self)@.scripts =~= old(self)@.scripts.update(
                    i,
                    set_order(old(self)@.scripts[i], new_order as int),
                ),
                None => (r matches Err(e) && e@ == RegErrV::NotFound) && final(self)@.scripts
                    == old(self)@.scripts,
            },
    {
        match self.find_index(id) {
            Some(i) => {
                proof {
                    lemma_find_id_props(self@.scripts, id@);
                }
                self.scripts[i].order = new_order;
                proof {
                    assert(self@.scripts =~= old(self)@.scripts.update(
                        i as int,
                        set_order(old(self)@.scripts[i as int], new_order as int),
                    ));
                    lemma_update_same_id_wf(old(self)@.scripts, i as int, self@.scripts[i as int]);
                }
                Ok(())
            },
            None => Err(RegistryError::NotFound),
        }
    }

    /// Removes the script carrying `id`.
    pub fn delete(&mut self, id: &String) -> (r: Result<(), RegistryError>)
        requires
            old(self)@.wf(),
        ensures
            final(self)@.wf(),
            final(self)@.deps == old(self)@.deps,
            match find_id(old(self)@.scripts, id@) {
                Some(i) => r is Ok && final(self)@.scripts =~= old(self)@.scripts.remove(i),
                None => (r matches Err(e) && e@ == RegErrV::NotFound) && final(self)@.scripts
                    == old(self)@.scripts,
            },
    {
        match self.find_index(id) {
            Some(i) => {
                proof {
                    lemma_find_id_props(self@.scripts, id@);
                }
                self.scripts.remove(i);
                proof {
                    assert(self@.scripts =~= old(self)@.scripts.remove(i as int));
                    assert forall|a: int, b: int|
                        0 <= a < b < self@.scripts.len() implies self@.scripts[a].id
                        != self@.scripts[b].id by {
                        let sa = if a < i { a } else { a + 1 };
                        let sb = if b < i { b } else { b + 1 };
                        assert(self@.scripts[a] == old(self)@.scripts[sa]);
                        assert(self@.scripts[b] == old(self)@.scripts[sb]);
                    }
                }
                Ok(())
            },
            None => Err(RegistryError::NotFound),
        }
    }

    /// Checks that no script was already added from `url`. Run before the
    /// fetch begins and checked again at commit time.
    pub fn begin_add(&self, url: &String) -> (r: Result<(), RegistryError>)
        ensures
            r is Ok <==> !has_source_url(self@.scripts, url@),
            r matches Err(e) ==> e@ == RegErrV::DuplicateSource,
    {
        if self.url_taken(url) {
            Err(RegistryError::DuplicateSource)
        } else {
            Ok(())
        }
    }

    fn url_taken(&self, url: &String) -> (r: bool)
        ensures
            r == has_source_url(self@.scripts, url@),
    {
        let ghost ss = self@.scripts;
        let mut k: usize = 0;
        while k < self.scripts.len()
            invariant
                ss == self@.scripts,
                k <= self.scripts@.len(),
                ss.len() == self.scripts@.len(),
                forall|t: int| 0 <= t < k ==> ss[t].url != Some(url@),
            decreases self.scripts@.len() - k,
        {
            let hit = match &self.scripts[k].url {
                Some(u) => u.eq(url),
                None => false,
            };
            if hit {
                assert(ss[k as int].url == Some(url@));
                return true;
            }
            assert(ss[k as int].url != Some(url@));
            k = k + 1;
        }
        false
    }

    /// Inserts every dependency the session acquired, in order; entries with
    /// the same URL are overwritten, new URLs appended. The cache keeps what
    /// was fetched even when the surrounding operation fails.
    fn merge_deps(&mut self, acquired: Vec<Dependency>)
        requires
            deps_wf(old(self)@.deps),
        ensures
            final(self)@.scripts == old(self)@.scripts,
            final(self)@.deps == merge_deps_spec(old(self)@.deps, acquired.deep_view()),
            deps_wf(final(self)@.deps),
    {
        let ghost acq = acquired.deep_view();
        let mut k: usize = 0;
        while k < acquired.len()
            invariant
                k <= acquired@.len(),
                acq == acquired.deep_view(),
                self@.scripts == old(self)@.scripts,
                self@.deps == merge_deps_spec(old(self)@.deps, acq.take(k as int)),
                deps_wf(self@.deps),
            decreases acquired@.len() - k,
        {
            proof {
                assert(acq.take(k + 1 as int).drop_last() =~= acq.take(k as int));
                assert(acq.take(k + 1 as int).last() == acq[k as int]);
            }
            let d = acquired[k].duplicate();
            proof {
                lemma_find_dep_props(self@.deps, d@.url);
                lemma_upsert_wf(self@.deps, d@);
            }
            match self.find_dep_index(&d.url) {
                Some(i) => {
                    self.deps[i] = d;
                    proof {
                        assert(self@.deps =~= upsert_dep(
                            merge_deps_spec(old(self)@.deps, acq.take(k as int)),
                            acq[k as int],
                        ));
                    }
                },
                None => {
                    self.deps.push(d);
                    proof {
                        assert(self@.deps =~= upsert_dep(
                            merge_deps_spec(old(self)@.deps, acq.take(k as int)),
                            acq[k as int],
                        ));
                    }
                },
            }
            k = k + 1;
        }
        proof {
            assert(acq.take(acq.len() as int) =~= acq);
        }
    }

    pub(crate) fn find_dep_index(&self, url: &String) -> (r: Option<usize>)
        ensures
            match r {
                Some(i) => find_dep(self@.deps, url@) == Some(i as int),
                None => find_dep(self@.deps, url@) is None,
            },
    {
        let ghost ds = self@.deps;
        let mut k: usize = 0;
        while k < self.deps.len()
            invariant
                ds == self@.deps,
                k <= self.deps@.len(),
                ds.len() == self.deps@.len(),
                forall|t: int| 0 <= t < k ==> ds[t].url != url@,
            decreases self.deps@.len() - k,
        {
            if self.deps[k].url.eq(url) {
                proof {
                    lemma_find_dep_props(ds, url@);
                    assert(ds[k as int].url == url@);
                }
                return Some(k);
            }
            assert(ds[k as int].url != url@);
            k = k + 1;
        }
        proof {
            lemma_find_dep_props(ds, url@);
        }
        None
    }
}

impl Registry {
    /// The order the next added script takes.
    fn next_order_exec(&self) -> (r: i32)
        ensures
            r as int == next_order(self@.scripts),
    {
        let ghost ss = self@.scripts;
        let mut m: i64 = -1;
        let mut k: usize = 0;
        while k < self.scripts.len()
            invariant
                ss == self@.scripts,
                k <= self.scripts@.len(),
                ss.len() == self.scripts@.len(),
                -1 <= m <= i32::MAX,
                m as int == max_order(ss.take(k as int)),
            decreases self.scripts@.len() - k,
        {
            proof {
                assert(ss.take(k + 1 as int).drop_last() =~= ss.take(k as int));
                assert(ss.take(k + 1 as int).last() == ss[k as int]);
            }
            let o = self.scripts[k].order as i64;
            if o > m {
                m = o;
            }
            k = k + 1;
        }
        proof {
            assert(ss.take(ss.len() as int) =~= ss);
        }
        if m >= i32::MAX as i64 {
            i32::MAX
        } else {
            (m + 1) as i32
        }
    }

    /// Commits the result of an add pipeline. Dependencies the session
    /// fetched are cached whatever happened. On a completed session, the
    /// duplicate check is re-validated, then a new script is appended:
    /// enabled, ordered after every existing script, fields taken from the
    /// parsed metadata, timestamped `now`. On a failed session, the session's
    /// error is returned and the scripts are untouched.
    pub fn commit_add(&mut self, session: FetchSession, now: u64) -> (r: Result<
        Script,
        RegistryError,
    >)
        requires
            old(self)@.wf(),
            !(session@.phase is AwaitBody),
            !(session@.phase is AwaitDep),
        ensures
            final(self)@.wf(),
            final(self)@.deps == merge_deps_spec(old(self)@.deps, session@.acquired),
            session@.phase matches PhaseV::Failed { error } ==> (r matches Err(e) && e@ == error)
                && final(self)@.scripts == old(self)@.scripts,
            session@.phase matches PhaseV::Complete { code, meta } ==> ({
                if has_source_url(old(self)@.scripts, session@.url) {
                    (r matches Err(e) && e@ == RegErrV::DuplicateSource) && final(self)@.scripts
                        == old(self)@.scripts
                } else {
                    r matches Ok(s) && {
                        &&& final(self)@.scripts =~= old(self)@.scripts.push(s@)
                        &&& s@ == new_script_spec(
                            s@.id,
                            session@.url,
                            code,
                            meta,
                            next_order(old(self)@.scripts),
                            now,
                        )
                        &&& !script_id_taken(old(self)@.scripts, s@.id)
                    }
                }
            }),
    {
        let FetchSession { url, phase, acquired } = session;
        self.merge_deps(acquired);
        match phase {
            SessionPhase::Failed { error } => Err(error),
            SessionPhase::Complete { code, meta } => {
                if self.url_taken(&url) {
                    Err(RegistryError::DuplicateSource)
                } else {
                    let id = fresh_id(&self.scripts);
                    let order = self.next_order_exec();
                    let name = match meta.name {
                        Some(n) => n,
                        None => String::from_str("Unnamed Script"),
                    };
                    let script = Script {
                        id,
                        name,
                        code,
                        enabled: true,
                        order,
                        url: Some(url),
                        version: meta.version,
                        description: meta.description,
                        author: meta.author,
                        requires: meta.requires,
                        last_updated: Some(now),
                        last_fetch_error: None,
                    };
                    let returned = script.duplicate();
                    proof {
                        lemma_push_fresh_id_wf(self@.scripts, script@);
                    }
                    self.scripts.push(script);
                    proof {
                        assert(self@.scripts =~= old(self)@.scripts.push(returned@));
                    }
                    Ok(returned)
                }
            },
            SessionPhase::AwaitBody => vstd::pervasive::unreached(),
            SessionPhase::AwaitDep { .. } => vstd::pervasive::unreached(),
        }
    }

    /// Looks the script up and hands back the URL a refresh must re-fetch.
    /// A script without a source URL can never be refreshed.
    pub fn begin_refresh(&self, id: &String) -> (r: Result<String, RegistryError>)
        ensures
            match find_id(self@.scripts, id@) {
                None => r matches Err(e) && e@ == RegErrV::NotFound,
                Some(i) => match self@.scripts[i].url {
                    None => r matches Err(e) && e@ == RegErrV::Unrefreshable,
                    Some(u) => r matches Ok(s) && s@ == u,
                },
            },
    {
        match self.find_index(id) {
            None => Err(RegistryError::NotFound),
            Some(i) => {
                proof {
                    lemma_find_id_props(self@.scripts, id@);
                }
                match &self.scripts[i].url {
                    None => Err(RegistryError::Unrefreshable),
                    Some(u) => Ok(u.clone()),
                }
            },
        }
    }

    /// Commits the result of a refresh pipeline. Dependencies the session
    /// fetched are cached whatever happened. On a completed session the
    /// script's content and metadata are overwritten while id, enabled flag,
    /// order and URL are preserved; its timestamp is set and any stored error
    /// cleared. On a failed session the script is left untouched and the
    /// error surfaces to the caller.
    pub fn commit_refresh(&mut self, id: &String, session: FetchSession, now: u64) -> (r: Result<
        Script,
        RegistryError,
    >)
        requires
            old(self)@.wf(),
            !(session@.phase is AwaitBody),
            !(session@.phase is AwaitDep),
        ensures
            final(self)@.wf(),
            final(self)@.deps == merge_deps_spec(old(self)@.deps, session@.acquired),
            match find_id(old(self)@.scripts, id@) {
                None => (r matches Err(e) && e@ == RegErrV::NotFound) && final(self)@.scripts
                    == old(self)@.scripts,
                Some(i) => {
                    if old(self)@.scripts[i].url is None {
                        (r matches Err(e) && e@ == RegErrV::Unrefreshable) && final(self)@.scripts
                            == old(self)@.scripts
                    } else {
                        &&& (session@.phase matches PhaseV::Failed { error } ==> (r matches Err(e)
                            && e@ == error) && final(self)@.scripts == old(self)@.scripts)
                        &&& (session@.phase matches PhaseV::Complete { code, meta } ==> r matches
                            Ok(s) && s@ == refreshed_spec(old(self)@.scripts[i], code, meta, now)
                            && final(self)@.scripts =~= old(self)@.scripts.update(i, s@))
                    }
                },
            },
    {
        let FetchSession { url: _, phase, acquired } = session;
        self.merge_deps(acquired);
        match self.find_index(id) {
            None => Err(RegistryError::NotFound),
            Some(i) => {
                proof {
                    lemma_find_id_props(self@.scripts, id@);
                }
                if self.scripts[i].url.is_none() {
                    return Err(RegistryError::Unrefreshable);
                }
                match phase {
                    SessionPhase::Failed { error } => Err(error),
                    SessionPhase::Complete { code, meta } => {
                        let updated = self.overwrite_script(i, code, meta, now);
                        Ok(updated)
                    },
                    SessionPhase::AwaitBody => vstd::pervasive::unreached(),
                    SessionPhase::AwaitDep { .. } => vstd::pervasive::unreached(),
                }
            },
        }
    }

    /// Replaces the content and metadata of the script at `i`, preserving
    /// id, enabled flag, order and URL.
    fn overwrite_script(&mut self, i: usize, code: String, meta: crate::meta::Metadata, now: u64)
        -> (r: Script)
        requires
            old(self)@.wf(),
            i < old(self)@.scripts.len(),
        ensures
            final(self)@.wf(),
            final(self)@.deps == old(self)@.deps,
            r@ == refreshed_spec(old(self)@.scripts[i as int], code@, meta.mview(), now),
            final(self)@.scripts =~= old(self)@.scripts.update(i as int, r@),
    {
        let sid = self.scripts[i].id.clone();
        let enabled = self.scripts[i].enabled;
        let order = self.scripts[i].order;
        let url = crate::script::clone_opt_string(&self.scripts[i].url);
        let name = match meta.name {
            Some(n) => n,
            None => String::from_str("Unnamed Script"),
        };
        let fresh = Script {
            id: sid,
            name,
            code,
            enabled,
            order,
            url,
            version: meta.version,
            description: meta.description,
            author: meta.author,
            requires: meta.requires,
            last_updated: Some(now),
            last_fetch_error: None,
        };
        let returned = fresh.duplicate();
        self.scripts[i] = fresh;
        proof {
            assert(self@.scripts =~= old(self)@.scripts.update(i as int, returned@));
            lemma_update_same_id_wf(old(self)@.scripts, i as int, returned@);
        }
        returned
    }

    /// The ids of the scripts the auto-updater attempts at `now`, in
    /// collection order.
    pub fn auto_update_plan(&self, now: u64) -> (r: Vec<String>)
        ensures
            r.deep_view() == plan_spec(self@.scripts, now),
    {
        let ghost ss = self@.scripts;
        let ghost pred = |s: ScriptV| should_attempt_spec(s, now);
        let ghost f = |s: ScriptV| s.id;
        let mut out: Vec<String> = Vec::new();
        let mut k: usize = 0;
        proof {
            reveal(Seq::filter);
            assert(out.deep_view() =~= ss.take(0).filter(pred).map_values(f));
        }
        while k < self.scripts.len()
            invariant
                ss == self@.scripts,
                k <= self.scripts@.len(),
                ss.len() == self.scripts@.len(),
                pred == (|s: ScriptV| should_attempt_spec(s, now)),
                f == (|s: ScriptV| s.id),
                out.deep_view() == ss.take(k as int).filter(pred).map_values(f),
            decreases self.scripts@.len() - k,
        {
            proof {
                reveal(Seq::filter);
                assert(ss.take(k + 1 as int).drop_last() =~= ss.take(k as int));
                assert(ss.take(k + 1 as int).last() == ss[k as int]);
            }
            if should_attempt_update(&self.scripts[k], now) {
                let ghost pre = out.deep_view();
                out.push(self.scripts[k].id.clone());
                proof {
                    assert(out.deep_view() =~= pre.push(ss[k as int].id));
                    assert(ss.take(k + 1 as int).filter(pred).map_values(f) =~= ss.take(
                        k as int,
                    ).filter(pred).map_values(f).push(ss[k as int].id));
                }
            } else {
                proof {
                    assert(ss.take(k + 1 as int).filter(pred) == ss.take(k as int).filter(pred));
                }
            }
            k = k + 1;
        }
        proof {
            assert(ss.take(ss.len() as int) =~= ss);
        }
        out
    }

    /// Commits one auto-update attempt for the script carrying `id`.
    /// Dependencies the session fetched are cached whatever happened. On
    /// success the script is overwritten as a refresh does and the result is
    /// `true`. On failure the error message is stored on the script and the
    /// timestamp consumed, so a persistently broken source is retried at the
    /// shorter backoff. A script deleted meanwhile changes nothing.
    pub fn apply_auto_update(&mut self, id: &String, session: FetchSession, now: u64) -> (updated:
        bool)
        requires
            old(self)@.wf(),
            !(session@.phase is AwaitBody),
            !(session@.phase is AwaitDep),
        ensures
            final(self)@.wf(),
            final(self)@.deps == merge_deps_spec(old(self)@.deps, session@.acquired),
            match find_id(old(self)@.scripts, id@) {
                None => !updated && final(self)@.scripts == old(self)@.scripts,
                Some(i) => {
                    &&& (session@.phase matches PhaseV::Complete { code, meta } ==> updated
                        && final(self)@.scripts =~= old(self)@.scripts.update(
                        i,
                        refreshed_spec(old(self)@.scripts[i], code, meta, now),
                    ))
                    &&& (session@.phase matches PhaseV::Failed { error } ==> !updated
                        && final(self)@.scripts =~= old(self)@.scripts.update(
                        i,
                        errored_spec(old(self)@.scripts[i], error, now),
                    ))
                },
            },
    {
        let FetchSession { url: _, phase, acquired } = session;
        self.merge_deps(acquired);
        match self.find_index(id) {
            None => false,
            Some(i) => {
                proof {
                    lemma_find_id_props(self@.scripts, id@);
                }
                match phase {
                    SessionPhase::Complete { code, meta } => {
                        let _ = self.overwrite_script(i, code, meta, now);
                        true
                    },
                    SessionPhase::Failed { error } => {
                        let message = error.message();
                        self.scripts[i].last_fetch_error = Some(message);
                        self.scripts[i].last_updated = Some(now);
                        proof {
                            assert(self@.scripts =~= old(self)@.scripts.update(
                                i as int,
                                errored_spec(old(self)@.scripts[i as int], error@, now),
                            ));
                            lemma_update_same_id_wf(
                                old(self)@.scripts,
                                i as int,
                                self@.scripts[i as int],
                            );
                        }
                        false
                    },
                    SessionPhase::AwaitBody => vstd::pervasive::unreached(),
                    SessionPhase::AwaitDep { .. } => vstd::pervasive::unreached(),
                }
            },
        }
    }

    /// A snapshot of the scripts, in collection order.
    pub fn get_scripts(&self) -> (r: Vec<Script>)
        ensures
            r.deep_view() == self@.scripts,
    {
        let ghost ss = self@.scripts;
        let mut out: Vec<Script> = Vec::new();
        let mut k: usize = 0;
        while k < self.scripts.len()
            invariant
                ss == self@.scripts,
                k <= self.scripts@.len(),
                ss.len() == self.scripts@.len(),
                out.deep_view() =~= ss.take(k as int),
            decreases self.scripts@.len() - k,
        {
            let d = self.scripts[k].duplicate();
            proof {
                assert(d@ == ss[k as int]);
            }
            let ghost pre = out.deep_view();
            out.push(d);
            proof {
                assert(out.deep_view() =~= pre.push(ss[k as int]));
                assert(out.deep_view() =~= ss.take(k + 1 as int));
            }
            k = k + 1;
        }
        proof {
            assert(ss.take(ss.len() as int) =~= ss);
        }
        out
    }
}

proof fn lemma_push_fresh_id_wf(ss: Seq<ScriptV>, s: ScriptV)
    requires
        scripts_wf(ss),
        !script_id_taken(ss, s.id),
    ensures
        scripts_wf(ss.push(s)),
{
    let out = ss.push(s);
    assert forall|a: int, b: int| 0 <= a < b < out.len() implies out[a].id != out[b].id by {
        if b < ss.len() {
            assert(ss[a].id != ss[b].id);
        } else {
            assert(out[b] == s);
            assert(!(0 <= a < ss.len() && ss[a].id == s.id));
        }
    }
}

proof fn lemma_update_same_id_wf(ss: Seq<ScriptV>, i: int, s2: ScriptV)
    requires
        scripts_wf(ss),
        0 <= i < ss.len(),
        s2.id == ss[i].id,
    ensures
        scripts_wf(ss.update(i, s2)),
{
    let out = ss.update(i, s2);
    assert forall|a: int, b: int| 0 <= a < b < out.len() implies out[a].id != out[b].id by {
        assert(ss[a].id != ss[b].id);
    }
}


/// The scripts kept when reloading: first occurrence of each id.
pub open spec fn keep_first_ids(ss: Seq<ScriptV>) -> Seq<ScriptV>
    decreases ss.len(),
{
    if ss.len() == 0 {
        ss
    } else {
        let rest = keep_first_ids(ss.drop_last());
        if script_id_taken(rest, ss.last().id) {
            rest
        } else {
            rest.push(ss.last())
        }
    }
}

/// The cache entries kept when reloading: first occurrence of each URL.
pub open spec fn keep_first_urls(ds: Seq<DepV>) -> Seq<DepV>
    decreases ds.len(),
{
    if ds.len() == 0 {
        ds
    } else {
        let rest = keep_first_urls(ds.drop_last());
        if dep_cached(rest, ds.last().url) {
            rest
        } else {
            rest.push(ds.last())
        }
    }
}

/// A well-formed store is kept whole.
pub proof fn lemma_keep_first_ids_identity(ss: Seq<ScriptV>)
    requires
        scripts_wf(ss),
    ensures
        keep_first_ids(ss) == ss,
    decreases ss.len(),
{
    if ss.len() > 0 {
        assert(scripts_wf(ss.drop_last())) by {
            assert(forall|i: int, j: int|
                0 <= i < j < ss.drop_last().len() ==> ss.drop_last()[i] == ss[i]
                    && ss.drop_last()[j] == ss[j]);
        }
        lemma_keep_first_ids_identity(ss.drop_last());
        assert(!script_id_taken(ss.drop_last(), ss.last().id)) by {
            if script_id_taken(ss.drop_last(), ss.last().id) {
                let i = choose|i: int|
                    0 <= i < ss.drop_last().len() && ss.drop_last()[i].id == ss.last().id;
                assert(ss[i].id == ss[ss.len() - 1].id);
                assert(false);
            }
        }
        assert(ss.drop_last().push(ss.last()) =~= ss);
    }
}

/// A well-formed cache is kept whole.
pub proof fn lemma_keep_first_urls_identity(ds: Seq<DepV>)
    requires
        deps_wf(ds),
    ensures
        keep_first_urls(ds) == ds,
    decreases ds.len(),
{
    if ds.len() > 0 {
        assert(deps_wf(ds.drop_last())) by {
            assert(forall|i: int, j: int|
                0 <= i < j < ds.drop_last().len() ==> ds.drop_last()[i] == ds[i]
                    && ds.drop_last()[j] == ds[j]);
        }
        lemma_keep_first_urls_identity(ds.drop_last());
        assert(!dep_cached(ds.drop_last(), ds.last().url)) by {
            if dep_cached(ds.drop_last(), ds.last().url) {
                let i = choose|i: int|
                    0 <= i < ds.drop_last().len() && ds.drop_last()[i].url == ds.last().url;
                assert(ds[i].url == ds[ds.len() - 1].url);
                assert(false);
            }
        }
        assert(ds.drop_last().push(ds.last()) =~= ds);
    }
}

proof fn lemma_push_fresh_url_wf(ds: Seq<DepV>, d: DepV)
    requires
        deps_wf(ds),
        !dep_cached(ds, d.url),
    ensures
        deps_wf(ds.push(d)),
{
    let out = ds.push(d);
    assert forall|a: int, b: int| 0 <= a < b < out.len() implies out[a].url != out[b].url by {
        if b < ds.len() {
            assert(ds[a].url != ds[b].url);
        } else {
            assert(out[b] == d);
            assert(!(0 <= a < ds.len() && ds[a].url == d.url));
        }
    }
}

impl Registry {
    /// Builds the registry from two reloaded stores. An entry that would
    /// break the uniqueness invariants — a repeated script id or dependency
    /// URL — is dropped, keeping first occurrences; a store written by this
    /// library is kept whole.
    pub fn from_stores(scripts: Vec<Script>, deps: Vec<Dependency>) -> (r: Registry)
        ensures
            r@.wf(),
            r@.scripts == keep_first_ids(scripts.deep_view()),
            r@.deps == keep_first_urls(deps.deep_view()),
    {
        let ghost sv = scripts.deep_view();
        let ghost dv = deps.deep_view();
        let mut out_scripts: Vec<Script> = Vec::new();
        let mut k: usize = 0;
        proof {
            assert(sv.take(0) =~= Seq::<ScriptV>::empty());
            assert(out_scripts.deep_view() =~= keep_first_ids(sv.take(0)));
        }
        while k < scripts.len()
            invariant
                sv == scripts.deep_view(),
                sv.len() == scripts@.len(),
                k <= scripts@.len(),
                out_scripts.deep_view() == keep_first_ids(sv.take(k as int)),
                scripts_wf(out_scripts.deep_view()),
            decreases scripts@.len() - k,
        {
            proof {
                assert(sv.take(k + 1 as int).drop_last() =~= sv.take(k as int));
                assert(sv.take(k + 1 as int).last() == sv[k as int]);
            }
            let taken = id_taken(&out_scripts, &scripts[k].id);
            if !taken {
                let ghost pre = out_scripts.deep_view();
                let d = scripts[k].duplicate();
                proof {
                    assert(d@ == sv[k as int]);
                    lemma_push_fresh_id_wf(pre, sv[k as int]);
                }
                out_scripts.push(d);
                proof {
                    assert(out_scripts.deep_view() =~= pre.push(sv[k as int]));
                }
            }
            k = k + 1;
        }
        proof {
            assert(sv.take(sv.len() as int) =~= sv);
        }
        let mut out_deps: Vec<Dependency> = Vec::new();
        let mut q: usize = 0;
        proof {
            assert(dv.take(0) =~= Seq::<DepV>::empty());
            assert(out_deps.deep_view() =~= keep_first_urls(dv.take(0)));
        }
        while q < deps.len()
            invariant
                dv == deps.deep_view(),
                dv.len() == deps@.len(),
                q <= deps@.len(),
                out_deps.deep_view() == keep_first_urls(dv.take(q as int)),
                deps_wf(out_deps.deep_view()),
            decreases deps@.len() - q,
        {
            proof {
                assert(dv.take(q + 1 as int).drop_last() =~= dv.take(q as int));
                assert(dv.take(q + 1 as int).last() == dv[q as int]);
            }
            let cached = crate::fetch::dep_in_cache(&out_deps, &deps[q].url);
            if !cached {
                let ghost pre = out_deps.deep_view();
                let d = deps[q].duplicate();
                proof {
                    assert(d@ == dv[q as int]);
                    lemma_push_fresh_url_wf(pre, dv[q as int]);
                }
                out_deps.push(d);
                proof {
                    assert(out_deps.deep_view() =~= pre.push(dv[q as int]));
                }
            }
            q = q + 1;
        }
        proof {
            assert(dv.take(dv.len() as int) =~= dv);
        }
        Registry { scripts: out_scripts, deps: out_deps }
    }
}

/// Law: persisting a well-formed registry and reloading what was written
/// yields the very same registry: the documents decode to the stores they
/// were written from, and reloading keeps every entry.
pub proof fn lemma_registry_roundtrip(reg: RegistryV)
    requires
        reg.wf(),
        crate::codec::orders_in_range(reg.scripts),
    ensures
        crate::codec::dec_scripts_doc(crate::codec::scripts_doc(reg.scripts)) == Some(reg.scripts),
        crate::codec::dec_deps_doc(crate::codec::deps_doc(reg.deps)) == Some(reg.deps),
        keep_first_ids(reg.scripts) == reg.scripts,
        keep_first_urls(reg.deps) == reg.deps,
{
    crate::codec::lemma_store_roundtrip(reg.scripts, reg.deps);
    lemma_keep_first_ids_identity(reg.scripts);
    lemma_keep_first_urls_identity(reg.deps);
}

/// Law: once a script fetched from a URL stands in the collection, that URL
/// is a duplicate source: a later add from it is refused before any fetch,
/// and a racing add is refused at commit, both leaving the scripts unchanged.
pub proof fn lemma_second_add_is_duplicate(ss: Seq<ScriptV>, s: ScriptV, url: Seq<char>)
    requires
        s.url == Some(url),
    ensures
        has_source_url(ss.push(s), url),
{
    assert(ss.push(s)[ss.len() as int].url == Some(url));
}

/// Law: every dependency a session acquired is in the cache after the
/// commit, whether the operation succeeded or failed; a later pipeline run
/// therefore finds it cached and never fetches it again.
pub proof fn lemma_merge_caches_all(ds: Seq<DepV>, acq: Seq<DepV>, k: int)
    requires
        0 <= k < acq.len(),
    ensures
        dep_cached(merge_deps_spec(ds, acq), acq[k].url),
    decreases acq.len(),
{
    let merged = merge_deps_spec(ds, acq);
    if k == acq.len() - 1 {
        let before = merge_deps_spec(ds, acq.drop_last());
        lemma_find_dep_props(before, acq.last().url);
        match find_dep(before, acq.last().url) {
            Some(i) => {
                assert(merged[i].url == acq[k].url);
            },
            None => {
                assert(merged[before.len() as int].url == acq[k].url);
            },
        }
    } else {
        lemma_merge_caches_all(ds, acq.drop_last(), k);
        let before = merge_deps_spec(ds, acq.drop_last());
        let i = choose|i: int| 0 <= i < before.len() && before[i].url == acq[k].url;
        lemma_find_dep_props(before, acq.last().url);
        match find_dep(before, acq.last().url) {
            Some(j) => {
                assert(merged == before.update(j, acq.last()));
                if i == j {
                    assert(merged[i].url == acq.last().url);
                    assert(acq.last().url == acq[k].url);
                } else {
                    assert(merged[i].url == acq[k].url);
                }
            },
            None => {
                assert(merged[i].url == acq[k].url);
            },
        }
    }
}

} // verus!
