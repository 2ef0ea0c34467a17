//! Metadata parser: extracts the structured header block from raw script
//! text. The header is delimited by a fixed open and close marker; inside it,
//! each directive line is matched independently. Single-valued directives
//! (`@name`, `@version`, `@description`, `@author`) take the first match
//! found; the `@require` directive may repeat, and every URL found is kept in
//! source order with duplicates removed. Absence of a directive leaves the
//! field empty; parsing never fails.
use vstd::prelude::*;
use crate::strutil::{
    chars_of, copy_range, find_from, find_spec, is_ws, is_ws_char, lemma_find_spec_props,
    lemma_skip_ws_bounds, lemma_token_end_bounds, match_at, match_at_exec, opt_str_view,
    skip_ws_exec,
    skip_ws_spec, string_of, token_end_exec, token_end_spec, trim_range, trim_spec,
};

verus! {

/// Parsed header fields. All fields default to empty when absent.
#[derive(Debug)]
pub struct Metadata {
    pub name: Option<String>,
    pub version: Option<String>,
    pub description: Option<String>,
    pub author: Option<String>,
    pub requires: Vec<String>,
}

/// Mathematical model of `Metadata`.
pub ghost struct MetaSpec {
    pub name: Option<Seq<char>>,
    pub version: Option<Seq<char>>,
    pub description: Option<Seq<char>>,
    pub author: Option<Seq<char>>,
    pub requires: Seq<Seq<char>>,
}

impl Metadata {
    pub open spec fn mview(&self) -> MetaSpec {
        MetaSpec {
            name: opt_str_view(self.name),
            version: opt_str_view(self.version),
            description: opt_str_view(self.description),
            author: opt_str_view(self.author),
            requires: self.requires.deep_view(),
        }
    }
}

pub open spec fn empty_meta() -> MetaSpec {
    MetaSpec {
        name: None,
        version: None,
        description: None,
        author: None,
        requires: Seq::empty(),
    }
}

// --- markers and directive keys ---

pub open spec fn open_marker() -> Seq<char> {
    seq!['=', '=', 'U', 's', 'e', 'r', 'S', 'c', 'r', 'i', 'p', 't', '=', '=']
}

pub open spec fn close_marker() -> Seq<char> {
    seq!['=', '=', '/', 'U', 's', 'e', 'r', 'S', 'c', 'r', 'i', 'p', 't', '=', '=']
}

pub open spec fn name_key() -> Seq<char> {
    seq!['@', 'n', 'a', 'm', 'e']
}

pub open spec fn version_key() -> Seq<char> {
    seq!['@', 'v', 'e', 'r', 's', 'i', 'o', 'n']
}

pub open spec fn description_key() -> Seq<char> {
    seq!['@', 'd', 'e', 's', 'c', 'r', 'i', 'p', 't', 'i', 'o', 'n']
}

pub open spec fn author_key() -> Seq<char> {
    seq!['@', 'a', 'u', 't', 'h', 'o', 'r']
}

pub open spec fn require_key() -> Seq<char> {
    seq!['@', 'r', 'e', 'q', 'u', 'i', 'r', 'e']
}

pub open spec fn http_prefix() -> Seq<char> {
    seq!['h', 't', 't', 'p', ':', '/', '/']
}

pub open spec fn https_prefix() -> Seq<char> {
    seq!['h', 't', 't', 'p', 's', ':', '/', '/']
}

fn open_marker_exec() -> (v: Vec<char>)
    ensures
        v@ == open_marker(),
{
    let v = vec!['=', '=', 'U', 's', 'e', 'r', 'S', 'c', 'r', 'i', 'p', 't', '=', '='];
    proof {
        assert(v@ =~= open_marker());
    }
    v
}

fn close_marker_exec() -> (v: Vec<char>)
    ensures
        v@ == close_marker(),
{
    let v = vec!['=', '=', '/', 'U', 's', 'e', 'r', 'S', 'c', 'r', 'i', 'p', 't', '=', '='];
    proof {
        assert(v@ =~= close_marker());
    }
    v
}

fn name_key_exec() -> (v: Vec<char>)
    ensures
        v@ == name_key(),
{
    let v = vec!['@', 'n', 'a', 'm', 'e'];
    proof {
        assert(v@ =~= name_key());
    }
    v
}

fn version_key_exec() -> (v: Vec<char>)
    ensures
        v@ == version_key(),
{
    let v = vec!['@', 'v', 'e', 'r', 's', 'i', 'o', 'n'];
    proof {
        assert(v@ =~= version_key());
    }
    v
}

fn description_key_exec() -> (v: Vec<char>)
    ensures
        v@ == description_key(),
{
    let v = vec!['@', 'd', 'e', 's', 'c', 'r', 'i', 'p', 't', 'i', 'o', 'n'];
    proof {
        assert(v@ =~= description_key());
    }
    v
}

fn author_key_exec() -> (v: Vec<char>)
    ensures
        v@ == author_key(),
{
    let v = vec!['@', 'a', 'u', 't', 'h', 'o', 'r'];
    proof {
        assert(v@ =~= author_key());
    }
    v
}

fn require_key_exec() -> (v: Vec<char>)
    ensures
        v@ == require_key(),
{
    let v = vec!['@', 'r', 'e', 'q', 'u', 'i', 'r', 'e'];
    proof {
        assert(v@ =~= require_key());
    }
    v
}

// --- lines ---

/// Index of the line break (or the end) at or after `i`.
pub open spec fn line_end_spec(s: Seq<char>, i: int) -> int
    decreases s.len() - i when 0 <= i <= s.len()
{
    if 0 <= i < s.len() && s[i] != '\n' {
        line_end_spec(s, i + 1)
    } else {
        i
    }
}

pub proof fn lemma_line_end_bounds(s: Seq<char>, i: int)
    requires
        0 <= i <= s.len(),
    ensures
        i <= line_end_spec(s, i) <= s.len(),
    decreases s.len() - i,
{
    if i < s.len() && s[i] != '\n' {
        lemma_line_end_bounds(s, i + 1);
    }
}

fn line_end_exec(s: &Vec<char>, i: usize) -> (r: usize)
    requires
        i <= s@.len(),
    ensures
        r == line_end_spec(s@, i as int),
{
    let mut j: usize = i;
    loop
        invariant
            i <= j <= s@.len(),
            line_end_spec(s@, i as int) == line_end_spec(s@, j as int),
        decreases s@.len() - j,
    {
        if j < s.len() && s[j] != '\n' {
            j = j + 1;
        } else {
            return j;
        }
    }
}

// --- single-valued directives ---

/// A valid single-valued directive occurrence: the key at `i`, followed by a
/// whitespace character, with a non-empty trimmed remainder of the line.
pub open spec fn dir_valid_at(line: Seq<char>, key: Seq<char>, i: int) -> bool {
    &&& i + key.len() < line.len()
    &&& is_ws_char(line[i + key.len()])
    &&& trim_spec(line.subrange(i + key.len(), line.len() as int)).len() > 0
}

/// The whitespace-trimmed remainder of the line after the key.
pub open spec fn dir_value(line: Seq<char>, key: Seq<char>, i: int) -> Seq<char> {
    trim_spec(line.subrange(i + key.len(), line.len() as int))
}

/// Value of the first valid occurrence of `key` in `line` at or after `i`.
pub open spec fn line_field_from(line: Seq<char>, key: Seq<char>, i: int) -> Option<Seq<char>>
    decreases line.len() - i when 0 <= i
{
    if i >= line.len() || i + key.len() > line.len() {
        None
    } else if match_at(line, key, i) && dir_valid_at(line, key, i) {
        Some(dir_value(line, key, i))
    } else {
        line_field_from(line, key, i + 1)
    }
}

proof fn lemma_line_field_skip(line: Seq<char>, key: Seq<char>, i: int, p: int)
    requires
        key.len() > 0,
        0 <= i <= p,
        forall|k: int| i <= k < p ==> !match_at(line, key, k),
        p + key.len() <= line.len(),
    ensures
        line_field_from(line, key, i) == line_field_from(line, key, p),
    decreases p - i,
{
    if i < p {
        lemma_line_field_skip(line, key, i + 1, p);
    }
}

proof fn lemma_line_field_none(line: Seq<char>, key: Seq<char>, i: int)
    requires
        0 <= i,
        forall|k: int| i <= k ==> !match_at(line, key, k),
    ensures
        line_field_from(line, key, i) is None,
    decreases line.len() - i,
{
    if i < line.len() {
        lemma_line_field_none(line, key, i + 1);
    }
}

/// First valid directive value for `key` in `line`.
fn line_field_exec(line: &Vec<char>, key: &Vec<char>) -> (r: Option<Vec<char>>)
    requires
        key@.len() > 0,
    ensures
        match r {
            Some(v) => line_field_from(line@, key@, 0) == Some(v@),
            None => line_field_from(line@, key@, 0) is None,
        },
{
    let mut i: usize = 0;
    loop
        invariant
            0 <= i,
            key@.len() > 0,
            line_field_from(line@, key@, 0) == line_field_from(line@, key@, i as int),
        decreases line@.len() + 1 - i,
    {
        if i > line.len() {
            return None;
        }
        match find_from(line, key, i) {
            None => {
                proof {
                    lemma_find_spec_props(line@, key@, i as int);
                    lemma_line_field_none(line@, key@, i as int);
                }
                return None;
            },
            Some(p) => {
                proof {
                    lemma_find_spec_props(line@, key@, i as int);
                    lemma_line_field_skip(line@, key@, i as int, p as int);
                }
                let after = p + key.len();
                if after < line.len() && is_ws(line[after]) {
                    let v = trim_range(line, after, line.len());
                    if v.len() > 0 {
                        return Some(v);
                    }
                }
                i = p + 1;
            },
        }
    }
}

/// Value of `key` on the first line of `block` (at or after `ls`) that
/// carries a valid occurrence of it.
pub open spec fn field_from(block: Seq<char>, key: Seq<char>, ls: int) -> Option<Seq<char>>
    decreases block.len() - ls,
    when 0 <= ls <= block.len()
    via field_from_dec
{
    let e = line_end_spec(block, ls);
    let v = line_field_from(block.subrange(ls, e), key, 0);
    if v is Some {
        v
    } else if e >= block.len() {
        None
    } else {
        field_from(block, key, e + 1)
    }
}

#[via_fn]
proof fn field_from_dec(block: Seq<char>, key: Seq<char>, ls: int) {
    lemma_line_end_bounds(block, ls);
}

// --- the repeatable dependency directive ---

/// The bounds of the whitespace-delimited token following position `i`.
pub open spec fn req_token_start(line: Seq<char>, i: int) -> int {
    skip_ws_spec(line, i + require_key().len())
}

pub open spec fn req_token_end(line: Seq<char>, i: int) -> int {
    token_end_spec(line, req_token_start(line, i))
}

/// A token is accepted as a dependency URL when it begins with `http://` or
/// `https://` and continues past the prefix.
pub open spec fn is_url_token(t: Seq<char>) -> bool {
    ||| (match_at(t, http_prefix(), 0) && t.len() > http_prefix().len())
    ||| (match_at(t, https_prefix(), 0) && t.len() > https_prefix().len())
}

/// A valid `@require` occurrence: the key at `i`, a whitespace character
/// after it, and then a URL token.
pub open spec fn req_valid_at(line: Seq<char>, i: int) -> bool {
    &&& match_at(line, require_key(), i)
    &&& i + require_key().len() < line.len()
    &&& is_ws_char(line[i + require_key().len()])
    &&& req_token_start(line, i) <= req_token_end(line, i) <= line.len()
    &&& is_url_token(line.subrange(req_token_start(line, i), req_token_end(line, i)))
}

pub open spec fn req_value(line: Seq<char>, i: int) -> Seq<char> {
    line.subrange(req_token_start(line, i), req_token_end(line, i))
}

/// All dependency URLs declared in `line` at or after `i`, in source order.
pub open spec fn requires_in_line_from(line: Seq<char>, i: int) -> Seq<Seq<char>>
    decreases line.len() - i when 0 <= i
{
    if i + require_key().len() > line.len() {
        Seq::empty()
    } else if req_valid_at(line, i) {
        seq![req_value(line, i)] + requires_in_line_from(line, i + require_key().len())
    } else {
        requires_in_line_from(line, i + 1)
    }
}

proof fn lemma_req_line_skip(line: Seq<char>, i: int, p: int)
    requires
        0 <= i <= p,
        forall|k: int| i <= k < p ==> !match_at(line, require_key(), k),
        p + require_key().len() <= line.len(),
    ensures
        requires_in_line_from(line, i) == requires_in_line_from(line, p),
    decreases p - i,
{
    if i < p {
        lemma_req_line_skip(line, i + 1, p);
    }
}

proof fn lemma_req_line_none(line: Seq<char>, i: int)
    requires
        0 <= i,
        forall|k: int| i <= k ==> !match_at(line, require_key(), k),
    ensures
        requires_in_line_from(line, i) == Seq::<Seq<char>>::empty(),
    decreases line.len() - i,
{
    if i + require_key().len() <= line.len() {
        lemma_req_line_none(line, i + 1);
    }
}

/// Collects the dependency URLs declared in `line`, appending to `acc`.
fn line_requires_exec(line: &Vec<char>, acc: &mut Vec<String>)
    ensures
        final(acc).deep_view() == old(acc).deep_view() + requires_in_line_from(line@, 0),
{
    let key = require_key_exec();
    let http = vec!['h', 't', 't', 'p', ':', '/', '/'];
    let https = vec!['h', 't', 't', 'p', 's', ':', '/', '/'];
    proof {
        assert(http@ =~= http_prefix());
        assert(https@ =~= https_prefix());
    }
    let mut i: usize = 0;
    loop
        invariant
            0 <= i,
            key@ == require_key(),
            http@ == http_prefix(),
            https@ == https_prefix(),
            old(acc).deep_view() + requires_in_line_from(line@, 0) == acc.deep_view()
                + requires_in_line_from(line@, i as int),
        decreases line@.len() + 1 - i,
    {
        if i > line.len() {
            proof {
                assert(requires_in_line_from(line@, i as int) =~= Seq::<Seq<char>>::empty());
                assert(acc.deep_view() =~= old(acc).deep_view() + requires_in_line_from(line@, 0));
            }
            return ;
        }
        match find_from(line, &key, i) {
            None => {
                proof {
                    lemma_find_spec_props(line@, key@, i as int);
                    lemma_req_line_none(line@, i as int);
                    assert(acc.deep_view() =~= old(acc).deep_view() + requires_in_line_from(
                        line@,
                        0,
                    ));
                }
                return ;
            },
            Some(p) => {
                proof {
                    lemma_find_spec_props(line@, key@, i as int);
                    lemma_req_line_skip(line@, i as int, p as int);
                }
                let after = p + key.len();
                let mut advanced = false;
                if after < line.len() && is_ws(line[after]) {
                    let sk = skip_ws_exec(line, after);
                    proof {
                        lemma_skip_ws_bounds(line@, after as int);
                    }
                    let te = token_end_exec(line, sk);
                    proof {
                        lemma_token_end_bounds(line@, sk as int);
                    }
                    let tok = copy_range(line, sk, te);
                    let url_ok = (match_at_exec(&tok, &http, 0) && tok.len() > http.len()) || (
                    match_at_exec(&tok, &https, 0) && tok.len() > https.len());
                    if url_ok {
                        let ghost pre = acc.deep_view();
                        acc.push(string_of(&tok));
                        proof {
                            assert(acc.deep_view() =~= pre + seq![tok@]);
                            assert(req_valid_at(line@, p as int));
                            assert(requires_in_line_from(line@, p as int) == seq![
                                req_value(line@, p as int),
                            ] + requires_in_line_from(line@, p + require_key().len()));
                            assert(pre + (seq![tok@] + requires_in_line_from(
                                line@,
                                p + require_key().len(),
                            )) =~= (pre + seq![tok@]) + requires_in_line_from(
                                line@,
                                p + require_key().len(),
                            ));
                        }
                        i = p + key.len();
                        advanced = true;
                    }
                }
                if !advanced {
                    proof {
                        assert(!req_valid_at(line@, p as int));
                    }
                    i = p + 1;
                }
            },
        }
    }
}

/// All dependency URLs declared in `block` from line start `ls` on.
pub open spec fn requires_from(block: Seq<char>, ls: int) -> Seq<Seq<char>>
    decreases block.len() - ls,
    when 0 <= ls <= block.len()
    via requires_from_dec
{
    let e = line_end_spec(block, ls);
    let here = requires_in_line_from(block.subrange(ls, e), 0);
    if e >= block.len() {
        here
    } else {
        here + requires_from(block, e + 1)
    }
}

#[via_fn]
proof fn requires_from_dec(block: Seq<char>, ls: int) {
    lemma_line_end_bounds(block, ls);
}

// --- duplicate removal ---

/// Keeps the first occurrence of each element.
pub open spec fn dedup_first(s: Seq<Seq<char>>) -> Seq<Seq<char>>
    decreases s.len(),
{
    if s.len() == 0 {
        s
    } else {
        let rest = dedup_first(s.drop_last());
        if rest.contains(s.last()) {
            rest
        } else {
            rest.push(s.last())
        }
    }
}

fn vec_contains_str(v: &Vec<String>, x: &String) -> (r: bool)
    ensures
        r == v.deep_view().contains(x@),
{
    let mut k: usize = 0;
    while k < v.len()
        invariant
            k <= v@.len(),
            forall|t: int| 0 <= t < k ==> v.deep_view()[t] != x@,
        decreases v@.len() - k,
    {
        if v[k].eq(x) {
            assert(v.deep_view()[k as int] == x@);
            return true;
        }
        assert(v.deep_view()[k as int] != x@);
        k = k + 1;
    }
    proof {
        assert forall|t: int| 0 <= t < v.deep_view().len() implies v.deep_view()[t] != x@ by {}
    }
    false
}

pub(crate) fn dedup_strings(v: Vec<String>) -> (r: Vec<String>)
    ensures
        r.deep_view() == dedup_first(v.deep_view()),
{
    let mut out: Vec<String> = Vec::new();
    let mut k: usize = 0;
    while k < v.len()
        invariant
            k <= v@.len(),
            out.deep_view() == dedup_first(v.deep_view().take(k as int)),
        decreases v@.len() - k,
    {
        proof {
            assert(v.deep_view().take(k + 1 as int).drop_last() =~= v.deep_view().take(k as int));
            assert(v.deep_view().take(k + 1 as int).last() == v.deep_view()[k as int]);
        }
        let present = vec_contains_str(&out, &v[k]);
        if !present {
            let ghost pre = out.deep_view();
            let s = v[k].clone();
            out.push(s);
            proof {
                assert(out.deep_view() =~= pre.push(v.deep_view()[k as int]));
            }
        }
        k = k + 1;
    }
    proof {
        assert(v.deep_view().take(v.deep_view().len() as int) =~= v.deep_view());
    }
    out
}

// --- the header block and the top-level parser ---

/// The text between the first open marker and the first close marker that
/// follows it; `None` when either marker is missing.
pub open spec fn header_block(code: Seq<char>) -> Option<Seq<char>> {
    match find_spec(code, open_marker(), 0) {
        None => None,
        Some(o) => {
            let start = o + open_marker().len();
            match find_spec(code, close_marker(), start) {
                None => None,
                Some(c) => Some(code.subrange(start, c)),
            }
        },
    }
}

/// What the parser extracts from raw script text.
pub open spec fn parse_metadata_spec(code: Seq<char>) -> MetaSpec {
    match header_block(code) {
        None => empty_meta(),
        Some(block) => MetaSpec {
            name: field_from(block, name_key(), 0),
            version: field_from(block, version_key(), 0),
            description: field_from(block, description_key(), 0),
            author: field_from(block, author_key(), 0),
            requires: dedup_first(requires_from(block, 0)),
        },
    }
}

/// Scans the header block line by line for every directive.
fn scan_block(block: &Vec<char>) -> (r: Metadata)
    ensures
        opt_str_view(r.name) == field_from(block@, name_key(), 0),
        opt_str_view(r.version) == field_from(block@, version_key(), 0),
        opt_str_view(r.description) == field_from(block@, description_key(), 0),
        opt_str_view(r.author) == field_from(block@, author_key(), 0),
        r.requires.deep_view() == requires_from(block@, 0),
{
    let name_key_v = name_key_exec();
    let version_key_v = version_key_exec();
    let description_key_v = description_key_exec();
    let author_key_v = author_key_exec();
    let mut name: Option<String> = None;
    let mut version: Option<String> = None;
    let mut description: Option<String> = None;
    let mut author: Option<String> = None;
    let mut reqs: Vec<String> = Vec::new();
    let mut ls: usize = 0;
    loop
        invariant
            0 <= ls <= block@.len(),
            name_key_v@ == name_key(),
            version_key_v@ == version_key(),
            description_key_v@ == description_key(),
            author_key_v@ == author_key(),
            match name {
                Some(s) => field_from(block@, name_key(), 0) == Some(s@),
                None => field_from(block@, name_key(), 0) == field_from(
                    block@,
                    name_key(),
                    ls as int,
                ),
            },
            match version {
                Some(s) => field_from(block@, version_key(), 0) == Some(s@),
                None => field_from(block@, version_key(), 0) == field_from(
                    block@,
                    version_key(),
                    ls as int,
                ),
            },
            match description {
                Some(s) => field_from(block@, description_key(), 0) == Some(s@),
                None => field_from(block@, description_key(), 0) == field_from(
                    block@,
                    description_key(),
                    ls as int,
                ),
            },
            match author {
                Some(s) => field_from(block@, author_key(), 0) == Some(s@),
                None => field_from(block@, author_key(), 0) == field_from(
                    block@,
                    author_key(),
                    ls as int,
                ),
            },
            requires_from(block@, 0) == reqs.deep_view() + requires_from(block@, ls as int),
        decreases block@.len() - ls,
    {
        let e = line_end_exec(block, ls);
        proof {
            lemma_line_end_bounds(block@, ls as int);
        }
        let line = copy_range(block, ls, e);
        if name.is_none() {
            if let Some(v) = line_field_exec(&line, &name_key_v) {
                name = Some(string_of(&v));
            }
        }
        if version.is_none() {
            if let Some(v) = line_field_exec(&line, &version_key_v) {
                version = Some(string_of(&v));
            }
        }
        if description.is_none() {
            if let Some(v) = line_field_exec(&line, &description_key_v) {
                description = Some(string_of(&v));
            }
        }
        if author.is_none() {
            if let Some(v) = line_field_exec(&line, &author_key_v) {
                author = Some(string_of(&v));
            }
        }
        let ghost pre_reqs = reqs.deep_view();
        line_requires_exec(&line, &mut reqs);
        proof {
            assert(pre_reqs + (requires_in_line_from(line@, 0) + requires_from(
                block@,
                e + 1 as int,
            )) =~= (pre_reqs + requires_in_line_from(line@, 0)) + requires_from(
                block@,
                e + 1 as int,
            ));
        }
        if e >= block.len() {
            proof {
                assert(reqs.deep_view() + Seq::<Seq<char>>::empty() =~= reqs.deep_view());
                assert(requires_from(block@, 0) =~= reqs.deep_view());
            }
            return Metadata { name, version, description, author, requires: reqs };
        }
        ls = e + 1;
    }
}

/// Parses the header block out of raw script text. Locates the first open
/// marker and the first close marker after it; when either is absent, every
/// field is empty. Duplicate dependency URLs are dropped, keeping first
/// occurrences in declaration order.
pub fn parse_metadata(code: &str) -> (m: Metadata)
    ensures
        m.mview() == parse_metadata_spec(code@),
{
    let cs = chars_of(code);
    let om = open_marker_exec();
    let cm = close_marker_exec();
    match find_from(&cs, &om, 0) {
        None => {
            let m = Metadata {
                name: None,
                version: None,
                description: None,
                author: None,
                requires: Vec::new(),
            };
            proof {
                assert(m.requires.deep_view() =~= Seq::<Seq<char>>::empty());
            }
            m
        },
        Some(o) => {
            proof {
                lemma_find_spec_props(cs@, om@, 0);
            }
            let start = o + om.len();
            match find_from(&cs, &cm, start) {
                None => {
                    let m = Metadata {
                        name: None,
                        version: None,
                        description: None,
                        author: None,
                        requires: Vec::new(),
                    };
                    proof {
                        assert(m.requires.deep_view() =~= Seq::<Seq<char>>::empty());
                    }
                    m
                },
                Some(c) => {
                    proof {
                        lemma_find_spec_props(cs@, cm@, start as int);
                    }
                    let block = copy_range(&cs, start, c);
                    let scanned = scan_block(&block);
                    let deduped = dedup_strings(scanned.requires);
                    Metadata {
                        name: scanned.name,
                        version: scanned.version,
                        description: scanned.description,
                        author: scanned.author,
                        requires: deduped,
                    }
                },
            }
        },
    }
}

} // verus!
