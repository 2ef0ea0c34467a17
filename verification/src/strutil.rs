//! String utilities shared by the metadata parser, the document codec and the
//! payload assembler. Executable code works on `Vec<char>`; every function is
//! specified against a recursive spec-level counterpart over `Seq<char>`.
use vstd::prelude::*;

verus! {

/// The characters treated as whitespace by directive trimming and token
/// splitting.
pub open spec fn is_ws_char(c: char) -> bool {
    c == ' ' || c == '\t' || c == '\r' || c == '\n'
}

pub fn is_ws(c: char) -> (r: bool)
    ensures
        r == is_ws_char(c),
{
    c == ' ' || c == '\t' || c == '\r' || c == '\n'
}

/// `pat` occurs in `s` starting at position `i`.
pub open spec fn match_at(s: Seq<char>, pat: Seq<char>, i: int) -> bool {
    &&& 0 <= i
    &&& i + pat.len() <= s.len()
    &&& forall|k: int| 0 <= k < pat.len() ==> s[i + k] == pat[k]
}

/// Position of the first occurrence of `pat` in `s` at or after `i`.
pub open spec fn find_spec(s: Seq<char>, pat: Seq<char>, i: int) -> Option<int>
    decreases s.len() - i when 0 <= i
{
    if i < 0 || i + pat.len() > s.len() {
        None
    } else if match_at(s, pat, i) {
        Some(i)
    } else {
        find_spec(s, pat, i + 1)
    }
}

pub proof fn lemma_find_spec_props(s: Seq<char>, pat: Seq<char>, i: int)
    requires
        0 <= i,
    ensures
        match find_spec(s, pat, i) {
            Some(j) => i <= j && match_at(s, pat, j) && forall|k: int|
                i <= k < j ==> !match_at(s, pat, k),
            None => forall|k: int| i <= k ==> !match_at(s, pat, k),
        },
    decreases s.len() - i,
{
    if i + pat.len() > s.len() {
        assert forall|k: int| i <= k implies !match_at(s, pat, k) by {}
    } else if match_at(s, pat, i) {
    } else {
        lemma_find_spec_props(s, pat, i + 1);
    }
}

pub fn match_at_exec(s: &Vec<char>, pat: &Vec<char>, i: usize) -> (r: bool)
    ensures
        r == match_at(s@, pat@, i as int),
{
    if i > s.len() || pat.len() > s.len() - i {
        return false;
    }
    let mut k: usize = 0;
    while k < pat.len()
        invariant
            i + pat.len() <= s.len(),
            k <= pat.len(),
            forall|t: int| 0 <= t < k ==> s@[i + t] == pat@[t],
        decreases pat.len() - k,
    {
        if s[i + k] != pat[k] {
            return false;
        }
        k = k + 1;
    }
    true
}

/// First occurrence of `pat` in `s` at or after `from`.
pub fn find_from(s: &Vec<char>, pat: &Vec<char>, from: usize) -> (r: Option<usize>)
    ensures
        match r {
            Some(j) => find_spec(s@, pat@, from as int) == Some(j as int),
            None => find_spec(s@, pat@, from as int) is None,
        },
{
    if pat.len() > s.len() || from > s.len() - pat.len() {
        assert(find_spec(s@, pat@, from as int) is None) by {
            lemma_find_spec_props(s@, pat@, from as int);
            assert(forall|k: int| from <= k ==> !match_at(s@, pat@, k));
        }
        return None;
    }
    let last: usize = s.len() - pat.len();
    let mut i: usize = from;
    loop
        invariant
            from <= i <= last + 1,
            last == s.len() - pat.len(),
            pat.len() <= s.len(),
            find_spec(s@, pat@, from as int) == find_spec(s@, pat@, i as int),
        decreases last + 1 - i,
    {
        if i > last {
            return None;
        }
        if match_at_exec(s, pat, i) {
            return Some(i);
        }
        i = i + 1;
    }
}

/// `pat` occurs somewhere in `s`.
pub open spec fn contains_seq(s: Seq<char>, pat: Seq<char>) -> bool {
    exists|i: int| match_at(s, pat, i)
}

pub fn contains_exec(s: &Vec<char>, pat: &Vec<char>) -> (r: bool)
    ensures
        r == contains_seq(s@, pat@),
{
    match find_from(s, pat, 0) {
        Some(j) => {
            proof {
                lemma_find_spec_props(s@, pat@, 0);
            }
            true
        },
        None => {
            proof {
                lemma_find_spec_props(s@, pat@, 0);
                assert forall|i: int| !match_at(s@, pat@, i) by {
                    if i >= 0 {
                        assert(!match_at(s@, pat@, i));
                    }
                }
            }
            false
        },
    }
}

/// Index of the first non-whitespace character at or after `i`.
pub open spec fn skip_ws_spec(s: Seq<char>, i: int) -> int
    decreases s.len() - i when 0 <= i <= s.len()
{
    if 0 <= i < s.len() && is_ws_char(s[i]) {
        skip_ws_spec(s, i + 1)
    } else {
        i
    }
}

pub proof fn lemma_skip_ws_bounds(s: Seq<char>, i: int)
    requires
        0 <= i <= s.len(),
    ensures
        i <= skip_ws_spec(s, i) <= s.len(),
        skip_ws_spec(s, i) < s.len() ==> !is_ws_char(s[skip_ws_spec(s, i)]),
        forall|k: int| i <= k < skip_ws_spec(s, i) ==> is_ws_char(s[k]),
    decreases s.len() - i,
{
    if i < s.len() && is_ws_char(s[i]) {
        lemma_skip_ws_bounds(s, i + 1);
    }
}

pub fn skip_ws_exec(s: &Vec<char>, i: usize) -> (r: usize)
    requires
        i <= s@.len(),
    ensures
        r == skip_ws_spec(s@, i as int),
{
    let mut j: usize = i;
    loop
        invariant
            i <= j <= s@.len(),
            skip_ws_spec(s@, i as int) == skip_ws_spec(s@, j as int),
        decreases s@.len() - j,
    {
        if j < s.len() && is_ws(s[j]) {
            j = j + 1;
        } else {
            return j;
        }
    }
}

/// Index of the first whitespace character (or the end) at or after `i`.
pub open spec fn token_end_spec(s: Seq<char>, i: int) -> int
    decreases s.len() - i when 0 <= i <= s.len()
{
    if 0 <= i < s.len() && !is_ws_char(s[i]) {
        token_end_spec(s, i + 1)
    } else {
        i
    }
}

pub proof fn lemma_token_end_bounds(s: Seq<char>, i: int)
    requires
        0 <= i <= s.len(),
    ensures
        i <= token_end_spec(s, i) <= s.len(),
    decreases s.len() - i,
{
    if i < s.len() && !is_ws_char(s[i]) {
        lemma_token_end_bounds(s, i + 1);
    }
}

pub fn token_end_exec(s: &Vec<char>, i: usize) -> (r: usize)
    requires
        i <= s@.len(),
    ensures
        r == token_end_spec(s@, i as int),
{
    let mut j: usize = i;
    loop
        invariant
            i <= j <= s@.len(),
            token_end_spec(s@, i as int) == token_end_spec(s@, j as int),
        decreases s@.len() - j,
    {
        if j < s.len() && !is_ws(s[j]) {
            j = j + 1;
        } else {
            return j;
        }
    }
}

/// Largest index `j <= i` such that everything in `[j, i)` is whitespace.
pub open spec fn rskip_ws_spec(s: Seq<char>, i: int) -> int
    decreases i when 0 <= i <= s.len()
{
    if 0 < i <= s.len() && is_ws_char(s[i - 1]) {
        rskip_ws_spec(s, i - 1)
    } else {
        i
    }
}

pub proof fn lemma_rskip_ws_bounds(s: Seq<char>, i: int)
    requires
        0 <= i <= s.len(),
    ensures
        0 <= rskip_ws_spec(s, i) <= i,
    decreases i,
{
    if 0 < i && is_ws_char(s[i - 1]) {
        lemma_rskip_ws_bounds(s, i - 1);
    }
}

pub fn rskip_ws_exec(s: &Vec<char>, i: usize) -> (r: usize)
    requires
        i <= s@.len(),
    ensures
        r == rskip_ws_spec(s@, i as int),
{
    let mut j: usize = i;
    loop
        invariant
            j <= i <= s@.len(),
            rskip_ws_spec(s@, i as int) == rskip_ws_spec(s@, j as int),
        decreases j,
    {
        if j > 0 && is_ws(s[j - 1]) {
            j = j - 1;
        } else {
            return j;
        }
    }
}

/// `s` with leading and trailing whitespace removed.
pub open spec fn trim_spec(s: Seq<char>) -> Seq<char> {
    let a = skip_ws_spec(s, 0);
    let b = rskip_ws_spec(s, s.len() as int);
    if a < b {
        s.subrange(a, b)
    } else {
        Seq::empty()
    }
}

/// Copy of `s[lo..hi]` trimmed of leading and trailing whitespace.
pub fn trim_range(s: &Vec<char>, lo: usize, hi: usize) -> (r: Vec<char>)
    requires
        lo <= hi <= s@.len(),
    ensures
        r@ == trim_spec(s@.subrange(lo as int, hi as int)),
{
    let sub = copy_range(s, lo, hi);
    let a = skip_ws_exec(&sub, 0);
    let b = rskip_ws_exec(&sub, sub.len());
    proof {
        lemma_skip_ws_bounds(sub@, 0);
        lemma_rskip_ws_bounds(sub@, sub@.len() as int);
    }
    if a < b {
        copy_range(&sub, a, b)
    } else {
        Vec::new()
    }
}

/// Copy of `s[lo..hi]`.
pub fn copy_range(s: &Vec<char>, lo: usize, hi: usize) -> (r: Vec<char>)
    requires
        lo <= hi <= s@.len(),
    ensures
        r@ == s@.subrange(lo as int, hi as int),
{
    let mut out: Vec<char> = Vec::new();
    let mut k: usize = lo;
    while k < hi
        invariant
            lo <= k <= hi <= s@.len(),
            out@ == s@.subrange(lo as int, k as int),
        decreases hi - k,
    {
        out.push(s[k]);
        proof {
            assert(out@ =~= s@.subrange(lo as int, k + 1 as int));
        }
        k = k + 1;
    }
    out
}

/// Appends all of `src` to `dst`.
pub fn push_all(dst: &mut Vec<char>, src: &Vec<char>)
    ensures
        final(dst)@ == old(dst)@ + src@,
{
    let mut k: usize = 0;
    while k < src.len()
        invariant
            k <= src@.len(),
            dst@ == old(dst)@ + src@.subrange(0, k as int),
        decreases src@.len() - k,
    {
        dst.push(src[k]);
        proof {
            assert(dst@ =~= old(dst)@ + src@.subrange(0, k + 1 as int));
        }
        k = k + 1;
    }
    proof {
        assert(dst@ =~= old(dst)@ + src@);
    }
}

/// The character sequence of an optional string.
pub open spec fn opt_str_view(o: Option<String>) -> Option<Seq<char>> {
    match o {
        Some(s) => Some(s@),
        None => None,
    }
}

/// The character for a single decimal digit.
pub open spec fn digit_char(d: nat) -> char {
    if d == 0 {
        '0'
    } else if d == 1 {
        '1'
    } else if d == 2 {
        '2'
    } else if d == 3 {
        '3'
    } else if d == 4 {
        '4'
    } else if d == 5 {
        '5'
    } else if d == 6 {
        '6'
    } else if d == 7 {
        '7'
    } else if d == 8 {
        '8'
    } else {
        '9'
    }
}

/// Decimal rendering of a natural number, most significant digit first.
pub open spec fn dec_digits(n: nat) -> Seq<char>
    decreases n,
{
    if n < 10 {
        seq![digit_char(n)]
    } else {
        dec_digits(n / 10).push(digit_char(n % 10))
    }
}

/// Decimal rendering of an integer, with a leading minus sign when negative.
pub open spec fn dec_int(n: int) -> Seq<char> {
    if n < 0 {
        seq!['-'] + dec_digits((-n) as nat)
    } else {
        dec_digits(n as nat)
    }
}

fn digit_char_exec(d: u64) -> (c: char)
    requires
        d < 10,
    ensures
        c == digit_char(d as nat),
{
    if d == 0 {
        '0'
    } else if d == 1 {
        '1'
    } else if d == 2 {
        '2'
    } else if d == 3 {
        '3'
    } else if d == 4 {
        '4'
    } else if d == 5 {
        '5'
    } else if d == 6 {
        '6'
    } else if d == 7 {
        '7'
    } else if d == 8 {
        '8'
    } else {
        '9'
    }
}

/// Renders `n` in decimal.
pub fn u64_to_dec(n: u64) -> (v: Vec<char>)
    ensures
        v@ == dec_digits(n as nat),
    decreases n,
{
    if n < 10 {
        let mut v: Vec<char> = Vec::new();
        v.push(digit_char_exec(n));
        proof {
            assert(v@ =~= dec_digits(n as nat));
        }
        v
    } else {
        let mut v = u64_to_dec(n / 10);
        v.push(digit_char_exec(n % 10));
        v
    }
}

/// Renders `n` in decimal, with a leading minus sign when negative.
pub fn i64_to_dec(n: i64) -> (v: Vec<char>)
    requires
        n > i64::MIN,
    ensures
        v@ == dec_int(n as int),
{
    if n < 0 {
        let mut v: Vec<char> = vec!['-'];
        let digits = u64_to_dec((-n) as u64);
        push_all(&mut v, &digits);
        proof {
            assert(v@ =~= dec_int(n as int));
        }
        v
    } else {
        u64_to_dec(n as u64)
    }
}

/// Relies on str::chars: the iterator yields exactly the string's characters
/// in order, so collecting them reproduces the string's character sequence.
#[verifier::external_body]
pub fn chars_of(s: &str) -> (v: Vec<char>)
    ensures
        v@ == s@,
{
    s.chars().collect()
}

/// Relies on String's FromIterator over char: collecting characters builds the
/// string holding exactly those characters in order.
#[verifier::external_body]
pub fn string_of(v: &Vec<char>) -> (s: String)
    ensures
        s@ == v@,
{
    v.iter().collect()
}

} // verus!
