//! Document codec for the two persisted stores. The script store is written
//! as one JSON array of script records; the dependency cache as one JSON
//! object mapping each URL to its record. The encoder emits one canonical
//! layout; the decoder reads exactly that layout and treats anything else as
//! a malformed document, which loads as the empty collection. Decoding what
//! the encoder wrote gives back the very same stores.
use vstd::prelude::*;
use vstd::seq_lib::lemma_concat_associative;
use crate::script::{DepV, Dependency, Script, ScriptV};
use crate::strutil::{chars_of, dec_digits, dec_int, digit_char, match_at, match_at_exec, opt_str_view, push_all, u64_to_dec};

verus! {

// --- string escaping ---

/// The character for one hexadecimal digit.
pub open spec fn hex_char(d: nat) -> char {
    if d == 0 {
        '0'
    } else if d == 1 {
        '1'
    } else if d == 2 {
        '2'
    } else if d == 3 {
        '3'
    } else if d == 4 {
        '4'
    } else if d == 5 {
        '5'
    } else if d == 6 {
        '6'
    } else if d == 7 {
        '7'
    } else if d == 8 {
        '8'
    } else if d == 9 {
        '9'
    } else if d == 10 {
        'a'
    } else if d == 11 {
        'b'
    } else if d == 12 {
        'c'
    } else if d == 13 {
        'd'
    } else if d == 14 {
        'e'
    } else {
        'f'
    }
}

/// How one character is written inside a JSON string: quote, backslash and
/// the common control characters get two-character escapes, other control
/// characters a `\u00..` escape, everything else stands as itself.
pub open spec fn esc_char(c: char) -> Seq<char> {
    if c == '"' {
        seq!['\\', '"']
    } else if c == '\\' {
        seq!['\\', '\\']
    } else if c == '\n' {
        seq!['\\', 'n']
    } else if c == '\r' {
        seq!['\\', 'r']
    } else if c == '\t' {
        seq!['\\', 't']
    } else if (c as u32) < 32 {
        seq!['\\', 'u', '0', '0', hex_char(((c as u32) / 16) as nat), hex_char(
            ((c as u32) % 16) as nat,
        )]
    } else {
        seq![c]
    }
}

pub open spec fn escape_str(s: Seq<char>) -> Seq<char>
    decreases s.len(),
{
    if s.len() == 0 {
        Seq::empty()
    } else {
        escape_str(s.drop_last()) + esc_char(s.last())
    }
}

pub proof fn lemma_escape_append(a: Seq<char>, b: Seq<char>)
    ensures
        escape_str(a + b) == escape_str(a) + escape_str(b),
    decreases b.len(),
{
    if b.len() == 0 {
        assert(a + b =~= a);
        assert(escape_str(a) + escape_str(b) =~= escape_str(a));
    } else {
        lemma_escape_append(a, b.drop_last());
        assert((a + b).drop_last() =~= a + b.drop_last());
        assert((a + b).last() == b.last());
        assert((escape_str(a) + escape_str(b.drop_last())) + esc_char(b.last()) =~= escape_str(a)
            + (escape_str(b.drop_last()) + esc_char(b.last())));
    }
}

/// Front decomposition of the escape.
pub proof fn lemma_escape_first(s: Seq<char>)
    requires
        s.len() > 0,
    ensures
        escape_str(s) == esc_char(s[0]) + escape_str(s.drop_first()),
{
    let a = s.take(1);
    let b = s.skip(1);
    assert(s =~= a + b);
    lemma_escape_append(a, b);
    assert(a.drop_last() =~= Seq::<char>::empty());
    assert(escape_str(a.drop_last()) == Seq::<char>::empty());
    assert(a.last() == s[0]);
    assert(Seq::<char>::empty() + esc_char(s[0]) =~= esc_char(s[0]));
    assert(escape_str(a) =~= esc_char(s[0]));
    assert(b =~= s.drop_first());
}

fn hex_char_exec(d: u32) -> (c: char)
    requires
        d < 16,
    ensures
        c == hex_char(d as nat),
{
    if d == 0 {
        '0'
    } else if d == 1 {
        '1'
    } else if d == 2 {
        '2'
    } else if d == 3 {
        '3'
    } else if d == 4 {
        '4'
    } else if d == 5 {
        '5'
    } else if d == 6 {
        '6'
    } else if d == 7 {
        '7'
    } else if d == 8 {
        '8'
    } else if d == 9 {
        '9'
    } else if d == 10 {
        'a'
    } else if d == 11 {
        'b'
    } else if d == 12 {
        'c'
    } else if d == 13 {
        'd'
    } else if d == 14 {
        'e'
    } else {
        'f'
    }
}

/// Appends the escaped form of `c`.
fn push_esc_char(out: &mut Vec<char>, c: char)
    ensures
        final(out)@ == old(out)@ + esc_char(c),
{
    if c == '"' {
        out.push('\\');
        out.push('"');
    } else if c == '\\' {
        out.push('\\');
        out.push('\\');
    } else if c == '\n' {
        out.push('\\');
        out.push('n');
    } else if c == '\r' {
        out.push('\\');
        out.push('r');
    } else if c == '\t' {
        out.push('\\');
        out.push('t');
    } else if (c as u32) < 32 {
        out.push('\\');
        out.push('u');
        out.push('0');
        out.push('0');
        out.push(hex_char_exec((c as u32) / 16));
        out.push(hex_char_exec((c as u32) % 16));
    } else {
        out.push(c);
    }
    proof {
        assert(out@ =~= old(out)@ + esc_char(c));
    }
}

/// A quoted JSON string.
pub open spec fn enc_string(s: Seq<char>) -> Seq<char> {
    seq!['"'] + escape_str(s) + seq!['"']
}

/// Appends the quoted, escaped form of `s`.
fn push_enc_string(out: &mut Vec<char>, s: &Vec<char>)
    ensures
        final(out)@ == old(out)@ + enc_string(s@),
{
    out.push('"');
    let ghost opened = out@;
    let mut k: usize = 0;
    while k < s.len()
        invariant
            k <= s@.len(),
            opened == old(out)@ + seq!['"'],
            out@ == opened + escape_str(s@.take(k as int)),
        decreases s@.len() - k,
    {
        proof {
            assert(s@.take(k + 1 as int).drop_last() =~= s@.take(k as int));
            assert(s@.take(k + 1 as int).last() == s@[k as int]);
        }
        push_esc_char(out, s[k]);
        proof {
            assert(out@ =~= opened + escape_str(s@.take(k + 1 as int)));
        }
        k = k + 1;
    }
    out.push('"');
    proof {
        assert(s@.take(s@.len() as int) =~= s@);
        assert(out@ =~= old(out)@ + enc_string(s@));
    }
}

// --- numbers ---

pub open spec fn is_digit_char(c: char) -> bool {
    c == '0' || c == '1' || c == '2' || c == '3' || c == '4' || c == '5' || c == '6' || c == '7'
        || c == '8' || c == '9'
}

pub open spec fn digit_val(c: char) -> nat {
    if c == '0' {
        0
    } else if c == '1' {
        1
    } else if c == '2' {
        2
    } else if c == '3' {
        3
    } else if c == '4' {
        4
    } else if c == '5' {
        5
    } else if c == '6' {
        6
    } else if c == '7' {
        7
    } else if c == '8' {
        8
    } else {
        9
    }
}

/// The value a digit run denotes.
pub open spec fn value_of(digits: Seq<char>) -> nat
    decreases digits.len(),
{
    if digits.len() == 0 {
        0
    } else {
        value_of(digits.drop_last()) * 10 + digit_val(digits.last())
    }
}

/// End of the digit run beginning at `i`.
pub open spec fn digit_run_end(t: Seq<char>, i: int) -> int
    decreases t.len() - i when 0 <= i <= t.len()
{
    if 0 <= i < t.len() && is_digit_char(t[i]) {
        digit_run_end(t, i + 1)
    } else {
        i
    }
}

pub proof fn lemma_digit_run_bounds(t: Seq<char>, i: int)
    requires
        0 <= i <= t.len(),
    ensures
        i <= digit_run_end(t, i) <= t.len(),
    decreases t.len() - i,
{
    if i < t.len() && is_digit_char(t[i]) {
        lemma_digit_run_bounds(t, i + 1);
    }
}

/// A digit run that stops at a non-digit (or the end) is scanned exactly.
pub proof fn lemma_digit_run_exact(t: Seq<char>, i: int, e: int)
    requires
        0 <= i <= e <= t.len(),
        forall|k: int| i <= k < e ==> is_digit_char(t[k]),
        e == t.len() || !is_digit_char(t[e]),
    ensures
        digit_run_end(t, i) == e,
    decreases e - i,
{
    if i < e {
        lemma_digit_run_exact(t, i + 1, e);
    }
}

/// The decimal rendering of `n` consists of digits and denotes `n`.
pub proof fn lemma_dec_digits_value(n: nat)
    ensures
        dec_digits(n).len() > 0,
        forall|k: int| 0 <= k < dec_digits(n).len() ==> is_digit_char(#[trigger] dec_digits(n)[k]),
        value_of(dec_digits(n)) == n,
    decreases n,
{
    if n < 10 {
        assert(dec_digits(n) =~= seq![digit_char(n)]);
        assert(dec_digits(n).drop_last() =~= Seq::<char>::empty());
        assert(value_of(Seq::<char>::empty()) == 0);
        assert(value_of(dec_digits(n)) == value_of(dec_digits(n).drop_last()) * 10 + digit_val(
            dec_digits(n).last(),
        ));
        assert(digit_val(digit_char(n)) == n);
    } else {
        lemma_dec_digits_value(n / 10);
        assert(dec_digits(n).drop_last() =~= dec_digits(n / 10));
        assert(dec_digits(n).last() == digit_char(n % 10));
        assert(digit_val(digit_char(n % 10)) == n % 10);
        assert(value_of(dec_digits(n)) == value_of(dec_digits(n / 10)) * 10 + (n % 10));
        assert forall|k: int| 0 <= k < dec_digits(n).len() implies is_digit_char(
            #[trigger] dec_digits(n)[k],
        ) by {
            if k < dec_digits(n).len() - 1 {
                assert(dec_digits(n)[k] == dec_digits(n / 10)[k]);
            }
        }
    }
}

/// A longer digit run never denotes a smaller value.
pub proof fn lemma_value_of_extend(a: Seq<char>, b: Seq<char>)
    ensures
        value_of(a + b) >= value_of(a),
    decreases b.len(),
{
    if b.len() == 0 {
        assert(a + b =~= a);
    } else {
        lemma_value_of_extend(a, b.drop_last());
        assert((a + b).drop_last() =~= a + b.drop_last());
        assert(value_of(a + b) == value_of(a + b.drop_last()) * 10 + digit_val((a + b).last()));
        assert(value_of(a + b.drop_last()) * 10 >= value_of(a + b.drop_last()));
    }
}

/// Parse of an unsigned number: the digit run at `i`, when there is one and
/// its value fits.
pub open spec fn dec_u64_spec(t: Seq<char>, i: int) -> Option<(u64, int)> {
    let e = digit_run_end(t, i);
    if e <= i {
        None
    } else if value_of(t.subrange(i, e)) > u64::MAX {
        None
    } else {
        Some((value_of(t.subrange(i, e)) as u64, e))
    }
}

/// Reads the digit run at `i`.
fn dec_u64_exec(t: &Vec<char>, i: usize) -> (r: Option<(u64, usize)>)
    requires
        i <= t@.len(),
    ensures
        match r {
            Some((v, j)) => dec_u64_spec(t@, i as int) == Some((v, j as int)) && i < j <= t@.len(),
            None => dec_u64_spec(t@, i as int) is None,
        },
{
    let e = digit_run_end_exec(t, i);
    proof {
        lemma_digit_run_bounds(t@, i as int);
    }
    if e == i {
        return None;
    }
    let ghost run = t@.subrange(i as int, e as int);
    let mut acc: u64 = 0;
    let mut k: usize = i;
    proof {
        assert(t@.subrange(i as int, i as int) =~= Seq::<char>::empty());
    }
    while k < e
        invariant
            i <= k <= e <= t@.len(),
            i < e,
            e as int == digit_run_end(t@, i as int),
            run == t@.subrange(i as int, e as int),
            forall|q: int| i <= q < e ==> is_digit_char(t@[q]),
            acc as nat == value_of(t@.subrange(i as int, k as int)),
        decreases e - k,
    {
        proof {
            assert(t@.subrange(i as int, k + 1 as int).drop_last() =~= t@.subrange(
                i as int,
                k as int,
            ));
            assert(t@.subrange(i as int, k + 1 as int).last() == t@[k as int]);
        }
        let d = digit_value(t[k]);
        let step = match acc.checked_mul(10) {
            Some(x) => x.checked_add(d as u64),
            None => None,
        };
        match step {
            Some(x) => {
                acc = x;
            },
            None => {
                proof {
                    assert(value_of(t@.subrange(i as int, k + 1 as int)) > u64::MAX);
                    assert(run =~= t@.subrange(i as int, k + 1 as int) + t@.subrange(
                        k + 1 as int,
                        e as int,
                    ));
                    lemma_value_of_extend(
                        t@.subrange(i as int, k + 1 as int),
                        t@.subrange(k + 1 as int, e as int),
                    );
                }
                return None;
            },
        }
        k = k + 1;
    }
    proof {
        assert(t@.subrange(i as int, e as int) =~= run);
        assert(acc as nat == value_of(run));
        assert(dec_u64_spec(t@, i as int) == Some((acc, e as int)));
    }
    Some((acc, e))
}

fn digit_run_end_exec(t: &Vec<char>, i: usize) -> (e: usize)
    requires
        i <= t@.len(),
    ensures
        e as int == digit_run_end(t@, i as int),
        i <= e <= t@.len(),
        forall|k: int| i <= k < e ==> is_digit_char(t@[k]),
{
    let mut j: usize = i;
    loop
        invariant
            i <= j <= t@.len(),
            digit_run_end(t@, i as int) == digit_run_end(t@, j as int),
            forall|k: int| i <= k < j ==> is_digit_char(t@[k]),
        decreases t@.len() - j,
    {
        if j < t.len() && is_digit(t[j]) {
            j = j + 1;
        } else {
            return j;
        }
    }
}

fn is_digit(c: char) -> (r: bool)
    ensures
        r == is_digit_char(c),
{
    c == '0' || c == '1' || c == '2' || c == '3' || c == '4' || c == '5' || c == '6' || c == '7'
        || c == '8' || c == '9'
}

fn digit_value(c: char) -> (d: u8)
    requires
        is_digit_char(c),
    ensures
        d as nat == digit_val(c),
        d < 10,
{
    if c == '0' {
        0
    } else if c == '1' {
        1
    } else if c == '2' {
        2
    } else if c == '3' {
        3
    } else if c == '4' {
        4
    } else if c == '5' {
        5
    } else if c == '6' {
        6
    } else if c == '7' {
        7
    } else if c == '8' {
        8
    } else {
        9
    }
}

/// Parsing the rendering of `n`, followed by anything that does not start
/// with a digit, gives back `n`.
pub proof fn lemma_u64_roundtrip(pre: Seq<char>, n: u64, rest: Seq<char>)
    requires
        rest.len() == 0 || !is_digit_char(rest[0]),
    ensures
        dec_u64_spec(pre + dec_digits(n as nat) + rest, pre.len() as int) == Some(
            (n, (pre.len() + dec_digits(n as nat).len()) as int),
        ),
{
    let t = pre + dec_digits(n as nat) + rest;
    let i = pre.len() as int;
    let e = i + dec_digits(n as nat).len();
    lemma_dec_digits_value(n as nat);
    assert forall|k: int| i <= k < e implies is_digit_char(t[k]) by {
        assert(t[k] == dec_digits(n as nat)[k - i]);
    }
    if e < t.len() {
        assert(t[e] == rest[0]);
    }
    lemma_digit_run_exact(t, i, e);
    assert(t.subrange(i, e) =~= dec_digits(n as nat));
}

// --- string decoding ---

pub open spec fn unesc2(c: char) -> char {
    if c == '"' {
        '"'
    } else if c == '\\' {
        '\\'
    } else if c == 'n' {
        '\n'
    } else if c == 'r' {
        '\r'
    } else {
        '\t'
    }
}

pub open spec fn is_hex_char(c: char) -> bool {
    is_digit_char(c) || c == 'a' || c == 'b' || c == 'c' || c == 'd' || c == 'e' || c == 'f'
}

pub open spec fn hex_val(c: char) -> nat {
    if is_digit_char(c) {
        digit_val(c)
    } else if c == 'a' {
        10
    } else if c == 'b' {
        11
    } else if c == 'c' {
        12
    } else if c == 'd' {
        13
    } else if c == 'e' {
        14
    } else {
        15
    }
}

/// Reads escaped string content from `i` up to the closing quote; the
/// decoded characters and the index past the quote.
pub open spec fn dec_str_body(t: Seq<char>, i: int) -> Option<(Seq<char>, int)>
    decreases t.len() - i when 0 <= i
{
    if i >= t.len() {
        None
    } else if t[i] == '"' {
        Some((Seq::empty(), i + 1))
    } else if t[i] == '\\' {
        if i + 1 >= t.len() {
            None
        } else {
            let c = t[i + 1];
            if c == '"' || c == '\\' || c == 'n' || c == 'r' || c == 't' {
                match dec_str_body(t, i + 2) {
                    None => None,
                    Some((s, j)) => Some((seq![unesc2(c)] + s, j)),
                }
            } else if c == 'u' {
                if i + 6 > t.len() {
                    None
                } else if t[i + 2] == '0' && t[i + 3] == '0' && is_hex_char(t[i + 4]) && is_hex_char(
                    t[i + 5],
                ) && hex_val(t[i + 4]) * 16 + hex_val(t[i + 5]) < 32 {
                    match dec_str_body(t, i + 6) {
                        None => None,
                        Some(
                            (s, j),
                        ) => Some(
                            (
                                seq![
                                    ((((hex_val(t[i + 4]) * 16 + hex_val(t[i + 5])) as u32) as u8) as char)
                                ] + s,
                                j,
                            ),
                        ),
                    }
                } else {
                    None
                }
            } else {
                None
            }
        }
    } else {
        match dec_str_body(t, i + 1) {
            None => None,
            Some((s, j)) => Some((seq![t[i]] + s, j)),
        }
    }
}

pub proof fn lemma_dec_str_body_bounds(t: Seq<char>, i: int)
    requires
        0 <= i,
    ensures
        dec_str_body(t, i) matches Some(p) ==> i < p.1 <= t.len(),
    decreases t.len() - i,
{
    if i >= t.len() {
    } else if t[i] == '"' {
    } else if t[i] == '\\' {
        if i + 1 < t.len() {
            lemma_dec_str_body_bounds(t, i + 2);
            if i + 6 <= t.len() {
                lemma_dec_str_body_bounds(t, i + 6);
            }
        }
    } else {
        lemma_dec_str_body_bounds(t, i + 1);
    }
}

/// A quoted string at `i`: the decoded content and the index past the
/// closing quote.
pub open spec fn dec_string_spec(t: Seq<char>, i: int) -> Option<(Seq<char>, int)> {
    if 0 <= i < t.len() && t[i] == '"' {
        dec_str_body(t, i + 1)
    } else {
        None
    }
}

proof fn lemma_hex_char_val(d: nat)
    requires
        d < 16,
    ensures
        is_hex_char(hex_char(d)),
        hex_val(hex_char(d)) == d,
{
}

proof fn lemma_control_char_cast(c: char, v: nat)
    requires
        v == c as u32,
        v < 32,
    ensures
        (((v as u32) as u8) as char) == c,
{
    broadcast use vstd::utf8::char_u32_cast;

    assert((v as u32) as u8 == c as u32);
    assert((((v as u32) as u8) as char) == ((c as u32) as char));
}

/// Reading the escaped form of `s` followed by a closing quote gives back
/// exactly `s`.
pub proof fn lemma_str_body_roundtrip(t: Seq<char>, i: int, s: Seq<char>, j: int)
    requires
        0 <= i,
        j == i + escape_str(s).len(),
        j < t.len(),
        t.subrange(i, j) == escape_str(s),
        t[j] == '"',
    ensures
        dec_str_body(t, i) == Some((s, j + 1)),
    decreases s.len(),
{
    if s.len() == 0 {
        assert(escape_str(s).len() == 0);
        assert(t[i] == '"');
    } else {
        lemma_escape_first(s);
        let c = s[0];
        let ec = esc_char(c);
        let tail = s.drop_first();
        let mid = i + ec.len();
        assert(escape_str(s).len() == ec.len() + escape_str(tail).len()) by {
            assert(escape_str(s) == ec + escape_str(tail));
        }
        assert forall|k: int| 0 <= k < ec.len() implies t[i + k] == ec[k] by {
            assert(t.subrange(i, j)[k] == (ec + escape_str(tail))[k]);
        }
        assert(t[i + 0] == ec[0]);
        if ec.len() >= 2 {
            assert(t[i + 1] == ec[1]);
        }
        if ec.len() >= 6 {
            assert(t[i + 2] == ec[2]);
            assert(t[i + 3] == ec[3]);
            assert(t[i + 4] == ec[4]);
            assert(t[i + 5] == ec[5]);
        }
        assert(t.subrange(mid, j) =~= escape_str(tail)) by {
            assert forall|k: int| 0 <= k < escape_str(tail).len() implies t.subrange(mid, j)[k]
                == escape_str(tail)[k] by {
                assert(t.subrange(i, j)[ec.len() + k] == (ec + escape_str(tail))[ec.len() + k]);
            }
        }
        lemma_str_body_roundtrip(t, mid, tail, j);
        if c == '"' {
            assert(t[i] == '\\' && t[i + 1] == '"');
            assert(seq![unesc2('"')] + tail =~= s);
        } else if c == '\\' {
            assert(t[i] == '\\' && t[i + 1] == '\\');
            assert(seq![unesc2('\\')] + tail =~= s);
        } else if c == '\n' {
            assert(t[i] == '\\' && t[i + 1] == 'n');
            assert(seq![unesc2('n')] + tail =~= s);
        } else if c == '\r' {
            assert(t[i] == '\\' && t[i + 1] == 'r');
            assert(seq![unesc2('r')] + tail =~= s);
        } else if c == '\t' {
            assert(t[i] == '\\' && t[i + 1] == 't');
            assert(seq![unesc2('t')] + tail =~= s);
        } else if (c as u32) < 32 {
            assert(t[i] == '\\' && t[i + 1] == 'u' && t[i + 2] == '0' && t[i + 3] == '0');
            let hi = ((c as u32) / 16) as nat;
            let lo = ((c as u32) % 16) as nat;
            assert(t[i + 4] == hex_char(hi) && t[i + 5] == hex_char(lo));
            lemma_hex_char_val(hi);
            lemma_hex_char_val(lo);
            assert(hex_val(t[i + 4]) * 16 + hex_val(t[i + 5]) == c as u32);
            lemma_control_char_cast(c, hex_val(t[i + 4]) * 16 + hex_val(t[i + 5]));
            assert(seq![
                ((((hex_val(t[i + 4]) * 16 + hex_val(t[i + 5])) as u32) as u8) as char)
            ] + tail =~= s);
        } else {
            assert(t[i] == c);
            assert(t[i] != '"' && t[i] != '\\');
            assert(seq![t[i]] + tail =~= s);
        }
    }
}

/// Reading an encoded string gives back exactly the string.
pub proof fn lemma_string_roundtrip(pre: Seq<char>, s: Seq<char>, rest: Seq<char>)
    ensures
        dec_string_spec(pre + enc_string(s) + rest, pre.len() as int) == Some(
            (s, (pre.len() + enc_string(s).len()) as int),
        ),
{
    let t = pre + enc_string(s) + rest;
    let i = pre.len() as int;
    assert(t[i] == '"') by {
        assert(t[i] == enc_string(s)[0]);
        assert(enc_string(s)[0] == '"');
    }
    let j = i + 1 + escape_str(s).len();
    assert(t[j] == '"') by {
        assert(t[j] == enc_string(s)[(1 + escape_str(s).len()) as int]);
    }
    assert(t.subrange(i + 1, j) =~= escape_str(s)) by {
        assert forall|k: int| 0 <= k < escape_str(s).len() implies t.subrange(i + 1, j)[k]
            == escape_str(s)[k] by {
            assert(t[i + 1 + k] == enc_string(s)[1 + k]);
            assert(enc_string(s)[1 + k] == escape_str(s)[k]);
        }
    }
    lemma_str_body_roundtrip(t, i + 1, s, j);
}

// --- atoms: fixed words, booleans, options, signed numbers ---

pub open spec fn null_text() -> Seq<char> {
    seq!['n', 'u', 'l', 'l']
}

pub open spec fn true_text() -> Seq<char> {
    seq!['t', 'r', 'u', 'e']
}

pub open spec fn false_text() -> Seq<char> {
    seq!['f', 'a', 'l', 's', 'e']
}

/// Position after `lit`, when `lit` stands at `i`.
pub open spec fn expect_spec(t: Seq<char>, i: int, lit: Seq<char>) -> Option<int> {
    if match_at(t, lit, i) {
        Some(i + lit.len())
    } else {
        None
    }
}

/// A literal placed by the encoder is always found.
pub proof fn lemma_expect_roundtrip(pre: Seq<char>, lit: Seq<char>, rest: Seq<char>)
    ensures
        expect_spec(pre + lit + rest, pre.len() as int, lit) == Some((pre.len() + lit.len()) as int),
{
    let t = pre + lit + rest;
    assert forall|k: int| 0 <= k < lit.len() implies t[pre.len() + k] == lit[k] by {
        assert((pre + lit)[pre.len() + k] == lit[k]);
    }
}

pub open spec fn enc_bool(b: bool) -> Seq<char> {
    if b {
        true_text()
    } else {
        false_text()
    }
}

pub open spec fn dec_bool_spec(t: Seq<char>, i: int) -> Option<(bool, int)> {
    if match_at(t, true_text(), i) {
        Some((true, i + true_text().len()))
    } else if match_at(t, false_text(), i) {
        Some((false, i + false_text().len()))
    } else {
        None
    }
}

pub proof fn lemma_bool_roundtrip(pre: Seq<char>, b: bool, rest: Seq<char>)
    ensures
        dec_bool_spec(pre + enc_bool(b) + rest, pre.len() as int) == Some(
            (b, (pre.len() + enc_bool(b).len()) as int),
        ),
{
    let t = pre + enc_bool(b) + rest;
    assert forall|k: int| 0 <= k < enc_bool(b).len() implies t[pre.len() + k] == enc_bool(b)[k] by {
        assert((pre + enc_bool(b))[pre.len() + k] == enc_bool(b)[k]);
    }
    if b {
        assert(match_at(t, true_text(), pre.len() as int));
    } else {
        assert(!match_at(t, true_text(), pre.len() as int)) by {
            if match_at(t, true_text(), pre.len() as int) {
                assert(t[pre.len() as int] == 't');
                assert(t[pre.len() as int] == 'f');
            }
        }
        assert(match_at(t, false_text(), pre.len() as int));
    }
}

pub open spec fn enc_opt_string(o: Option<Seq<char>>) -> Seq<char> {
    match o {
        None => null_text(),
        Some(s) => enc_string(s),
    }
}

pub open spec fn dec_opt_string_spec(t: Seq<char>, i: int) -> Option<(Option<Seq<char>>, int)> {
    if 0 <= i < t.len() && t[i] == '"' {
        match dec_string_spec(t, i) {
            None => None,
            Some((s, j)) => Some((Some(s), j)),
        }
    } else if match_at(t, null_text(), i) {
        Some((None, i + null_text().len()))
    } else {
        None
    }
}

pub proof fn lemma_opt_string_roundtrip(pre: Seq<char>, o: Option<Seq<char>>, rest: Seq<char>)
    ensures
        dec_opt_string_spec(pre + enc_opt_string(o) + rest, pre.len() as int) == Some(
            (o, (pre.len() + enc_opt_string(o).len()) as int),
        ),
{
    let t = pre + enc_opt_string(o) + rest;
    let i = pre.len() as int;
    match o {
        None => {
            assert forall|k: int| 0 <= k < null_text().len() implies t[i + k] == null_text()[k] by {
                assert((pre + null_text())[i + k] == null_text()[k]);
            }
            assert(t[i] == 'n');
            assert(match_at(t, null_text(), i));
        },
        Some(s) => {
            lemma_string_roundtrip(pre, s, rest);
            assert(t[i] == '"') by {
                assert(t[i] == enc_string(s)[0]);
            }
        },
    }
}

pub open spec fn enc_opt_u64(o: Option<u64>) -> Seq<char> {
    match o {
        None => null_text(),
        Some(n) => dec_digits(n as nat),
    }
}

pub open spec fn dec_opt_u64_spec(t: Seq<char>, i: int) -> Option<(Option<u64>, int)> {
    if 0 <= i < t.len() && is_digit_char(t[i]) {
        match dec_u64_spec(t, i) {
            None => None,
            Some((n, j)) => Some((Some(n), j)),
        }
    } else if match_at(t, null_text(), i) {
        Some((None, i + null_text().len()))
    } else {
        None
    }
}

pub proof fn lemma_opt_u64_roundtrip(pre: Seq<char>, o: Option<u64>, rest: Seq<char>)
    requires
        rest.len() == 0 || !is_digit_char(rest[0]),
    ensures
        dec_opt_u64_spec(pre + enc_opt_u64(o) + rest, pre.len() as int) == Some(
            (o, (pre.len() + enc_opt_u64(o).len()) as int),
        ),
{
    let t = pre + enc_opt_u64(o) + rest;
    let i = pre.len() as int;
    match o {
        None => {
            assert forall|k: int| 0 <= k < null_text().len() implies t[i + k] == null_text()[k] by {
                assert((pre + null_text())[i + k] == null_text()[k]);
            }
            assert(t[i] == 'n');
            assert(!is_digit_char('n'));
            assert(match_at(t, null_text(), i));
        },
        Some(n) => {
            lemma_u64_roundtrip(pre, n, rest);
            lemma_dec_digits_value(n as nat);
            assert(t[i] == dec_digits(n as nat)[0]) by {
                assert((pre + dec_digits(n as nat))[i] == dec_digits(n as nat)[0]);
            }
            assert(is_digit_char(t[i]));
        },
    }
}

/// Encoding of a signed 32-bit order value.
pub open spec fn enc_i32(n: int) -> Seq<char> {
    dec_int(n)
}

pub open spec fn dec_i32_spec(t: Seq<char>, i: int) -> Option<(int, int)> {
    if 0 <= i < t.len() && t[i] == '-' {
        match dec_u64_spec(t, i + 1) {
            None => None,
            Some((n, j)) => if n <= 0x8000_0000u64 {
                Some((-(n as int), j))
            } else {
                None
            },
        }
    } else {
        match dec_u64_spec(t, i) {
            None => None,
            Some((n, j)) => if n <= 0x7fff_ffffu64 {
                Some((n as int, j))
            } else {
                None
            },
        }
    }
}

pub proof fn lemma_i32_roundtrip(pre: Seq<char>, n: i32, rest: Seq<char>)
    requires
        rest.len() == 0 || !is_digit_char(rest[0]),
    ensures
        dec_i32_spec(pre + enc_i32(n as int) + rest, pre.len() as int) == Some(
            (n as int, (pre.len() + enc_i32(n as int).len()) as int),
        ),
{
    let t = pre + enc_i32(n as int) + rest;
    let i = pre.len() as int;
    if n < 0 {
        let m = (-(n as int)) as u64;
        assert(enc_i32(n as int) =~= seq!['-'] + dec_digits(m as nat));
        assert(t[i] == '-') by {
            assert((pre + enc_i32(n as int))[i] == enc_i32(n as int)[0]);
            assert(enc_i32(n as int)[0] == (seq!['-'] + dec_digits(m as nat))[0]);
        }
        assert(pre + enc_i32(n as int) + rest =~= (pre + seq!['-']) + dec_digits(m as nat) + rest);
        lemma_u64_roundtrip(pre + seq!['-'], m, rest);
        assert(m <= 0x8000_0000u64);
    } else {
        assert(enc_i32(n as int) == dec_digits(n as nat));
        lemma_dec_digits_value(n as nat);
        assert(t[i] == dec_digits(n as nat)[0]) by {
            assert((pre + dec_digits(n as nat))[i] == dec_digits(n as nat)[0]);
        }
        assert(is_digit_char(t[i]));
        assert(t[i] != '-');
        lemma_u64_roundtrip(pre, n as u64, rest);
        assert((n as u64) <= 0x7fff_ffffu64);
    }
}

// --- arrays of strings ---

pub open spec fn enc_str_items(xs: Seq<Seq<char>>, from: int) -> Seq<char>
    decreases xs.len() - from when 0 <= from <= xs.len()
{
    if from >= xs.len() {
        Seq::empty()
    } else if from == xs.len() - 1 {
        enc_string(xs[from])
    } else {
        enc_string(xs[from]) + seq![','] + enc_str_items(xs, from + 1)
    }
}

pub open spec fn enc_str_array(xs: Seq<Seq<char>>) -> Seq<char> {
    seq!['['] + enc_str_items(xs, 0) + seq![']']
}

/// Items of a string array after the opening bracket; the decoded strings
/// and the index past the closing bracket.
pub open spec fn dec_str_items(t: Seq<char>, i: int) -> Option<(Seq<Seq<char>>, int)>
    decreases t.len() - i,
    when 0 <= i
    via dec_str_items_dec
{
    match dec_string_spec(t, i) {
        None => None,
        Some((s, j)) => {
            if j < t.len() && t[j] == ',' {
                match dec_str_items(t, j + 1) {
                    None => None,
                    Some((restv, k)) => Some((seq![s] + restv, k)),
                }
            } else if j < t.len() && t[j] == ']' {
                Some((seq![s], j + 1))
            } else {
                None
            }
        },
    }
}

#[via_fn]
proof fn dec_str_items_dec(t: Seq<char>, i: int) {
    lemma_dec_str_body_bounds(t, i + 1);
}

pub open spec fn dec_str_array_spec(t: Seq<char>, i: int) -> Option<(Seq<Seq<char>>, int)> {
    if 0 <= i < t.len() && t[i] == '[' {
        if i + 1 < t.len() && t[i + 1] == ']' {
            Some((Seq::empty(), i + 2))
        } else {
            dec_str_items(t, i + 1)
        }
    } else {
        None
    }
}

proof fn lemma_str_items_roundtrip(pre: Seq<char>, xs: Seq<Seq<char>>, from: int, rest: Seq<char>)
    requires
        0 <= from < xs.len(),
        rest.len() > 0,
    ensures
        dec_str_items(pre + enc_str_items(xs, from) + (seq![']'] + rest), pre.len() as int) == Some(
            (xs.skip(from), (pre.len() + enc_str_items(xs, from).len() + 1) as int),
        ),
    decreases xs.len() - from,
{
    let t = pre + enc_str_items(xs, from) + (seq![']'] + rest);
    let i = pre.len() as int;
    if from == xs.len() - 1 {
        assert(t =~= pre + enc_string(xs[from]) + (seq![']'] + rest));
        lemma_string_roundtrip(pre, xs[from], seq![']'] + rest);
        let j = i + enc_string(xs[from]).len();
        assert(t[j] == ']') by {
            assert(t[j] == (seq![']'] + rest)[0]);
        }
        assert(xs.skip(from) =~= seq![xs[from]]);
    } else {
        let pre2 = pre + enc_string(xs[from]) + seq![','];
        assert(t =~= pre2 + enc_str_items(xs, from + 1) + (seq![']'] + rest));
        lemma_str_items_roundtrip(pre2, xs, from + 1, rest);
        assert(t =~= pre + enc_string(xs[from]) + (seq![','] + (enc_str_items(xs, from + 1) + (
        seq![']'] + rest))));
        lemma_string_roundtrip(
            pre,
            xs[from],
            seq![','] + (enc_str_items(xs, from + 1) + (seq![']'] + rest)),
        );
        let j = i + enc_string(xs[from]).len();
        assert(t[j] == ',') by {
            assert(t[j] == (seq![','] + (enc_str_items(xs, from + 1) + (seq![']'] + rest)))[0]);
        }
        assert(pre2.len() == j + 1);
        assert(seq![xs[from]] + xs.skip(from + 1) =~= xs.skip(from));
    }
}

/// Reading an encoded string array gives back exactly the strings.
pub proof fn lemma_str_array_roundtrip(pre: Seq<char>, xs: Seq<Seq<char>>, rest: Seq<char>)
    requires
        rest.len() > 0,
    ensures
        dec_str_array_spec(pre + enc_str_array(xs) + rest, pre.len() as int) == Some(
            (xs, (pre.len() + enc_str_array(xs).len()) as int),
        ),
{
    let t = pre + enc_str_array(xs) + rest;
    let i = pre.len() as int;
    assert(t[i] == '[') by {
        assert((pre + enc_str_array(xs))[i] == enc_str_array(xs)[0]);
    }
    if xs.len() == 0 {
        assert(enc_str_array(xs) =~= seq!['[', ']']);
        assert(t[i + 1] == ']') by {
            assert((pre + enc_str_array(xs))[i + 1] == enc_str_array(xs)[1]);
        }
        assert(xs =~= Seq::<Seq<char>>::empty());
    } else {
        let pre2 = pre + seq!['['];
        assert(t =~= pre2 + enc_str_items(xs, 0) + (seq![']'] + rest));
        lemma_str_items_roundtrip(pre2, xs, 0, rest);
        assert(xs.skip(0) =~= xs);
        assert(t[i + 1] != ']' || !(i + 1 < t.len())) by {
            if i + 1 < t.len() && t[i + 1] == ']' {
                // the first item starts with a quote, never a bracket
                assert(t[i + 1] == enc_str_items(xs, 0)[0]) by {
                    assert((pre2 + enc_str_items(xs, 0))[pre2.len() as int] == enc_str_items(
                        xs,
                        0,
                    )[0]);
                }
                assert(enc_str_items(xs, 0)[0] == enc_string(xs[0])[0]);
                assert(enc_string(xs[0])[0] == '"');
            }
        }
    }
}


// --- cursor bounds of the decoders, for termination of item lists ---

pub proof fn lemma_expect_bounds(t: Seq<char>, i: int, lit: Seq<char>)
    ensures
        expect_spec(t, i, lit) matches Some(j) ==> 0 <= i <= j <= t.len(),
{
}

pub proof fn lemma_dec_string_bounds(t: Seq<char>, i: int)
    requires
        0 <= i,
    ensures
        dec_string_spec(t, i) matches Some(p) ==> i < p.1 <= t.len(),
{
    if 0 <= i && i < t.len() && t[i] == '"' {
        lemma_dec_str_body_bounds(t, i + 1);
    }
}

pub proof fn lemma_dec_bool_bounds(t: Seq<char>, i: int)
    ensures
        dec_bool_spec(t, i) matches Some(p) ==> 0 <= i < p.1 <= t.len(),
{
}

pub proof fn lemma_dec_u64_bounds(t: Seq<char>, i: int)
    requires
        0 <= i <= t.len(),
    ensures
        dec_u64_spec(t, i) matches Some(p) ==> i < p.1 <= t.len(),
{
    lemma_digit_run_bounds(t, i);
}

pub proof fn lemma_dec_i32_bounds(t: Seq<char>, i: int)
    requires
        0 <= i <= t.len(),
    ensures
        dec_i32_spec(t, i) matches Some(p) ==> i < p.1 <= t.len(),
{
    if 0 <= i < t.len() && t[i] == '-' {
        lemma_dec_u64_bounds(t, i + 1);
    } else {
        lemma_dec_u64_bounds(t, i);
    }
}

pub proof fn lemma_dec_opt_string_bounds(t: Seq<char>, i: int)
    requires
        0 <= i,
    ensures
        dec_opt_string_spec(t, i) matches Some(p) ==> i < p.1 <= t.len(),
{
    lemma_dec_string_bounds(t, i);
}

pub proof fn lemma_dec_opt_u64_bounds(t: Seq<char>, i: int)
    requires
        0 <= i <= t.len(),
    ensures
        dec_opt_u64_spec(t, i) matches Some(p) ==> i < p.1 <= t.len(),
{
    lemma_dec_u64_bounds(t, i);
}

pub proof fn lemma_dec_str_items_bounds(t: Seq<char>, i: int)
    requires
        0 <= i,
    ensures
        dec_str_items(t, i) matches Some(p) ==> i < p.1 <= t.len(),
    decreases t.len() - i,
{
    lemma_dec_string_bounds(t, i);
    match dec_string_spec(t, i) {
        None => {},
        Some((s, j)) => {
            if j < t.len() && t[j] == ',' {
                lemma_dec_str_items_bounds(t, j + 1);
            }
        },
    }
}

pub proof fn lemma_dec_str_array_bounds(t: Seq<char>, i: int)
    requires
        0 <= i,
    ensures
        dec_str_array_spec(t, i) matches Some(p) ==> i < p.1 <= t.len(),
{
    lemma_dec_str_items_bounds(t, i + 1);
}

// --- one script record ---

pub const K_ID: &'static str = "{\"id\":";

pub open spec fn k_id() -> Seq<char> {
    K_ID@
}

pub const K_NAME: &'static str = ",\"name\":";

pub open spec fn k_name() -> Seq<char> {
    K_NAME@
}

pub const K_CODE: &'static str = ",\"code\":";

pub open spec fn k_code() -> Seq<char> {
    K_CODE@
}

pub const K_ENABLED: &'static str = ",\"enabled\":";

pub open spec fn k_enabled() -> Seq<char> {
    K_ENABLED@
}

pub const K_ORDER: &'static str = ",\"order\":";

pub open spec fn k_order() -> Seq<char> {
    K_ORDER@
}

pub const K_URL: &'static str = ",\"url\":";

pub open spec fn k_url() -> Seq<char> {
    K_URL@
}

pub const K_VERSION: &'static str = ",\"version\":";

pub open spec fn k_version() -> Seq<char> {
    K_VERSION@
}

pub const K_DESCRIPTION: &'static str = ",\"description\":";

pub open spec fn k_description() -> Seq<char> {
    K_DESCRIPTION@
}

pub const K_AUTHOR: &'static str = ",\"author\":";

pub open spec fn k_author() -> Seq<char> {
    K_AUTHOR@
}

pub const K_REQUIRES: &'static str = ",\"requires\":";

pub open spec fn k_requires() -> Seq<char> {
    K_REQUIRES@
}

pub const K_LAST_UPDATED: &'static str = ",\"last_updated\":";

pub open spec fn k_last_updated() -> Seq<char> {
    K_LAST_UPDATED@
}

pub const K_LAST_FETCH_ERROR: &'static str = ",\"last_fetch_error\":";

pub open spec fn k_last_fetch_error() -> Seq<char> {
    K_LAST_FETCH_ERROR@
}

/// The first six fields of a script record, as the decoder returns them.
pub ghost struct ScriptHeadV {
    pub id: Seq<char>,
    pub name: Seq<char>,
    pub code: Seq<char>,
    pub enabled: bool,
    pub order: int,
    pub url: Option<Seq<char>>,
}

/// The last six fields of a script record, as the decoder returns them.
pub ghost struct ScriptTailV {
    pub version: Option<Seq<char>>,
    pub description: Option<Seq<char>>,
    pub author: Option<Seq<char>>,
    pub requires: Seq<Seq<char>>,
    pub last_updated: Option<u64>,
    pub last_fetch_error: Option<Seq<char>>,
}

/// The opening fields of one encoded script record.
#[verifier::opaque]
pub open spec fn enc_script_head(s: ScriptV) -> Seq<char> {
    k_id() + enc_string(s.id) + k_name() + enc_string(s.name) + k_code() + enc_string(s.code) + k_enabled() + enc_bool(s.enabled) + k_order() + enc_i32(s.order) + k_url() + enc_opt_string(s.url)
}

/// The closing fields of one encoded script record.
#[verifier::opaque]
pub open spec fn enc_script_tail(s: ScriptV) -> Seq<char> {
    k_version() + enc_opt_string(s.version) + k_description() + enc_opt_string(s.description) + k_author() + enc_opt_string(s.author) + k_requires() + enc_str_array(s.requires) + k_last_updated() + enc_opt_u64(s.last_updated) + k_last_fetch_error() + enc_opt_string(s.last_fetch_error) + seq!['}']
}

/// One script record, fields in a fixed order.
#[verifier::opaque]
pub open spec fn enc_script(s: ScriptV) -> Seq<char> {
    enc_script_head(s) + enc_script_tail(s)
}

#[verifier::opaque]
pub open spec fn dec_script_head(t: Seq<char>, i: int) -> Option<(ScriptHeadV, int)> {
    match expect_spec(t, i, k_id()) { None => None, Some(i1) =>
    match dec_string_spec(t, i1) { None => None, Some((v_id, i2)) =>
    match expect_spec(t, i2, k_name()) { None => None, Some(i3) =>
    match dec_string_spec(t, i3) { None => None, Some((v_name, i4)) =>
    match expect_spec(t, i4, k_code()) { None => None, Some(i5) =>
    match dec_string_spec(t, i5) { None => None, Some((v_code, i6)) =>
    match expect_spec(t, i6, k_enabled()) { None => None, Some(i7) =>
    match dec_bool_spec(t, i7) { None => None, Some((v_enabled, i8)) =>
    match expect_spec(t, i8, k_order()) { None => None, Some(i9) =>
    match dec_i32_spec(t, i9) { None => None, Some((v_order, i10)) =>
    match expect_spec(t, i10, k_url()) { None => None, Some(i11) =>
    match dec_opt_string_spec(t, i11) { None => None, Some((v_url, i12)) =>
    Some((ScriptHeadV { id: v_id, name: v_name, code: v_code, enabled: v_enabled, order: v_order, url: v_url }, i12))
    }}}}}}}}}}}}
}

#[verifier::opaque]
pub open spec fn dec_script_tail(t: Seq<char>, i: int) -> Option<(ScriptTailV, int)> {
    match expect_spec(t, i, k_version()) { None => None, Some(i1) =>
    match dec_opt_string_spec(t, i1) { None => None, Some((v_version, i2)) =>
    match expect_spec(t, i2, k_description()) { None => None, Some(i3) =>
    match dec_opt_string_spec(t, i3) { None => None, Some((v_description, i4)) =>
    match expect_spec(t, i4, k_author()) { None => None, Some(i5) =>
    match dec_opt_string_spec(t, i5) { None => None, Some((v_author, i6)) =>
    match expect_spec(t, i6, k_requires()) { None => None, Some(i7) =>
    match dec_str_array_spec(t, i7) { None => None, Some((v_requires, i8)) =>
    match expect_spec(t, i8, k_last_updated()) { None => None, Some(i9) =>
    match dec_opt_u64_spec(t, i9) { None => None, Some((v_last_updated, i10)) =>
    match expect_spec(t, i10, k_last_fetch_error()) { None => None, Some(i11) =>
    match dec_opt_string_spec(t, i11) { None => None, Some((v_last_fetch_error, i12)) =>
    match expect_spec(t, i12, seq!['}']) { None => None, Some(done) =>
    Some((ScriptTailV { version: v_version, description: v_description, author: v_author, requires: v_requires, last_updated: v_last_updated, last_fetch_error: v_last_fetch_error }, done))
    }}}}}}}}}}}}}
}

/// One script record at `i`: the decoded script and the index past it.
#[verifier::opaque]
pub open spec fn dec_script_spec(t: Seq<char>, i: int) -> Option<(ScriptV, int)> {
    match dec_script_head(t, i) {
        None => None,
        Some((h, j)) => match dec_script_tail(t, j) {
            None => None,
            Some((tl, k)) => Some(
                (
                    ScriptV {
                        id: h.id,
                        name: h.name,
                        code: h.code,
                        enabled: h.enabled,
                        order: h.order,
                        url: h.url,
                        version: tl.version,
                        description: tl.description,
                        author: tl.author,
                        requires: tl.requires,
                        last_updated: tl.last_updated,
                        last_fetch_error: tl.last_fetch_error,
                    },
                    k,
                ),
            ),
        },
    }
}

#[verifier::rlimit(100)]
pub proof fn lemma_dec_script_head_bounds(t: Seq<char>, i: int)
    requires
        0 <= i,
    ensures
        dec_script_head(t, i) matches Some(p) ==> i < p.1 <= t.len(),
{
    reveal(dec_script_head);
    lemma_expect_bounds(t, i, k_id());
    match expect_spec(t, i, k_id()) { None => {}, Some(i1) => {
    lemma_dec_string_bounds(t, i1);
    match dec_string_spec(t, i1) { None => {}, Some((v_id, i2)) => {
    lemma_expect_bounds(t, i2, k_name());
    match expect_spec(t, i2, k_name()) { None => {}, Some(i3) => {
    lemma_dec_string_bounds(t, i3);
    match dec_string_spec(t, i3) { None => {}, Some((v_name, i4)) => {
    lemma_expect_bounds(t, i4, k_code());
    match expect_spec(t, i4, k_code()) { None => {}, Some(i5) => {
    lemma_dec_string_bounds(t, i5);
    match dec_string_spec(t, i5) { None => {}, Some((v_code, i6)) => {
    lemma_expect_bounds(t, i6, k_enabled());
    match expect_spec(t, i6, k_enabled()) { None => {}, Some(i7) => {
    lemma_dec_bool_bounds(t, i7);
    match dec_bool_spec(t, i7) { None => {}, Some((v_enabled, i8)) => {
    lemma_expect_bounds(t, i8, k_order());
    match expect_spec(t, i8, k_order()) { None => {}, Some(i9) => {
    lemma_dec_i32_bounds(t, i9);
    match dec_i32_spec(t, i9) { None => {}, Some((v_order, i10)) => {
    lemma_expect_bounds(t, i10, k_url());
    match expect_spec(t, i10, k_url()) { None => {}, Some(i11) => {
    lemma_dec_opt_string_bounds(t, i11);
    match dec_opt_string_spec(t, i11) { None => {}, Some((v_url, i12)) => {
    } }} }} }} }} }} }} }} }} }} }} }} }
}

#[verifier::rlimit(100)]
pub proof fn lemma_dec_script_tail_bounds(t: Seq<char>, i: int)
    requires
        0 <= i,
    ensures
        dec_script_tail(t, i) matches Some(p) ==> i < p.1 <= t.len(),
{
    reveal(dec_script_tail);
    lemma_expect_bounds(t, i, k_version());
    match expect_spec(t, i, k_version()) { None => {}, Some(i1) => {
    lemma_dec_opt_string_bounds(t, i1);
    match dec_opt_string_spec(t, i1) { None => {}, Some((v_version, i2)) => {
    lemma_expect_bounds(t, i2, k_description());
    match expect_spec(t, i2, k_description()) { None => {}, Some(i3) => {
    lemma_dec_opt_string_bounds(t, i3);
    match dec_opt_string_spec(t, i3) { None => {}, Some((v_description, i4)) => {
    lemma_expect_bounds(t, i4, k_author());
    match expect_spec(t, i4, k_author()) { None => {}, Some(i5) => {
    lemma_dec_opt_string_bounds(t, i5);
    match dec_opt_string_spec(t, i5) { None => {}, Some((v_author, i6)) => {
    lemma_expect_bounds(t, i6, k_requires());
    match expect_spec(t, i6, k_requires()) { None => {}, Some(i7) => {
    lemma_dec_str_array_bounds(t, i7);
    match dec_str_array_spec(t, i7) { None => {}, Some((v_requires, i8)) => {
    lemma_expect_bounds(t, i8, k_last_updated());
    match expect_spec(t, i8, k_last_updated()) { None => {}, Some(i9) => {
    lemma_dec_opt_u64_bounds(t, i9);
    match dec_opt_u64_spec(t, i9) { None => {}, Some((v_last_updated, i10)) => {
    lemma_expect_bounds(t, i10, k_last_fetch_error());
    match expect_spec(t, i10, k_last_fetch_error()) { None => {}, Some(i11) => {
    lemma_dec_opt_string_bounds(t, i11);
    match dec_opt_string_spec(t, i11) { None => {}, Some((v_last_fetch_error, i12)) => {
    lemma_expect_bounds(t, i12, seq!['}']);
    } }} }} }} }} }} }} }} }} }} }} }} }
}

pub proof fn lemma_dec_script_bounds(t: Seq<char>, i: int)
    requires
        0 <= i,
    ensures
        dec_script_spec(t, i) matches Some(p) ==> i < p.1 <= t.len(),
{
    reveal(dec_script_spec);
    lemma_dec_script_head_bounds(t, i);
    match dec_script_head(t, i) {
        None => {},
        Some((h, j)) => {
            lemma_dec_script_tail_bounds(t, j);
        },
    }
}

#[verifier::rlimit(100)]
pub proof fn lemma_script_head_roundtrip(pre: Seq<char>, s: ScriptV, rest: Seq<char>)
    requires
        i32::MIN <= s.order <= i32::MAX,
    ensures
        dec_script_head(pre + enc_script_head(s) + rest, pre.len() as int) == Some(
            (ScriptHeadV { id: s.id, name: s.name, code: s.code, enabled: s.enabled, order: s.order, url: s.url }, (pre.len() + enc_script_head(s).len()) as int),
        ),
{
    reveal(dec_script_head);
    reveal(enc_script_head);
    reveal_strlit(",\"url\":");
    let t = pre + enc_script_head(s) + rest;
    let l0 = k_id();
    let l1 = l0 + enc_string(s.id);
    let l2 = l1 + k_name();
    let l3 = l2 + enc_string(s.name);
    let l4 = l3 + k_code();
    let l5 = l4 + enc_string(s.code);
    let l6 = l5 + k_enabled();
    let l7 = l6 + enc_bool(s.enabled);
    let l8 = l7 + k_order();
    let l9 = l8 + enc_i32(s.order);
    let l10 = l9 + k_url();
    let l11 = l10 + enc_opt_string(s.url);
    assert(enc_script_head(s) == l11);
    let t11 = rest;
    let t10 = enc_opt_string(s.url) + t11;
    let t9 = k_url() + t10;
    let t8 = enc_i32(s.order) + t9;
    let t7 = k_order() + t8;
    let t6 = enc_bool(s.enabled) + t7;
    let t5 = k_enabled() + t6;
    let t4 = enc_string(s.code) + t5;
    let t3 = k_code() + t4;
    let t2 = enc_string(s.name) + t3;
    let t1 = k_name() + t2;
    let t0 = enc_string(s.id) + t1;
    assert(t == (pre + l11) + t11);
    lemma_concat_associative(pre, l10, enc_opt_string(s.url));
    lemma_concat_associative(pre + l10, enc_opt_string(s.url), t11);
    assert(t == ((pre + l10) + enc_opt_string(s.url)) + t11);
    lemma_concat_associative(pre, l9, k_url());
    lemma_concat_associative(pre + l9, k_url(), t10);
    assert(t == ((pre + l9) + k_url()) + t10);
    lemma_concat_associative(pre, l8, enc_i32(s.order));
    lemma_concat_associative(pre + l8, enc_i32(s.order), t9);
    assert(t == ((pre + l8) + enc_i32(s.order)) + t9);
    lemma_concat_associative(pre, l7, k_order());
    lemma_concat_associative(pre + l7, k_order(), t8);
    assert(t == ((pre + l7) + k_order()) + t8);
    lemma_concat_associative(pre, l6, enc_bool(s.enabled));
    lemma_concat_associative(pre + l6, enc_bool(s.enabled), t7);
    assert(t == ((pre + l6) + enc_bool(s.enabled)) + t7);
    lemma_concat_associative(pre, l5, k_enabled());
    lemma_concat_associative(pre + l5, k_enabled(), t6);
    assert(t == ((pre + l5) + k_enabled()) + t6);
    lemma_concat_associative(pre, l4, enc_string(s.code));
    lemma_concat_associative(pre + l4, enc_string(s.code), t5);
    assert(t == ((pre + l4) + enc_string(s.code)) + t5);
    lemma_concat_associative(pre, l3, k_code());
    lemma_concat_associative(pre + l3, k_code(), t4);
    assert(t == ((pre + l3) + k_code()) + t4);
    lemma_concat_associative(pre, l2, enc_string(s.name));
    lemma_concat_associative(pre + l2, enc_string(s.name), t3);
    assert(t == ((pre + l2) + enc_string(s.name)) + t3);
    lemma_concat_associative(pre, l1, k_name());
    lemma_concat_associative(pre + l1, k_name(), t2);
    assert(t == ((pre + l1) + k_name()) + t2);
    lemma_concat_associative(pre, l0, enc_string(s.id));
    lemma_concat_associative(pre + l0, enc_string(s.id), t1);
    assert(t == ((pre + l0) + enc_string(s.id)) + t1);
    assert(t == (pre + k_id()) + t0);
    lemma_expect_roundtrip(pre, k_id(), t0);
    lemma_string_roundtrip((pre + l0), s.id, t1);
    lemma_expect_roundtrip((pre + l1), k_name(), t2);
    lemma_string_roundtrip((pre + l2), s.name, t3);
    lemma_expect_roundtrip((pre + l3), k_code(), t4);
    lemma_string_roundtrip((pre + l4), s.code, t5);
    lemma_expect_roundtrip((pre + l5), k_enabled(), t6);
    lemma_bool_roundtrip((pre + l6), s.enabled, t7);
    lemma_expect_roundtrip((pre + l7), k_order(), t8);
    assert(t9[0] == k_url()[0]);
    assert(!is_digit_char(t9[0]));
    assert((s.order as i32) as int == s.order);
    lemma_i32_roundtrip((pre + l8), s.order as i32, t9);
    lemma_expect_roundtrip((pre + l9), k_url(), t10);
    lemma_opt_string_roundtrip((pre + l10), s.url, t11);
    assert((pre + l11).len() == pre.len() + enc_script_head(s).len());
}

#[verifier::rlimit(100)]
pub proof fn lemma_script_tail_roundtrip(pre: Seq<char>, s: ScriptV, rest: Seq<char>)
    ensures
        dec_script_tail(pre + enc_script_tail(s) + rest, pre.len() as int) == Some(
            (ScriptTailV { version: s.version, description: s.description, author: s.author, requires: s.requires, last_updated: s.last_updated, last_fetch_error: s.last_fetch_error }, (pre.len() + enc_script_tail(s).len()) as int),
        ),
{
    reveal(dec_script_tail);
    reveal(enc_script_tail);
    reveal_strlit(",\"last_fetch_error\":");
    reveal_strlit(",\"last_updated\":");
    let t = pre + enc_script_tail(s) + rest;
    let l0 = k_version();
    let l1 = l0 + enc_opt_string(s.version);
    let l2 = l1 + k_description();
    let l3 = l2 + enc_opt_string(s.description);
    let l4 = l3 + k_author();
    let l5 = l4 + enc_opt_string(s.author);
    let l6 = l5 + k_requires();
    let l7 = l6 + enc_str_array(s.requires);
    let l8 = l7 + k_last_updated();
    let l9 = l8 + enc_opt_u64(s.last_updated);
    let l10 = l9 + k_last_fetch_error();
    let l11 = l10 + enc_opt_string(s.last_fetch_error);
    let l12 = l11 + seq!['}'];
    assert(enc_script_tail(s) == l12);
    let t12 = rest;
    let t11 = seq!['}'] + t12;
    let t10 = enc_opt_string(s.last_fetch_error) + t11;
    let t9 = k_last_fetch_error() + t10;
    let t8 = enc_opt_u64(s.last_updated) + t9;
    let t7 = k_last_updated() + t8;
    let t6 = enc_str_array(s.requires) + t7;
    let t5 = k_requires() + t6;
    let t4 = enc_opt_string(s.author) + t5;
    let t3 = k_author() + t4;
    let t2 = enc_opt_string(s.description) + t3;
    let t1 = k_description() + t2;
    let t0 = enc_opt_string(s.version) + t1;
    assert(t == (pre + l12) + t12);
    lemma_concat_associative(pre, l11, seq!['}']);
    lemma_concat_associative(pre + l11, seq!['}'], t12);
    assert(t == ((pre + l11) + seq!['}']) + t12);
    lemma_concat_associative(pre, l10, enc_opt_string(s.last_fetch_error));
    lemma_concat_associative(pre + l10, enc_opt_string(s.last_fetch_error), t11);
    assert(t == ((pre + l10) + enc_opt_string(s.last_fetch_error)) + t11);
    lemma_concat_associative(pre, l9, k_last_fetch_error());
    lemma_concat_associative(pre + l9, k_last_fetch_error(), t10);
    assert(t == ((pre + l9) + k_last_fetch_error()) + t10);
    lemma_concat_associative(pre, l8, enc_opt_u64(s.last_updated));
    lemma_concat_associative(pre + l8, enc_opt_u64(s.last_updated), t9);
    assert(t == ((pre + l8) + enc_opt_u64(s.last_updated)) + t9);
    lemma_concat_associative(pre, l7, k_last_updated());
    lemma_concat_associative(pre + l7, k_last_updated(), t8);
    assert(t == ((pre + l7) + k_last_updated()) + t8);
    lemma_concat_associative(pre, l6, enc_str_array(s.requires));
    lemma_concat_associative(pre + l6, enc_str_array(s.requires), t7);
    assert(t == ((pre + l6) + enc_str_array(s.requires)) + t7);
    lemma_concat_associative(pre, l5, k_requires());
    lemma_concat_associative(pre + l5, k_requires(), t6);
    assert(t == ((pre + l5) + k_requires()) + t6);
    lemma_concat_associative(pre, l4, enc_opt_string(s.author));
    lemma_concat_associative(pre + l4, enc_opt_string(s.author), t5);
    assert(t == ((pre + l4) + enc_opt_string(s.author)) + t5);
    lemma_concat_associative(pre, l3, k_author());
    lemma_concat_associative(pre + l3, k_author(), t4);
    assert(t == ((pre + l3) + k_author()) + t4);
    lemma_concat_associative(pre, l2, enc_opt_string(s.description));
    lemma_concat_associative(pre + l2, enc_opt_string(s.description), t3);
    assert(t == ((pre + l2) + enc_opt_string(s.description)) + t3);
    lemma_concat_associative(pre, l1, k_description());
    lemma_concat_associative(pre + l1, k_description(), t2);
    assert(t == ((pre + l1) + k_description()) + t2);
    lemma_concat_associative(pre, l0, enc_opt_string(s.version));
    lemma_concat_associative(pre + l0, enc_opt_string(s.version), t1);
    assert(t == ((pre + l0) + enc_opt_string(s.version)) + t1);
    assert(t == (pre + k_version()) + t0);
    lemma_expect_roundtrip(pre, k_version(), t0);
    lemma_opt_string_roundtrip((pre + l0), s.version, t1);
    lemma_expect_roundtrip((pre + l1), k_description(), t2);
    lemma_opt_string_roundtrip((pre + l2), s.description, t3);
    lemma_expect_roundtrip((pre + l3), k_author(), t4);
    lemma_opt_string_roundtrip((pre + l4), s.author, t5);
    lemma_expect_roundtrip((pre + l5), k_requires(), t6);
    assert(t7.len() > 0);
    lemma_str_array_roundtrip((pre + l6), s.requires, t7);
    lemma_expect_roundtrip((pre + l7), k_last_updated(), t8);
    assert(t9[0] == k_last_fetch_error()[0]);
    assert(!is_digit_char(t9[0]));
    lemma_opt_u64_roundtrip((pre + l8), s.last_updated, t9);
    lemma_expect_roundtrip((pre + l9), k_last_fetch_error(), t10);
    lemma_opt_string_roundtrip((pre + l10), s.last_fetch_error, t11);
    lemma_expect_roundtrip((pre + l11), seq!['}'], t12);
    assert((pre + l12).len() == pre.len() + enc_script_tail(s).len());
}

/// Reading an encoded script record gives back exactly the script.
#[verifier::rlimit(100)]
pub proof fn lemma_script_roundtrip(pre: Seq<char>, s: ScriptV, rest: Seq<char>)
    requires
        i32::MIN <= s.order <= i32::MAX,
    ensures
        dec_script_spec(pre + enc_script(s) + rest, pre.len() as int) == Some(
            (s, (pre.len() + enc_script(s).len()) as int),
        ),
{
    reveal(dec_script_spec);
    reveal(enc_script);
    let t = pre + enc_script(s) + rest;
    lemma_concat_associative(pre, enc_script_head(s), enc_script_tail(s));
    lemma_concat_associative(pre + enc_script_head(s), enc_script_tail(s), rest);
    assert(t == pre + enc_script_head(s) + (enc_script_tail(s) + rest));
    lemma_script_head_roundtrip(pre, s, enc_script_tail(s) + rest);
    assert(t == (pre + enc_script_head(s)) + enc_script_tail(s) + rest);
    lemma_script_tail_roundtrip(pre + enc_script_head(s), s, rest);
    assert(s == ScriptV { id: s.id, name: s.name, code: s.code, enabled: s.enabled, order: s.order, url: s.url, version: s.version, description: s.description, author: s.author, requires: s.requires, last_updated: s.last_updated, last_fetch_error: s.last_fetch_error });
}

/// An encoded script record opens with a brace and is never empty.
pub proof fn lemma_enc_script_first(s: ScriptV)
    ensures
        enc_script(s).len() > 0,
        enc_script(s)[0] == '{',
{
    reveal(enc_script);
    reveal(enc_script_head);
    reveal_strlit("{\"id\":");
    assert(k_id().len() == 6 && k_id()[0] == '{');
    assert(enc_script_head(s)[0] == k_id()[0]) by {
        assert(enc_script_head(s) == k_id() + enc_string(s.id) + k_name() + enc_string(s.name)
            + k_code() + enc_string(s.code) + k_enabled() + enc_bool(s.enabled) + k_order()
            + enc_i32(s.order) + k_url() + enc_opt_string(s.url));
    }
    assert(enc_script(s)[0] == enc_script_head(s)[0]);
}

// --- the script store document ---

pub open spec fn enc_scripts_items(ss: Seq<ScriptV>, from: int) -> Seq<char>
    decreases ss.len() - from when 0 <= from <= ss.len()
{
    if from >= ss.len() {
        Seq::empty()
    } else if from == ss.len() - 1 {
        enc_script(ss[from])
    } else {
        enc_script(ss[from]) + seq![','] + enc_scripts_items(ss, from + 1)
    }
}

/// The script store document: a JSON array of script records.
pub open spec fn scripts_doc(ss: Seq<ScriptV>) -> Seq<char> {
    seq!['['] + enc_scripts_items(ss, 0) + seq![']']
}

pub open spec fn dec_scripts_items(t: Seq<char>, i: int) -> Option<(Seq<ScriptV>, int)>
    decreases t.len() - i,
    when 0 <= i
    via dec_scripts_items_dec
{
    match dec_script_spec(t, i) {
        None => None,
        Some((s, j)) => {
            if j < t.len() && t[j] == ',' {
                match dec_scripts_items(t, j + 1) {
                    None => None,
                    Some((restv, k)) => Some((seq![s] + restv, k)),
                }
            } else if j < t.len() && t[j] == ']' {
                Some((seq![s], j + 1))
            } else {
                None
            }
        },
    }
}

#[via_fn]
proof fn dec_scripts_items_dec(t: Seq<char>, i: int) {
    lemma_dec_script_bounds(t, i);
}

/// The whole script store read back; anything but the canonical layout is
/// malformed.
pub open spec fn dec_scripts_doc(t: Seq<char>) -> Option<Seq<ScriptV>> {
    if t.len() == 2 && t[0] == '[' && t[1] == ']' {
        Some(Seq::empty())
    } else if t.len() > 0 && t[0] == '[' {
        match dec_scripts_items(t, 1) {
            None => None,
            Some((ss, j)) => if j == t.len() {
                Some(ss)
            } else {
                None
            },
        }
    } else {
        None
    }
}

/// Every order value fits the order field's type.
pub open spec fn orders_in_range(ss: Seq<ScriptV>) -> bool {
    forall|k: int| 0 <= k < ss.len() ==> i32::MIN <= #[trigger] ss[k].order <= i32::MAX
}

#[verifier::rlimit(100)]
proof fn lemma_scripts_items_roundtrip(pre: Seq<char>, ss: Seq<ScriptV>, from: int, rest: Seq<char>)
    requires
        0 <= from < ss.len(),
        orders_in_range(ss),
    ensures
        dec_scripts_items(pre + enc_scripts_items(ss, from) + (seq![']'] + rest), pre.len() as int)
            == Some((ss.skip(from), (pre.len() + enc_scripts_items(ss, from).len() + 1) as int)),
    decreases ss.len() - from,
{
    let t = pre + enc_scripts_items(ss, from) + (seq![']'] + rest);
    let i = pre.len() as int;
    if from == ss.len() - 1 {
        assert(t =~= pre + enc_script(ss[from]) + (seq![']'] + rest));
        lemma_script_roundtrip(pre, ss[from], seq![']'] + rest);
        let j = i + enc_script(ss[from]).len();
        assert(t[j] == ']') by {
            assert(t[j] == (seq![']'] + rest)[0]);
        }
        assert(ss.skip(from) =~= seq![ss[from]]);
    } else {
        let pre2 = pre + enc_script(ss[from]) + seq![','];
        assert(t =~= pre2 + enc_scripts_items(ss, from + 1) + (seq![']'] + rest));
        lemma_scripts_items_roundtrip(pre2, ss, from + 1, rest);
        assert(t =~= pre + enc_script(ss[from]) + (seq![','] + (enc_scripts_items(ss, from + 1) + (
        seq![']'] + rest))));
        lemma_script_roundtrip(
            pre,
            ss[from],
            seq![','] + (enc_scripts_items(ss, from + 1) + (seq![']'] + rest)),
        );
        let j = i + enc_script(ss[from]).len();
        assert(t[j] == ',') by {
            assert(t[j] == (seq![','] + (enc_scripts_items(ss, from + 1) + (seq![']'] + rest)))[0]);
        }
        assert(pre2.len() == j + 1);
        assert(seq![ss[from]] + ss.skip(from + 1) =~= ss.skip(from));
    }
}

/// Reading an encoded script store gives back exactly the scripts.
#[verifier::rlimit(100)]
pub proof fn lemma_scripts_doc_roundtrip(ss: Seq<ScriptV>)
    requires
        orders_in_range(ss),
    ensures
        dec_scripts_doc(scripts_doc(ss)) == Some(ss),
{
    reveal_strlit("{\"id\":");
    let t = scripts_doc(ss);
    assert(t[0] == '[');
    if ss.len() == 0 {
        assert(enc_scripts_items(ss, 0) =~= Seq::<char>::empty());
        assert(t =~= seq!['[', ']']);
        assert(ss =~= Seq::<ScriptV>::empty());
    } else {
        assert(enc_scripts_items(ss, 0).len() >= enc_script(ss[0]).len());
        lemma_enc_script_first(ss[0]);
        let pre2 = seq!['['];
        assert(t =~= pre2 + enc_scripts_items(ss, 0) + (seq![']'] + Seq::<char>::empty()));
        lemma_scripts_items_roundtrip(pre2, ss, 0, Seq::empty());
        assert(ss.skip(0) =~= ss);
        assert(t.len() == 2 + enc_scripts_items(ss, 0).len());
    }
}


// --- the dependency cache document ---

pub const DK_URL: &'static str = "{\"url\":";

pub open spec fn dk_url() -> Seq<char> {
    DK_URL@
}

/// One cache entry: the URL as the key, the record as the value.
#[verifier::opaque]
pub open spec fn enc_dep(d: DepV) -> Seq<char> {
    enc_string(d.url) + seq![':'] + dk_url() + enc_string(d.url) + k_code() + enc_string(d.code)
        + k_last_updated() + dec_digits(d.last_updated as nat) + seq!['}']
}

#[verifier::opaque]
pub open spec fn dec_dep_spec(t: Seq<char>, i: int) -> Option<(DepV, int)> {
    match dec_string_spec(t, i) {
        None => None,
        Some((key, i1)) => match expect_spec(t, i1, seq![':']) {
            None => None,
            Some(i2) => match expect_spec(t, i2, dk_url()) {
                None => None,
                Some(i3) => match dec_string_spec(t, i3) {
                    None => None,
                    Some((url, i4)) => match expect_spec(t, i4, k_code()) {
                        None => None,
                        Some(i5) => match dec_string_spec(t, i5) {
                            None => None,
                            Some((code, i6)) => match expect_spec(t, i6, k_last_updated()) {
                                None => None,
                                Some(i7) => match dec_u64_spec(t, i7) {
                                    None => None,
                                    Some((lu, i8)) => match expect_spec(t, i8, seq!['}']) {
                                        None => None,
                                        Some(i9) => Some(
                                            (DepV { url, code, last_updated: lu }, i9),
                                        ),
                                    },
                                },
                            },
                        },
                    },
                },
            },
        },
    }
}

#[verifier::rlimit(100)]
pub proof fn lemma_dec_dep_bounds(t: Seq<char>, i: int)
    requires
        0 <= i,
    ensures
        dec_dep_spec(t, i) matches Some(p) ==> i < p.1 <= t.len(),
{
    reveal(dec_dep_spec);
    lemma_dec_string_bounds(t, i);
    match dec_string_spec(t, i) {
        None => {},
        Some((key, i1)) => {
            lemma_expect_bounds(t, i1, seq![':']);
            match expect_spec(t, i1, seq![':']) {
                None => {},
                Some(i2) => {
                    lemma_expect_bounds(t, i2, dk_url());
                    match expect_spec(t, i2, dk_url()) {
                        None => {},
                        Some(i3) => {
                            lemma_dec_string_bounds(t, i3);
                            match dec_string_spec(t, i3) {
                                None => {},
                                Some((url, i4)) => {
                                    lemma_expect_bounds(t, i4, k_code());
                                    match expect_spec(t, i4, k_code()) {
                                        None => {},
                                        Some(i5) => {
                                            lemma_dec_string_bounds(t, i5);
                                            match dec_string_spec(t, i5) {
                                                None => {},
                                                Some((code, i6)) => {
                                                    lemma_expect_bounds(t, i6, k_last_updated());
                                                    match expect_spec(t, i6, k_last_updated()) {
                                                        None => {},
                                                        Some(i7) => {
                                                            lemma_dec_u64_bounds(t, i7);
                                                            match dec_u64_spec(t, i7) {
                                                                None => {},
                                                                Some((lu, i8)) => {
                                                                    lemma_expect_bounds(t, i8, seq!['}']);
                                                                },
                                                            }
                                                        },
                                                    }
                                                },
                                            }
                                        },
                                    }
                                },
                            }
                        },
                    }
                },
            }
        },
    }
}

/// Reading an encoded cache entry gives back exactly the record.
#[verifier::rlimit(100)]
pub proof fn lemma_dep_roundtrip(pre: Seq<char>, d: DepV, rest: Seq<char>)
    ensures
        dec_dep_spec(pre + enc_dep(d) + rest, pre.len() as int) == Some(
            (d, (pre.len() + enc_dep(d).len()) as int),
        ),
{
    reveal(dec_dep_spec);
    reveal(enc_dep);
    reveal_strlit(",\"last_updated\":");
    let t = pre + enc_dep(d) + rest;
    let p0 = pre;
    let r0 = seq![':'] + (dk_url() + (enc_string(d.url) + (k_code() + (enc_string(d.code) + (
    k_last_updated() + (dec_digits(d.last_updated as nat) + (seq!['}'] + (rest))))))));
    assert(t =~= p0 + enc_string(d.url) + r0);
    lemma_string_roundtrip(p0, d.url, r0);
    let p1 = p0 + enc_string(d.url);
    let r1 = dk_url() + (enc_string(d.url) + (k_code() + (enc_string(d.code) + (k_last_updated()
        + (dec_digits(d.last_updated as nat) + (seq!['}'] + (rest)))))));
    assert(t =~= p1 + seq![':'] + r1);
    lemma_expect_roundtrip(p1, seq![':'], r1);
    let p2 = p1 + seq![':'];
    let r2 = enc_string(d.url) + (k_code() + (enc_string(d.code) + (k_last_updated() + (
    dec_digits(d.last_updated as nat) + (seq!['}'] + (rest))))));
    assert(t =~= p2 + dk_url() + r2);
    lemma_expect_roundtrip(p2, dk_url(), r2);
    let p3 = p2 + dk_url();
    let r3 = k_code() + (enc_string(d.code) + (k_last_updated() + (dec_digits(
        d.last_updated as nat,
    ) + (seq!['}'] + (rest)))));
    assert(t =~= p3 + enc_string(d.url) + r3);
    lemma_string_roundtrip(p3, d.url, r3);
    let p4 = p3 + enc_string(d.url);
    let r4 = enc_string(d.code) + (k_last_updated() + (dec_digits(d.last_updated as nat) + (
    seq!['}'] + (rest))));
    assert(t =~= p4 + k_code() + r4);
    lemma_expect_roundtrip(p4, k_code(), r4);
    let p5 = p4 + k_code();
    let r5 = k_last_updated() + (dec_digits(d.last_updated as nat) + (seq!['}'] + (rest)));
    assert(t =~= p5 + enc_string(d.code) + r5);
    lemma_string_roundtrip(p5, d.code, r5);
    let p6 = p5 + enc_string(d.code);
    let r6 = dec_digits(d.last_updated as nat) + (seq!['}'] + (rest));
    assert(t =~= p6 + k_last_updated() + r6);
    lemma_expect_roundtrip(p6, k_last_updated(), r6);
    let p7 = p6 + k_last_updated();
    let r7 = seq!['}'] + (rest);
    assert(t =~= p7 + dec_digits(d.last_updated as nat) + r7);
    assert(r7[0] == '}');
    lemma_u64_roundtrip(p7, d.last_updated, r7);
    let p8 = p7 + dec_digits(d.last_updated as nat);
    let r8 = rest;
    assert(t =~= p8 + seq!['}'] + r8);
    lemma_expect_roundtrip(p8, seq!['}'], r8);
    let p9 = p8 + seq!['}'];
    assert(d == DepV { url: d.url, code: d.code, last_updated: d.last_updated });
    assert(p9 =~= pre + enc_dep(d));
}

/// An encoded cache entry opens with a quote and is never empty.
pub proof fn lemma_enc_dep_first(d: DepV)
    ensures
        enc_dep(d).len() > 0,
        enc_dep(d)[0] == '"',
{
    reveal(enc_dep);
    assert(enc_dep(d)[0] == enc_string(d.url)[0]);
    assert(enc_string(d.url)[0] == '"');
}

pub open spec fn enc_deps_items(ds: Seq<DepV>, from: int) -> Seq<char>
    decreases ds.len() - from when 0 <= from <= ds.len()
{
    if from >= ds.len() {
        Seq::empty()
    } else if from == ds.len() - 1 {
        enc_dep(ds[from])
    } else {
        enc_dep(ds[from]) + seq![','] + enc_deps_items(ds, from + 1)
    }
}

/// The dependency cache document: a JSON object mapping each URL to its
/// record.
pub open spec fn deps_doc(ds: Seq<DepV>) -> Seq<char> {
    seq!['{'] + enc_deps_items(ds, 0) + seq!['}']
}

pub open spec fn dec_deps_items(t: Seq<char>, i: int) -> Option<(Seq<DepV>, int)>
    decreases t.len() - i,
    when 0 <= i
    via dec_deps_items_dec
{
    match dec_dep_spec(t, i) {
        None => None,
        Some((d, j)) => {
            if j < t.len() && t[j] == ',' {
                match dec_deps_items(t, j + 1) {
                    None => None,
                    Some((restv, k)) => Some((seq![d] + restv, k)),
                }
            } else if j < t.len() && t[j] == '}' {
                Some((seq![d], j + 1))
            } else {
                None
            }
        },
    }
}

#[via_fn]
proof fn dec_deps_items_dec(t: Seq<char>, i: int) {
    lemma_dec_dep_bounds(t, i);
}

/// The whole dependency cache read back; anything but the canonical layout
/// is malformed.
pub open spec fn dec_deps_doc(t: Seq<char>) -> Option<Seq<DepV>> {
    if t.len() == 2 && t[0] == '{' && t[1] == '}' {
        Some(Seq::empty())
    } else if t.len() > 0 && t[0] == '{' {
        match dec_deps_items(t, 1) {
            None => None,
            Some((ds, j)) => if j == t.len() {
                Some(ds)
            } else {
                None
            },
        }
    } else {
        None
    }
}

#[verifier::rlimit(100)]
proof fn lemma_deps_items_roundtrip(pre: Seq<char>, ds: Seq<DepV>, from: int, rest: Seq<char>)
    requires
        0 <= from < ds.len(),
    ensures
        dec_deps_items(pre + enc_deps_items(ds, from) + (seq!['}'] + rest), pre.len() as int)
            == Some((ds.skip(from), (pre.len() + enc_deps_items(ds, from).len() + 1) as int)),
    decreases ds.len() - from,
{
    let t = pre + enc_deps_items(ds, from) + (seq!['}'] + rest);
    let i = pre.len() as int;
    if from == ds.len() - 1 {
        assert(t =~= pre + enc_dep(ds[from]) + (seq!['}'] + rest));
        lemma_dep_roundtrip(pre, ds[from], seq!['}'] + rest);
        let j = i + enc_dep(ds[from]).len();
        assert(t[j] == '}') by {
            assert(t[j] == (seq!['}'] + rest)[0]);
        }
        assert(ds.skip(from) =~= seq![ds[from]]);
    } else {
        let pre2 = pre + enc_dep(ds[from]) + seq![','];
        assert(t =~= pre2 + enc_deps_items(ds, from + 1) + (seq!['}'] + rest));
        lemma_deps_items_roundtrip(pre2, ds, from + 1, rest);
        assert(t =~= pre + enc_dep(ds[from]) + (seq![','] + (enc_deps_items(ds, from + 1) + (
        seq!['}'] + rest))));
        lemma_dep_roundtrip(
            pre,
            ds[from],
            seq![','] + (enc_deps_items(ds, from + 1) + (seq!['}'] + rest)),
        );
        let j = i + enc_dep(ds[from]).len();
        assert(t[j] == ',') by {
            assert(t[j] == (seq![','] + (enc_deps_items(ds, from + 1) + (seq!['}'] + rest)))[0]);
        }
        assert(pre2.len() == j + 1);
        assert(seq![ds[from]] + ds.skip(from + 1) =~= ds.skip(from));
    }
}

/// Reading an encoded dependency cache gives back exactly the records.
#[verifier::rlimit(100)]
pub proof fn lemma_deps_doc_roundtrip(ds: Seq<DepV>)
    ensures
        dec_deps_doc(deps_doc(ds)) == Some(ds),
{
    let t = deps_doc(ds);
    assert(t[0] == '{');
    if ds.len() == 0 {
        assert(enc_deps_items(ds, 0) =~= Seq::<char>::empty());
        assert(t =~= seq!['{', '}']);
        assert(ds =~= Seq::<DepV>::empty());
    } else {
        assert(enc_deps_items(ds, 0).len() >= enc_dep(ds[0]).len());
        lemma_enc_dep_first(ds[0]);
        let pre2 = seq!['{'];
        assert(t =~= pre2 + enc_deps_items(ds, 0) + (seq!['}'] + Seq::<char>::empty()));
        lemma_deps_items_roundtrip(pre2, ds, 0, Seq::empty());
        assert(ds.skip(0) =~= ds);
        assert(t.len() == 2 + enc_deps_items(ds, 0).len());
    }
}

/// Law: persisting both stores and reloading them yields exactly the same
/// collections.
pub proof fn lemma_store_roundtrip(ss: Seq<ScriptV>, ds: Seq<DepV>)
    requires
        orders_in_range(ss),
    ensures
        dec_scripts_doc(scripts_doc(ss)) == Some(ss),
        dec_deps_doc(deps_doc(ds)) == Some(ds),
{
    lemma_scripts_doc_roundtrip(ss);
    lemma_deps_doc_roundtrip(ds);
}


// --- executable encoders ---

fn push_lit(out: &mut Vec<char>, lit: &str)
    ensures
        final(out)@ == old(out)@ + lit@,
{
    let v = chars_of(lit);
    push_all(out, &v);
}

/// Appends an optional string as a quoted string or the null word.
fn push_opt_string(out: &mut Vec<char>, o: &Option<String>)
    ensures
        final(out)@ == old(out)@ + enc_opt_string(opt_str_view(*o)),
{
    match o {
        None => {
            out.push('n');
            out.push('u');
            out.push('l');
            out.push('l');
            proof {
                assert(out@ =~= old(out)@ + null_text());
            }
        },
        Some(s) => {
            let cs = chars_of(s.as_str());
            push_enc_string(out, &cs);
        },
    }
}

fn push_opt_u64(out: &mut Vec<char>, o: &Option<u64>)
    ensures
        final(out)@ == old(out)@ + enc_opt_u64(*o),
{
    match o {
        None => {
            out.push('n');
            out.push('u');
            out.push('l');
            out.push('l');
            proof {
                assert(out@ =~= old(out)@ + null_text());
            }
        },
        Some(n) => {
            let d = u64_to_dec(*n);
            push_all(out, &d);
        },
    }
}

fn push_bool(out: &mut Vec<char>, b: bool)
    ensures
        final(out)@ == old(out)@ + enc_bool(b),
{
    if b {
        out.push('t');
        out.push('r');
        out.push('u');
        out.push('e');
        proof {
            assert(out@ =~= old(out)@ + true_text());
        }
    } else {
        out.push('f');
        out.push('a');
        out.push('l');
        out.push('s');
        out.push('e');
        proof {
            assert(out@ =~= old(out)@ + false_text());
        }
    }
}

/// The separator written before every item but the first.
pub open spec fn sep_text(k: int) -> Seq<char> {
    if k > 0 {
        seq![',']
    } else {
        Seq::empty()
    }
}

/// Appends a string array.
fn push_str_array(out: &mut Vec<char>, xs: &Vec<String>)
    ensures
        final(out)@ == old(out)@ + enc_str_array(xs.deep_view()),
{
    let ghost xv = xs.deep_view();
    out.push('[');
    let ghost opened = out@;
    let mut k: usize = 0;
    proof {
        if xv.len() > 0 {
            assert(opened + enc_str_items(xv, 0) =~= out@ + sep_text(0) + enc_str_items(xv, 0));
        }
    }
    while k < xs.len()
        invariant
            xv == xs.deep_view(),
            xv.len() == xs@.len(),
            k <= xs@.len(),
            (k as int) < xv.len() ==> opened + enc_str_items(xv, 0) == out@ + sep_text(k as int)
                + enc_str_items(xv, k as int),
            k == xv.len() && k == 0 ==> out@ == opened,
            k == xv.len() && k > 0 ==> out@ == opened + enc_str_items(xv, 0),
        decreases xs@.len() - k,
    {
        if k > 0 {
            out.push(',');
        }
        proof {
            assert(xv[k as int] == xs@[k as int]@);
        }
        let cs = chars_of(xs[k].as_str());
        let ghost before = out@;
        push_enc_string(out, &cs);
        proof {
            if k + 1 < xv.len() {
                assert(enc_str_items(xv, k as int) == enc_string(xv[k as int]) + seq![',']
                    + enc_str_items(xv, k + 1));
                assert(opened + enc_str_items(xv, 0) =~= out@ + sep_text(k + 1) + enc_str_items(
                    xv,
                    k + 1,
                ));
            } else {
                assert(enc_str_items(xv, k as int) == enc_string(xv[k as int]));
                assert(out@ =~= opened + enc_str_items(xv, 0));
            }
        }
        k = k + 1;
    }
    out.push(']');
    proof {
        if xv.len() == 0 {
            assert(enc_str_items(xv, 0) =~= Seq::<char>::empty());
            assert(out@ =~= old(out)@ + enc_str_array(xv));
        } else {
            assert(out@ =~= old(out)@ + enc_str_array(xv));
        }
    }
}

/// Appends the opening fields of one script record.
#[verifier::rlimit(100)]
fn push_script_head(out: &mut Vec<char>, s: &Script)
    ensures
        final(out)@ == old(out)@ + enc_script_head(s@),
{
    proof {
        reveal(enc_script_head);
    }
    push_lit(out, K_ID);
    let idc = chars_of(s.id.as_str());
    push_enc_string(out, &idc);
    push_lit(out, K_NAME);
    let nc = chars_of(s.name.as_str());
    push_enc_string(out, &nc);
    push_lit(out, K_CODE);
    let cc = chars_of(s.code.as_str());
    push_enc_string(out, &cc);
    push_lit(out, K_ENABLED);
    push_bool(out, s.enabled);
    push_lit(out, K_ORDER);
    let oc = crate::strutil::i64_to_dec(s.order as i64);
    push_all(out, &oc);
    push_lit(out, K_URL);
    push_opt_string(out, &s.url);
    proof {
        assert(out@ =~= old(out)@ + enc_script_head(s@));
    }
}

/// Appends the closing fields of one script record.
#[verifier::rlimit(100)]
fn push_script_tail(out: &mut Vec<char>, s: &Script)
    ensures
        final(out)@ == old(out)@ + enc_script_tail(s@),
{
    proof {
        reveal(enc_script_tail);
    }
    push_lit(out, K_VERSION);
    push_opt_string(out, &s.version);
    push_lit(out, K_DESCRIPTION);
    push_opt_string(out, &s.description);
    push_lit(out, K_AUTHOR);
    push_opt_string(out, &s.author);
    push_lit(out, K_REQUIRES);
    push_str_array(out, &s.requires);
    push_lit(out, K_LAST_UPDATED);
    push_opt_u64(out, &s.last_updated);
    push_lit(out, K_LAST_FETCH_ERROR);
    push_opt_string(out, &s.last_fetch_error);
    out.push('}');
    proof {
        assert(out@ =~= old(out)@ + enc_script_tail(s@));
    }
}

/// Appends one script record.
fn push_script_record(out: &mut Vec<char>, s: &Script)
    ensures
        final(out)@ == old(out)@ + enc_script(s@),
{
    proof {
        reveal(enc_script);
    }
    push_script_head(out, s);
    push_script_tail(out, s);
    proof {
        assert(out@ =~= old(out)@ + enc_script(s@));
    }
}

/// The script store document for these scripts.
pub fn encode_scripts_doc(scripts: &Vec<Script>) -> (r: String)
    ensures
        r@ == scripts_doc(scripts.deep_view()),
{
    let ghost ss = scripts.deep_view();
    let mut out: Vec<char> = Vec::new();
    out.push('[');
    let ghost opened = out@;
    let mut k: usize = 0;
    proof {
        if ss.len() > 0 {
            assert(opened + enc_scripts_items(ss, 0) =~= out@ + sep_text(0) + enc_scripts_items(
                ss,
                0,
            ));
        }
    }
    while k < scripts.len()
        invariant
            ss == scripts.deep_view(),
            ss.len() == scripts@.len(),
            k <= scripts@.len(),
            (k as int) < ss.len() ==> opened + enc_scripts_items(ss, 0) == out@ + sep_text(
                k as int,
            ) + enc_scripts_items(ss, k as int),
            k == ss.len() && k == 0 ==> out@ == opened,
            k == ss.len() && k > 0 ==> out@ == opened + enc_scripts_items(ss, 0),
        decreases scripts@.len() - k,
    {
        if k > 0 {
            out.push(',');
        }
        push_script_record(&mut out, &scripts[k]);
        proof {
            if k + 1 < ss.len() {
                assert(enc_scripts_items(ss, k as int) == enc_script(ss[k as int]) + seq![',']
                    + enc_scripts_items(ss, k + 1));
                assert(opened + enc_scripts_items(ss, 0) =~= out@ + sep_text(k + 1)
                    + enc_scripts_items(ss, k + 1));
            } else {
                assert(enc_scripts_items(ss, k as int) == enc_script(ss[k as int]));
                assert(out@ =~= opened + enc_scripts_items(ss, 0));
            }
        }
        k = k + 1;
    }
    out.push(']');
    proof {
        if ss.len() == 0 {
            assert(enc_scripts_items(ss, 0) =~= Seq::<char>::empty());
        }
        assert(out@ =~= scripts_doc(ss));
    }
    crate::strutil::string_of(&out)
}

/// Appends one cache entry.
fn push_dep_record(out: &mut Vec<char>, d: &Dependency)
    ensures
        final(out)@ == old(out)@ + enc_dep(d@),
{
    proof {
        reveal(enc_dep);
    }
    let uc = chars_of(d.url.as_str());
    push_enc_string(out, &uc);
    out.push(':');
    push_lit(out, DK_URL);
    push_enc_string(out, &uc);
    push_lit(out, K_CODE);
    let cc = chars_of(d.code.as_str());
    push_enc_string(out, &cc);
    push_lit(out, K_LAST_UPDATED);
    let lc = u64_to_dec(d.last_updated);
    push_all(out, &lc);
    out.push('}');
    proof {
        assert(out@ =~= old(out)@ + enc_dep(d@));
    }
}

/// The dependency cache document for these records.
pub fn encode_deps_doc(deps: &Vec<Dependency>) -> (r: String)
    ensures
        r@ == deps_doc(deps.deep_view()),
{
    let ghost ds = deps.deep_view();
    let mut out: Vec<char> = Vec::new();
    out.push('{');
    let ghost opened = out@;
    let mut k: usize = 0;
    proof {
        if ds.len() > 0 {
            assert(opened + enc_deps_items(ds, 0) =~= out@ + sep_text(0) + enc_deps_items(ds, 0));
        }
    }
    while k < deps.len()
        invariant
            ds == deps.deep_view(),
            ds.len() == deps@.len(),
            k <= deps@.len(),
            (k as int) < ds.len() ==> opened + enc_deps_items(ds, 0) == out@ + sep_text(k as int)
                + enc_deps_items(ds, k as int),
            k == ds.len() && k == 0 ==> out@ == opened,
            k == ds.len() && k > 0 ==> out@ == opened + enc_deps_items(ds, 0),
        decreases deps@.len() - k,
    {
        if k > 0 {
            out.push(',');
        }
        push_dep_record(&mut out, &deps[k]);
        proof {
            if k + 1 < ds.len() {
                assert(enc_deps_items(ds, k as int) == enc_dep(ds[k as int]) + seq![',']
                    + enc_deps_items(ds, k + 1));
                assert(opened + enc_deps_items(ds, 0) =~= out@ + sep_text(k + 1) + enc_deps_items(
                    ds,
                    k + 1,
                ));
            } else {
                assert(enc_deps_items(ds, k as int) == enc_dep(ds[k as int]));
                assert(out@ =~= opened + enc_deps_items(ds, 0));
            }
        }
        k = k + 1;
    }
    out.push('}');
    proof {
        if ds.len() == 0 {
            assert(enc_deps_items(ds, 0) =~= Seq::<char>::empty());
        }
        assert(out@ =~= deps_doc(ds));
    }
    crate::strutil::string_of(&out)
}


// --- executable decoders ---

fn is_hex_exec(c: char) -> (r: bool)
    ensures
        r == is_hex_char(c),
{
    is_digit(c) || c == 'a' || c == 'b' || c == 'c' || c == 'd' || c == 'e' || c == 'f'
}

fn hex_val_exec(c: char) -> (v: u32)
    requires
        is_hex_char(c),
    ensures
        v as nat == hex_val(c),
        v < 16,
{
    if is_digit(c) {
        digit_value(c) as u32
    } else if c == 'a' {
        10
    } else if c == 'b' {
        11
    } else if c == 'c' {
        12
    } else if c == 'd' {
        13
    } else if c == 'e' {
        14
    } else {
        15
    }
}

fn dec_str_body_exec(t: &Vec<char>, i: usize) -> (r: Option<(Vec<char>, usize)>)
    ensures
        match r {
            Some((s, j)) => dec_str_body(t@, i as int) == Some((s@, j as int)) && i < j
                <= t@.len(),
            None => dec_str_body(t@, i as int) is None,
        },
    decreases t@.len() - i,
{
    if i >= t.len() {
        return None;
    }
    let c = t[i];
    if c == '"' {
        let v: Vec<char> = Vec::new();
        proof {
            assert(v@ =~= Seq::<char>::empty());
        }
        return Some((v, i + 1));
    }
    if c == '\\' {
        if i + 1 >= t.len() {
            return None;
        }
        let e = t[i + 1];
        if e == '"' || e == '\\' || e == 'n' || e == 'r' || e == 't' {
            match dec_str_body_exec(t, i + 2) {
                None => None,
                Some((mut s, j)) => {
                    let u = if e == '"' {
                        '"'
                    } else if e == '\\' {
                        '\\'
                    } else if e == 'n' {
                        '\n'
                    } else if e == 'r' {
                        '\r'
                    } else {
                        '\t'
                    };
                    let ghost pre = s@;
                    s.insert(0, u);
                    proof {
                        assert(s@ =~= seq![unesc2(e)] + pre);
                    }
                    Some((s, j))
                },
            }
        } else if e == 'u' {
            if t.len() - i < 6 {
                return None;
            }
            if t[i + 2] == '0' && t[i + 3] == '0' && is_hex_exec(t[i + 4]) && is_hex_exec(
                t[i + 5],
            ) {
                let v = hex_val_exec(t[i + 4]) * 16 + hex_val_exec(t[i + 5]);
                if v < 32 {
                    match dec_str_body_exec(t, i + 6) {
                        None => None,
                        Some((mut s, j)) => {
                            let ghost pre = s@;
                            s.insert(0, (v as u8) as char);
                            proof {
                                assert(s@ =~= seq![((v as u8) as char)] + pre);
                            }
                            Some((s, j))
                        },
                    }
                } else {
                    None
                }
            } else {
                None
            }
        } else {
            None
        }
    } else {
        match dec_str_body_exec(t, i + 1) {
            None => None,
            Some((mut s, j)) => {
                let ghost pre = s@;
                s.insert(0, c);
                proof {
                    assert(s@ =~= seq![t@[i as int]] + pre);
                }
                Some((s, j))
            },
        }
    }
}

fn dec_string_exec(t: &Vec<char>, i: usize) -> (r: Option<(Vec<char>, usize)>)
    ensures
        match r {
            Some((s, j)) => dec_string_spec(t@, i as int) == Some((s@, j as int)) && i < j
                <= t@.len(),
            None => dec_string_spec(t@, i as int) is None,
        },
{
    if i < t.len() && t[i] == '"' {
        dec_str_body_exec(t, i + 1)
    } else {
        None
    }
}

fn expect_exec(t: &Vec<char>, i: usize, lit: &Vec<char>) -> (r: Option<usize>)
    ensures
        match r {
            Some(j) => expect_spec(t@, i as int, lit@) == Some(j as int) && i <= j <= t@.len(),
            None => expect_spec(t@, i as int, lit@) is None,
        },
{
    let tl = t.len();
    if match_at_exec(t, lit, i) {
        proof {
            assert(i + lit@.len() <= tl);
        }
        Some(i + lit.len())
    } else {
        None
    }
}

fn dec_bool_exec(t: &Vec<char>, i: usize) -> (r: Option<(bool, usize)>)
    ensures
        match r {
            Some((b, j)) => dec_bool_spec(t@, i as int) == Some((b, j as int)) && i < j
                <= t@.len(),
            None => dec_bool_spec(t@, i as int) is None,
        },
{
    let tv = vec!['t', 'r', 'u', 'e'];
    let fv = vec!['f', 'a', 'l', 's', 'e'];
    proof {
        assert(tv@ =~= true_text());
        assert(fv@ =~= false_text());
    }
    let tl = t.len();
    if match_at_exec(t, &tv, i) {
        proof {
            assert(i + 4 <= tl);
        }
        Some((true, i + 4))
    } else if match_at_exec(t, &fv, i) {
        proof {
            assert(i + 5 <= tl);
        }
        Some((false, i + 5))
    } else {
        None
    }
}

fn null_vec() -> (v: Vec<char>)
    ensures
        v@ == null_text(),
{
    let v = vec!['n', 'u', 'l', 'l'];
    proof {
        assert(v@ =~= null_text());
    }
    v
}

fn dec_opt_string_exec(t: &Vec<char>, i: usize) -> (r: Option<(Option<String>, usize)>)
    ensures
        match r {
            Some((o, j)) => dec_opt_string_spec(t@, i as int) == Some(
                (opt_str_view(o), j as int),
            ) && i < j <= t@.len(),
            None => dec_opt_string_spec(t@, i as int) is None,
        },
{
    if i < t.len() && t[i] == '"' {
        match dec_string_exec(t, i) {
            None => None,
            Some((s, j)) => Some((Some(crate::strutil::string_of(&s)), j)),
        }
    } else {
        let nv = null_vec();
        let tl = t.len();
        if match_at_exec(t, &nv, i) {
            proof {
                assert(i + 4 <= tl);
            }
            Some((None, i + 4))
        } else {
            None
        }
    }
}

fn dec_opt_u64_exec(t: &Vec<char>, i: usize) -> (r: Option<(Option<u64>, usize)>)
    requires
        i <= t@.len(),
    ensures
        match r {
            Some((o, j)) => dec_opt_u64_spec(t@, i as int) == Some((o, j as int)) && i < j
                <= t@.len(),
            None => dec_opt_u64_spec(t@, i as int) is None,
        },
{
    if i < t.len() && is_digit(t[i]) {
        match dec_u64_exec(t, i) {
            None => None,
            Some((n, j)) => Some((Some(n), j)),
        }
    } else {
        let nv = null_vec();
        let tl = t.len();
        if match_at_exec(t, &nv, i) {
            proof {
                assert(i + 4 <= tl);
            }
            Some((None, i + 4))
        } else {
            None
        }
    }
}

fn dec_i32_exec(t: &Vec<char>, i: usize) -> (r: Option<(i32, usize)>)
    requires
        i <= t@.len(),
    ensures
        match r {
            Some((n, j)) => dec_i32_spec(t@, i as int) == Some((n as int, j as int)) && i < j
                <= t@.len(),
            None => dec_i32_spec(t@, i as int) is None,
        },
{
    if i < t.len() && t[i] == '-' {
        match dec_u64_exec(t, i + 1) {
            None => None,
            Some((n, j)) => {
                if n <= 0x8000_0000u64 {
                    let v: i32 = if n == 0x8000_0000u64 {
                        i32::MIN
                    } else {
                        -(n as i32)
                    };
                    Some((v, j))
                } else {
                    None
                }
            },
        }
    } else {
        match dec_u64_exec(t, i) {
            None => None,
            Some((n, j)) => {
                if n <= 0x7fff_ffffu64 {
                    Some((n as i32, j))
                } else {
                    None
                }
            },
        }
    }
}

fn dec_str_items_exec(t: &Vec<char>, i: usize) -> (r: Option<(Vec<String>, usize)>)
    ensures
        match r {
            Some((xs, j)) => dec_str_items(t@, i as int) == Some((xs.deep_view(), j as int)) && i
                < j <= t@.len(),
            None => dec_str_items(t@, i as int) is None,
        },
    decreases t@.len() - i,
{
    match dec_string_exec(t, i) {
        None => None,
        Some((s, j)) => {
            if j < t.len() && t[j] == ',' {
                match dec_str_items_exec(t, j + 1) {
                    None => None,
                    Some((mut xs, k)) => {
                        let ghost pre = xs.deep_view();
                        xs.insert(0, crate::strutil::string_of(&s));
                        proof {
                            assert(xs.deep_view() =~= seq![s@] + pre);
                        }
                        Some((xs, k))
                    },
                }
            } else if j < t.len() && t[j] == ']' {
                let mut xs: Vec<String> = Vec::new();
                xs.push(crate::strutil::string_of(&s));
                proof {
                    assert(xs.deep_view() =~= seq![s@]);
                }
                Some((xs, j + 1))
            } else {
                None
            }
        },
    }
}

fn dec_str_array_exec(t: &Vec<char>, i: usize) -> (r: Option<(Vec<String>, usize)>)
    ensures
        match r {
            Some((xs, j)) => dec_str_array_spec(t@, i as int) == Some(
                (xs.deep_view(), j as int),
            ) && i < j <= t@.len(),
            None => dec_str_array_spec(t@, i as int) is None,
        },
{
    if i < t.len() && t[i] == '[' {
        if i + 1 < t.len() && t[i + 1] == ']' {
            let xs: Vec<String> = Vec::new();
            proof {
                assert(xs.deep_view() =~= Seq::<Seq<char>>::empty());
            }
            Some((xs, i + 2))
        } else {
            dec_str_items_exec(t, i + 1)
        }
    } else {
        None
    }
}


/// Reads the opening fields of one script record.
#[verifier::rlimit(100)]
fn dec_script_head_exec(t: &Vec<char>, i: usize) -> (r: Option<
    ((String, String, String, bool, i32, Option<String>), usize),
>)
    ensures
        match r {
            Some(((id, name, code, enabled, order, url), j)) => dec_script_head(t@, i as int)
                == Some(
                (
                    ScriptHeadV {
                        id: id@,
                        name: name@,
                        code: code@,
                        enabled,
                        order: order as int,
                        url: opt_str_view(url),
                    },
                    j as int,
                ),
            ) && i <= j <= t@.len(),
            None => dec_script_head(t@, i as int) is None,
        },
{
    proof {
        reveal(dec_script_head);
    }
    let k_id_v = chars_of(K_ID);
    let k_name_v = chars_of(K_NAME);
    let k_code_v = chars_of(K_CODE);
    let k_enabled_v = chars_of(K_ENABLED);
    let k_order_v = chars_of(K_ORDER);
    let k_url_v = chars_of(K_URL);
    let i1 = match expect_exec(t, i, &k_id_v) {
        None => {
            return None;
        },
        Some(j) => j,
    };
    let (id, i2) = match dec_string_exec(t, i1) {
        None => {
            return None;
        },
        Some(p) => p,
    };
    let i3 = match expect_exec(t, i2, &k_name_v) {
        None => {
            return None;
        },
        Some(j) => j,
    };
    let (name, i4) = match dec_string_exec(t, i3) {
        None => {
            return None;
        },
        Some(p) => p,
    };
    let i5 = match expect_exec(t, i4, &k_code_v) {
        None => {
            return None;
        },
        Some(j) => j,
    };
    let (code, i6) = match dec_string_exec(t, i5) {
        None => {
            return None;
        },
        Some(p) => p,
    };
    let i7 = match expect_exec(t, i6, &k_enabled_v) {
        None => {
            return None;
        },
        Some(j) => j,
    };
    let (enabled, i8) = match dec_bool_exec(t, i7) {
        None => {
            return None;
        },
        Some(p) => p,
    };
    let i9 = match expect_exec(t, i8, &k_order_v) {
        None => {
            return None;
        },
        Some(j) => j,
    };
    let (order, i10) = match dec_i32_exec(t, i9) {
        None => {
            return None;
        },
        Some(p) => p,
    };
    let i11 = match expect_exec(t, i10, &k_url_v) {
        None => {
            return None;
        },
        Some(j) => j,
    };
    let (url, i12) = match dec_opt_string_exec(t, i11) {
        None => {
            return None;
        },
        Some(p) => p,
    };
    Some(
        (
            (
                crate::strutil::string_of(&id),
                crate::strutil::string_of(&name),
                crate::strutil::string_of(&code),
                enabled,
                order,
                url,
            ),
            i12,
        ),
    )
}

/// Reads the closing fields of one script record.
#[verifier::rlimit(100)]
fn dec_script_tail_exec(t: &Vec<char>, i: usize) -> (r: Option<
    ((Option<String>, Option<String>, Option<String>, Vec<String>, Option<u64>, Option<String>),
        usize,
    ),
>)
    ensures
        match r {
            Some(((version, description, author, reqs, last_updated, last_fetch_error), j)) => dec_script_tail(
                t@,
                i as int,
            ) == Some(
                (
                    ScriptTailV {
                        version: opt_str_view(version),
                        description: opt_str_view(description),
                        author: opt_str_view(author),
                        requires: reqs.deep_view(),
                        last_updated,
                        last_fetch_error: opt_str_view(last_fetch_error),
                    },
                    j as int,
                ),
            ) && i <= j <= t@.len(),
            None => dec_script_tail(t@, i as int) is None,
        },
{
    proof {
        reveal(dec_script_tail);
    }
    let k_version_v = chars_of(K_VERSION);
    let k_description_v = chars_of(K_DESCRIPTION);
    let k_author_v = chars_of(K_AUTHOR);
    let k_requires_v = chars_of(K_REQUIRES);
    let k_last_updated_v = chars_of(K_LAST_UPDATED);
    let k_last_fetch_error_v = chars_of(K_LAST_FETCH_ERROR);
    let rb = vec!['}'];
    proof {
        assert(rb@ =~= seq!['}']);
    }
    let i1 = match expect_exec(t, i, &k_version_v) {
        None => {
            return None;
        },
        Some(j) => j,
    };
    let (version, i2) = match dec_opt_string_exec(t, i1) {
        None => {
            return None;
        },
        Some(p) => p,
    };
    let i3 = match expect_exec(t, i2, &k_description_v) {
        None => {
            return None;
        },
        Some(j) => j,
    };
    let (description, i4) = match dec_opt_string_exec(t, i3) {
        None => {
            return None;
        },
        Some(p) => p,
    };
    let i5 = match expect_exec(t, i4, &k_author_v) {
        None => {
            return None;
        },
        Some(j) => j,
    };
    let (author, i6) = match dec_opt_string_exec(t, i5) {
        None => {
            return None;
        },
        Some(p) => p,
    };
    let i7 = match expect_exec(t, i6, &k_requires_v) {
        None => {
            return None;
        },
        Some(j) => j,
    };
    let (reqs, i8) = match dec_str_array_exec(t, i7) {
        None => {
            return None;
        },
        Some(p) => p,
    };
    let i9 = match expect_exec(t, i8, &k_last_updated_v) {
        None => {
            return None;
        },
        Some(j) => j,
    };
    let (last_updated, i10) = match dec_opt_u64_exec(t, i9) {
        None => {
            return None;
        },
        Some(p) => p,
    };
    let i11 = match expect_exec(t, i10, &k_last_fetch_error_v) {
        None => {
            return None;
        },
        Some(j) => j,
    };
    let (last_fetch_error, i12) = match dec_opt_string_exec(t, i11) {
        None => {
            return None;
        },
        Some(p) => p,
    };
    let done = match expect_exec(t, i12, &rb) {
        None => {
            return None;
        },
        Some(j) => j,
    };
    Some(((version, description, author, reqs, last_updated, last_fetch_error), done))
}

/// Reads one script record.
fn dec_script_exec(t: &Vec<char>, i: usize) -> (r: Option<(Script, usize)>)
    ensures
        match r {
            Some((s, j)) => dec_script_spec(t@, i as int) == Some((s@, j as int)) && i <= j
                <= t@.len(),
            None => dec_script_spec(t@, i as int) is None,
        },
{
    proof {
        reveal(dec_script_spec);
    }
    let ((id, name, code, enabled, order, url), j) = match dec_script_head_exec(t, i) {
        None => {
            return None;
        },
        Some(p) => p,
    };
    let ((version, description, author, reqs, last_updated, last_fetch_error), k) =
        match dec_script_tail_exec(t, j) {
        None => {
            return None;
        },
        Some(p) => p,
    };
    let s = Script {
        id,
        name,
        code,
        enabled,
        order,
        url,
        version,
        description,
        author,
        requires: reqs,
        last_updated,
        last_fetch_error,
    };
    Some((s, k))
}

fn dec_scripts_items_exec(t: &Vec<char>, i: usize) -> (r: Option<(Vec<Script>, usize)>)
    ensures
        match r {
            Some((xs, j)) => dec_scripts_items(t@, i as int) == Some(
                (xs.deep_view(), j as int),
            ) && i < j <= t@.len(),
            None => dec_scripts_items(t@, i as int) is None,
        },
    decreases t@.len() - i,
{
    proof {
        lemma_dec_script_bounds(t@, i as int);
    }
    match dec_script_exec(t, i) {
        None => None,
        Some((s, j)) => {
            if j < t.len() && t[j] == ',' {
                match dec_scripts_items_exec(t, j + 1) {
                    None => None,
                    Some((mut xs, k)) => {
                        let ghost pre = xs.deep_view();
                        xs.insert(0, s);
                        proof {
                            assert(xs.deep_view() =~= seq![xs@[0]@] + pre);
                        }
                        Some((xs, k))
                    },
                }
            } else if j < t.len() && t[j] == ']' {
                let ghost sv = s@;
                let mut xs: Vec<Script> = Vec::new();
                xs.push(s);
                proof {
                    assert(xs.deep_view() =~= seq![sv]);
                }
                Some((xs, j + 1))
            } else {
                None
            }
        },
    }
}

/// Reads a script store document; anything but the canonical layout loads as
/// the empty collection.
pub fn decode_scripts_doc(text: &str) -> (r: Vec<Script>)
    ensures
        match dec_scripts_doc(text@) {
            Some(ss) => r.deep_view() == ss,
            None => r.deep_view() =~= Seq::<ScriptV>::empty(),
        },
{
    let t = chars_of(text);
    if t.len() == 2 && t[0] == '[' && t[1] == ']' {
        let r: Vec<Script> = Vec::new();
        proof {
            assert(r.deep_view() =~= Seq::<ScriptV>::empty());
        }
        return r;
    }
    if t.len() > 0 && t[0] == '[' {
        match dec_scripts_items_exec(&t, 1) {
            None => {
                let r: Vec<Script> = Vec::new();
                proof {
                    assert(r.deep_view() =~= Seq::<ScriptV>::empty());
                }
                r
            },
            Some((xs, j)) => {
                if j == t.len() {
                    xs
                } else {
                    let r: Vec<Script> = Vec::new();
                    proof {
                        assert(r.deep_view() =~= Seq::<ScriptV>::empty());
                    }
                    r
                }
            },
        }
    } else {
        let r: Vec<Script> = Vec::new();
        proof {
            assert(r.deep_view() =~= Seq::<ScriptV>::empty());
        }
        r
    }
}

/// Reads one cache entry.
#[verifier::rlimit(100)]
fn dec_dep_exec(t: &Vec<char>, i: usize) -> (r: Option<(Dependency, usize)>)
    ensures
        match r {
            Some((d, j)) => dec_dep_spec(t@, i as int) == Some((d@, j as int)) && i < j
                <= t@.len(),
            None => dec_dep_spec(t@, i as int) is None,
        },
{
    proof {
        reveal(dec_dep_spec);
    }
    let colon = vec![':'];
    let rb = vec!['}'];
    proof {
        assert(colon@ =~= seq![':']);
        assert(rb@ =~= seq!['}']);
    }
    let dk_url_v = chars_of(DK_URL);
    let k_code_v = chars_of(K_CODE);
    let k_last_updated_v = chars_of(K_LAST_UPDATED);
    let (_key, i1) = match dec_string_exec(t, i) {
        None => {
            return None;
        },
        Some(p) => p,
    };
    let i2 = match expect_exec(t, i1, &colon) {
        None => {
            return None;
        },
        Some(j) => j,
    };
    let i3 = match expect_exec(t, i2, &dk_url_v) {
        None => {
            return None;
        },
        Some(j) => j,
    };
    let (url, i4) = match dec_string_exec(t, i3) {
        None => {
            return None;
        },
        Some(p) => p,
    };
    let i5 = match expect_exec(t, i4, &k_code_v) {
        None => {
            return None;
        },
        Some(j) => j,
    };
    let (code, i6) = match dec_string_exec(t, i5) {
        None => {
            return None;
        },
        Some(p) => p,
    };
    let i7 = match expect_exec(t, i6, &k_last_updated_v) {
        None => {
            return None;
        },
        Some(j) => j,
    };
    let (lu, i8) = match dec_u64_exec(t, i7) {
        None => {
            return None;
        },
        Some(p) => p,
    };
    let i9 = match expect_exec(t, i8, &rb) {
        None => {
            return None;
        },
        Some(j) => j,
    };
    let d = Dependency {
        url: crate::strutil::string_of(&url),
        code: crate::strutil::string_of(&code),
        last_updated: lu,
    };
    Some((d, i9))
}

fn dec_deps_items_exec(t: &Vec<char>, i: usize) -> (r: Option<(Vec<Dependency>, usize)>)
    ensures
        match r {
            Some((xs, j)) => dec_deps_items(t@, i as int) == Some((xs.deep_view(), j as int)) && i
                < j <= t@.len(),
            None => dec_deps_items(t@, i as int) is None,
        },
    decreases t@.len() - i,
{
    proof {
        lemma_dec_dep_bounds(t@, i as int);
    }
    match dec_dep_exec(t, i) {
        None => None,
        Some((d, j)) => {
            if j < t.len() && t[j] == ',' {
                match dec_deps_items_exec(t, j + 1) {
                    None => None,
                    Some((mut xs, k)) => {
                        let ghost pre = xs.deep_view();
                        xs.insert(0, d);
                        proof {
                            assert(xs.deep_view() =~= seq![xs@[0]@] + pre);
                        }
                        Some((xs, k))
                    },
                }
            } else if j < t.len() && t[j] == '}' {
                let ghost dv = d@;
                let mut xs: Vec<Dependency> = Vec::new();
                xs.push(d);
                proof {
                    assert(xs.deep_view() =~= seq![dv]);
                }
                Some((xs, j + 1))
            } else {
                None
            }
        },
    }
}

/// Reads a dependency cache document; anything but the canonical layout
/// loads as the empty collection.
pub fn decode_deps_doc(text: &str) -> (r: Vec<Dependency>)
    ensures
        match dec_deps_doc(text@) {
            Some(ds) => r.deep_view() == ds,
            None => r.deep_view() =~= Seq::<DepV>::empty(),
        },
{
    let t = chars_of(text);
    if t.len() == 2 && t[0] == '{' && t[1] == '}' {
        let r: Vec<Dependency> = Vec::new();
        proof {
            assert(r.deep_view() =~= Seq::<DepV>::empty());
        }
        return r;
    }
    if t.len() > 0 && t[0] == '{' {
        match dec_deps_items_exec(&t, 1) {
            None => {
                let r: Vec<Dependency> = Vec::new();
                proof {
                    assert(r.deep_view() =~= Seq::<DepV>::empty());
                }
                r
            },
            Some((xs, j)) => {
                if j == t.len() {
                    xs
                } else {
                    let r: Vec<Dependency> = Vec::new();
                    proof {
                        assert(r.deep_view() =~= Seq::<DepV>::empty());
                    }
                    r
                }
            },
        }
    } else {
        let r: Vec<Dependency> = Vec::new();
        proof {
            assert(r.deep_view() =~= Seq::<DepV>::empty());
        }
        r
    }
}

} // verus!
