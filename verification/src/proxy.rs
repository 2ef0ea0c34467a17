//! The cross-origin HTTP proxy's computable parts. A page-context script
//! hands the bridge a request bag: URL, optional method, optional headers,
//! optional body. The trusted side performs the request free of the page's
//! origin restrictions; this module owns what can be decided without the
//! network: the method defaults to GET and is matched case-insensitively
//! against the known verbs, and the response's headers are serialized as one
//! block of `name: value` lines.
use vstd::prelude::*;
use crate::strutil::opt_str_view;

verus! {

/// The verbs the proxy issues; anything unrecognized falls back to GET.
#[derive(Debug, PartialEq, Eq, Clone, Copy)]
pub enum HttpMethod {
    Get,
    Post,
    Put,
    Delete,
    Head,
    Patch,
}

/// ASCII uppercase of one character.
pub open spec fn upper_char(c: char) -> char {
    if 'a' <= c <= 'z' {
        (((c as u32) - 32) as u8) as char
    } else {
        c
    }
}

pub open spec fn upper_seq(s: Seq<char>) -> Seq<char> {
    s.map_values(|c: char| upper_char(c))
}

fn upper_char_exec(c: char) -> (r: char)
    ensures
        r == upper_char(c),
{
    if 'a' <= c && c <= 'z' {
        (((c as u32) - 32) as u8) as char
    } else {
        c
    }
}

pub open spec fn post_word() -> Seq<char> {
    seq!['P', 'O', 'S', 'T']
}

pub open spec fn put_word() -> Seq<char> {
    seq!['P', 'U', 'T']
}

pub open spec fn delete_word() -> Seq<char> {
    seq!['D', 'E', 'L', 'E', 'T', 'E']
}

pub open spec fn head_word() -> Seq<char> {
    seq!['H', 'E', 'A', 'D']
}

pub open spec fn patch_word() -> Seq<char> {
    seq!['P', 'A', 'T', 'C', 'H']
}

/// The verb a request bag names: its method uppercased and matched, GET when
/// absent or unrecognized.
pub open spec fn method_of(m: Option<Seq<char>>) -> HttpMethod {
    match m {
        None => HttpMethod::Get,
        Some(s) => {
            let u = upper_seq(s);
            if u == post_word() {
                HttpMethod::Post
            } else if u == put_word() {
                HttpMethod::Put
            } else if u == delete_word() {
                HttpMethod::Delete
            } else if u == head_word() {
                HttpMethod::Head
            } else if u == patch_word() {
                HttpMethod::Patch
            } else {
                HttpMethod::Get
            }
        },
    }
}

fn seq_eq_exec(a: &Vec<char>, b: &Vec<char>) -> (r: bool)
    ensures
        r == (a@ == b@),
{
    if a.len() != b.len() {
        return false;
    }
    let mut k: usize = 0;
    while k < a.len()
        invariant
            a@.len() == b@.len(),
            k <= a@.len(),
            forall|t: int| 0 <= t < k ==> a@[t] == b@[t],
        decreases a@.len() - k,
    {
        if a[k] != b[k] {
            return false;
        }
        k = k + 1;
    }
    proof {
        assert(a@ =~= b@);
    }
    true
}

/// Decides which verb the proxy issues for a request bag's method field.
pub fn normalize_method(m: &Option<String>) -> (r: HttpMethod)
    ensures
        r == method_of(opt_str_view(*m)),
{
    match m {
        None => HttpMethod::Get,
        Some(s) => {
            let cs = crate::strutil::chars_of(s.as_str());
            let mut up: Vec<char> = Vec::new();
            let mut k: usize = 0;
            while k < cs.len()
                invariant
                    k <= cs@.len(),
                    up@ =~= upper_seq(cs@.take(k as int)),
                decreases cs@.len() - k,
            {
                up.push(upper_char_exec(cs[k]));
                proof {
                    assert(up@ =~= upper_seq(cs@.take(k + 1 as int)));
                }
                k = k + 1;
            }
            proof {
                assert(cs@.take(cs@.len() as int) =~= cs@);
            }
            let post = vec!['P', 'O', 'S', 'T'];
            let put = vec!['P', 'U', 'T'];
            let delete = vec!['D', 'E', 'L', 'E', 'T', 'E'];
            let head = vec!['H', 'E', 'A', 'D'];
            let patch = vec!['P', 'A', 'T', 'C', 'H'];
            proof {
                assert(post@ =~= post_word());
                assert(put@ =~= put_word());
                assert(delete@ =~= delete_word());
                assert(head@ =~= head_word());
                assert(patch@ =~= patch_word());
            }
            if seq_eq_exec(&up, &post) {
                HttpMethod::Post
            } else if seq_eq_exec(&up, &put) {
                HttpMethod::Put
            } else if seq_eq_exec(&up, &delete) {
                HttpMethod::Delete
            } else if seq_eq_exec(&up, &head) {
                HttpMethod::Head
            } else if seq_eq_exec(&up, &patch) {
                HttpMethod::Patch
            } else {
                HttpMethod::Get
            }
        },
    }
}

/// One `name: value` header line.
pub open spec fn header_line(k: Seq<char>, v: Seq<char>) -> Seq<char> {
    k + seq![':', ' '] + v
}

/// The view of a header list.
pub open spec fn headers_view(hs: Seq<(String, String)>) -> Seq<(Seq<char>, Seq<char>)> {
    hs.map_values(|p: (String, String)| (p.0@, p.1@))
}

/// The serialized header block: every `name: value` line joined by CRLF.
pub open spec fn headers_text(hs: Seq<(Seq<char>, Seq<char>)>, from: int) -> Seq<char>
    decreases hs.len() - from when 0 <= from <= hs.len()
{
    if from >= hs.len() {
        Seq::empty()
    } else if from == hs.len() - 1 {
        header_line(hs[from].0, hs[from].1)
    } else {
        header_line(hs[from].0, hs[from].1) + seq!['\r', '\n'] + headers_text(hs, from + 1)
    }
}

/// Serializes response headers as one newline-joined `name: value` block.
pub fn join_headers(hs: &Vec<(String, String)>) -> (r: String)
    ensures
        r@ == headers_text(headers_view(hs@), 0),
{
    let ghost hv = headers_view(hs@);
    let mut out: Vec<char> = Vec::new();
    let mut k: usize = 0;
    proof {
        if hv.len() > 0 {
            assert(headers_text(hv, 0) =~= (out@ + crlf_sep(0)) + headers_text(hv, 0));
        }
    }
    while k < hs.len()
        invariant
            hv == headers_view(hs@),
            hv.len() == hs@.len(),
            k <= hs@.len(),
            (k as int) < hv.len() ==> headers_text(hv, 0) == (out@ + crlf_sep(k as int))
                + headers_text(hv, k as int),
            k == hv.len() && k == 0 ==> out@ == Seq::<char>::empty(),
            k == hv.len() && k > 0 ==> out@ == headers_text(hv, 0),
        decreases hs@.len() - k,
    {
        if k > 0 {
            out.push('\r');
            out.push('\n');
        }
        let kc = crate::strutil::chars_of(hs[k].0.as_str());
        crate::strutil::push_all(&mut out, &kc);
        out.push(':');
        out.push(' ');
        let vc = crate::strutil::chars_of(hs[k].1.as_str());
        crate::strutil::push_all(&mut out, &vc);
        proof {
            assert(hv[k as int] == (hs@[k as int].0@, hs@[k as int].1@));
            if k + 1 < hv.len() {
                assert(headers_text(hv, k as int) == header_line(hv[k as int].0, hv[k as int].1)
                    + seq!['\r', '\n'] + headers_text(hv, k + 1));
                assert(headers_text(hv, 0) =~= (out@ + crlf_sep(k + 1)) + headers_text(
                    hv,
                    k + 1,
                ));
            } else {
                assert(headers_text(hv, k as int) == header_line(hv[k as int].0, hv[k as int].1));
                assert(out@ =~= headers_text(hv, 0));
            }
        }
        k = k + 1;
    }
    proof {
        if hv.len() == 0 {
            assert(out@ =~= headers_text(hv, 0));
        }
    }
    crate::strutil::string_of(&out)
}

/// The separator standing before every header line but the first.
pub open spec fn crlf_sep(k: int) -> Seq<char> {
    if k > 0 {
        seq!['\r', '\n']
    } else {
        Seq::empty()
    }
}

/// What the proxy hands back to the page: status code, status text, body
/// text and the serialized header block — or an error string, never both.
#[derive(Debug)]
pub struct ProxyResponse {
    pub status: u16,
    pub status_text: String,
    pub body: String,
    pub headers_joined: String,
}

/// Assembles the proxy's reply from the pieces the transport produced. A
/// missing reason phrase becomes the empty string.
pub fn assemble_proxy_response(
    status: u16,
    status_text: Option<String>,
    headers: &Vec<(String, String)>,
    body: String,
) -> (r: ProxyResponse)
    ensures
        r.status == status,
        r.status_text@ == reason_or_empty(opt_str_view(status_text)),
        r.body@ == body@,
        r.headers_joined@ == headers_text(headers_view(headers@), 0),
{
    let text = match status_text {
        Some(s) => s,
        None => String::new(),
    };
    ProxyResponse { status, status_text: text, body, headers_joined: join_headers(headers) }
}

pub open spec fn reason_or_empty(r: Option<Seq<char>>) -> Seq<char> {
    match r {
        Some(s) => s,
        None => Seq::empty(),
    }
}

} // verus!
