//! Remote fetch validation and the fetch-with-dependencies session.
//!
//! The library never performs network I/O itself. A caller asks a session
//! which URL to GET next, performs the request, and hands back the outcome:
//! either a transport failure or the response's status, reason, content type
//! and body. The library validates URLs before any request is issued,
//! classifies every outcome, parses metadata, and decides which declared
//! dependency URLs still have to be fetched — skipping those already cached.
use vstd::prelude::*;
use vstd::string::StringExecFns;
use vstd::utf8::encode_utf8;
use crate::errors::{FetchErrV, FetchError, RegErrV, RegistryError};
use crate::meta::{Metadata, MetaSpec, https_prefix, parse_metadata, parse_metadata_spec};
use crate::script::{DepV, Dependency, dep_cached};
use crate::strutil::{
    chars_of, contains_exec, contains_seq, match_at, match_at_exec, opt_str_view,
};

verus! {

/// A transport-level failure reported by the caller performing the request.
#[derive(Debug)]
pub enum TransportError {
    /// The request exceeded the fixed timeout.
    TimedOut,
    /// The connection could not be established.
    ConnectFailed,
    /// Any other transport failure; carries the underlying message.
    Other(String),
}

pub ghost enum TransportErrV {
    TimedOut,
    ConnectFailed,
    Other(Seq<char>),
}

impl View for TransportError {
    type V = TransportErrV;

    open spec fn view(&self) -> TransportErrV {
        match *self {
            TransportError::TimedOut => TransportErrV::TimedOut,
            TransportError::ConnectFailed => TransportErrV::ConnectFailed,
            TransportError::Other(m) => TransportErrV::Other(m@),
        }
    }
}

/// What came back from a completed HTTP request.
#[derive(Debug)]
pub struct HttpResponse {
    pub status: u16,
    /// The status line's reason phrase, when the caller knows one.
    pub reason: Option<String>,
    /// The content-type header, when present.
    pub content_type: Option<String>,
    pub body: String,
}

pub ghost struct HttpResponseV {
    pub status: u16,
    pub reason: Option<Seq<char>>,
    pub content_type: Option<Seq<char>>,
    pub body: Seq<char>,
}

impl View for HttpResponse {
    type V = HttpResponseV;

    open spec fn view(&self) -> HttpResponseV {
        HttpResponseV {
            status: self.status,
            reason: opt_str_view(self.reason),
            content_type: opt_str_view(self.content_type),
            body: self.body@,
        }
    }
}

/// The outcome of one attempted HTTP GET, as the caller saw it.
#[derive(Debug)]
pub enum FetchOutcome {
    Transport(TransportError),
    Response(HttpResponse),
}

pub ghost enum FetchOutcomeV {
    Transport(TransportErrV),
    Response(HttpResponseV),
}

impl View for FetchOutcome {
    type V = FetchOutcomeV;

    open spec fn view(&self) -> FetchOutcomeV {
        match *self {
            FetchOutcome::Transport(t) => FetchOutcomeV::Transport(t@),
            FetchOutcome::Response(r) => FetchOutcomeV::Response(r@),
        }
    }
}

/// A URL the fetcher accepts: it starts with `https://`.
pub open spec fn is_https_url(u: Seq<char>) -> bool {
    match_at(u, https_prefix(), 0)
}

/// Whether the URL starts with `https://`.
pub fn check_https(url: &str) -> (r: bool)
    ensures
        r == is_https_url(url@),
{
    let cs = chars_of(url);
    let p = vec!['h', 't', 't', 'p', 's', ':', '/', '/'];
    proof {
        assert(p@ =~= https_prefix());
    }
    match_at_exec(&cs, &p, 0)
}

/// A content type accepted for script payloads.
pub open spec fn content_type_accepted(ct: Seq<char>) -> bool {
    contains_seq(ct, "javascript"@) || contains_seq(ct, "text/plain"@)
}

/// The byte ceiling on response bodies.
pub const MAX_BODY_BYTES: usize = 10485760;

/// The body is over the size ceiling, measured in encoded bytes.
pub open spec fn body_too_large(body: Seq<char>) -> bool {
    encode_utf8(body).len() as usize > MAX_BODY_BYTES
}

pub open spec fn reason_text(r: Option<Seq<char>>) -> Seq<char> {
    match r {
        Some(s) => s,
        None => "Unknown error"@,
    }
}

pub open spec fn classify_size(body: Seq<char>) -> Result<Seq<char>, FetchErrV> {
    if body_too_large(body) {
        Err(FetchErrV::TooLarge)
    } else {
        Ok(body)
    }
}

pub open spec fn classify_response(resp: HttpResponseV) -> Result<Seq<char>, FetchErrV> {
    if !(200 <= resp.status && resp.status < 300) {
        Err(FetchErrV::HttpStatus(resp.status, reason_text(resp.reason)))
    } else {
        match resp.content_type {
            Some(ct) => if !content_type_accepted(ct) {
                Err(FetchErrV::ContentType(ct))
            } else {
                classify_size(resp.body)
            },
            None => classify_size(resp.body),
        }
    }
}

/// How one fetch outcome for `url` is judged: transport failures are
/// classified, a response is held to status, content-type and size checks,
/// and only then is its body released.
pub open spec fn classify_spec(url: Seq<char>, o: FetchOutcomeV) -> Result<Seq<char>, FetchErrV> {
    match o {
        FetchOutcomeV::Transport(TransportErrV::TimedOut) => Err(FetchErrV::Timeout),
        FetchOutcomeV::Transport(TransportErrV::ConnectFailed) => Err(FetchErrV::Connect(url)),
        FetchOutcomeV::Transport(TransportErrV::Other(m)) => Err(FetchErrV::Network(m)),
        FetchOutcomeV::Response(resp) => classify_response(resp),
    }
}

/// Judges one fetch outcome, returning the body or the classified error.
pub fn classify_outcome(url: &str, o: FetchOutcome) -> (r: Result<String, FetchError>)
    ensures
        match r {
            Ok(b) => classify_spec(url@, o@) == Ok::<Seq<char>, FetchErrV>(b@),
            Err(e) => classify_spec(url@, o@) == Err::<Seq<char>, FetchErrV>(e@),
        },
{
    match o {
        FetchOutcome::Transport(TransportError::TimedOut) => Err(FetchError::Timeout),
        FetchOutcome::Transport(TransportError::ConnectFailed) => Err(
            FetchError::Connect(url.to_owned()),
        ),
        FetchOutcome::Transport(TransportError::Other(m)) => Err(FetchError::Network(m)),
        FetchOutcome::Response(resp) => {
            if !(200 <= resp.status && resp.status < 300) {
                let reason = match resp.reason {
                    Some(s) => s,
                    None => String::from_str("Unknown error"),
                };
                return Err(FetchError::HttpStatus(resp.status, reason));
            }
            match resp.content_type {
                Some(ct) => {
                    let cv = chars_of(ct.as_str());
                    let js = chars_of("javascript");
                    let plain = chars_of("text/plain");
                    if !contains_exec(&cv, &js) && !contains_exec(&cv, &plain) {
                        return Err(FetchError::ContentType(ct));
                    }
                },
                None => {},
            }
            if resp.body.as_str().len() > MAX_BODY_BYTES {
                return Err(FetchError::TooLarge);
            }
            Ok(resp.body)
        },
    }
}

// --- the fetch-with-dependencies session ---

/// Where a session stands.
#[derive(Debug)]
pub enum SessionPhase {
    /// The script body itself is being fetched.
    AwaitBody,
    /// The body arrived and parsed; `pending[next]` is being fetched.
    AwaitDep { code: String, meta: Metadata, pending: Vec<String>, next: usize },
    /// Everything arrived.
    Complete { code: String, meta: Metadata },
    /// The pipeline aborted.
    Failed { error: RegistryError },
}

pub ghost enum PhaseV {
    AwaitBody,
    AwaitDep { code: Seq<char>, meta: MetaSpec, pending: Seq<Seq<char>>, next: int },
    Complete { code: Seq<char>, meta: MetaSpec },
    Failed { error: RegErrV },
}

impl View for SessionPhase {
    type V = PhaseV;

    open spec fn view(&self) -> PhaseV {
        match *self {
            SessionPhase::AwaitBody => PhaseV::AwaitBody,
            SessionPhase::AwaitDep { code, meta, pending, next } => PhaseV::AwaitDep {
                code: code@,
                meta: meta.mview(),
                pending: pending.deep_view(),
                next: next as int,
            },
            SessionPhase::Complete { code, meta } => PhaseV::Complete {
                code: code@,
                meta: meta.mview(),
            },
            SessionPhase::Failed { error } => PhaseV::Failed { error: error@ },
        }
    }
}

/// One run of the fetch-with-dependencies pipeline for a single source URL.
/// Dependencies fetched by the session are kept in `acquired`, in fetch
/// order, whether or not the session ultimately fails: the cache keeps what
/// was fetched even when the operation aborts.
#[derive(Debug)]
pub struct FetchSession {
    pub url: String,
    pub phase: SessionPhase,
    pub acquired: Vec<Dependency>,
}

pub ghost struct SessionV {
    pub url: Seq<char>,
    pub phase: PhaseV,
    pub acquired: Seq<DepV>,
}

impl View for FetchSession {
    type V = SessionV;

    open spec fn view(&self) -> SessionV {
        SessionV { url: self.url@, phase: self.phase@, acquired: self.acquired.deep_view() }
    }
}

impl SessionV {
    /// While a dependency is awaited, its index is in range and its URL has
    /// already passed the scheme check.
    pub open spec fn wf(self) -> bool {
        match self.phase {
            PhaseV::AwaitDep { pending, next, .. } => 0 <= next < pending.len() && is_https_url(
                pending[next],
            ),
            _ => true,
        }
    }
}

/// After a body or dependency arrived: either the next pending dependency is
/// awaited, or a pending URL failing the scheme check aborts the session
/// without a request, or the session completes.
pub open spec fn advance_spec(
    url: Seq<char>,
    code: Seq<char>,
    meta: MetaSpec,
    pending: Seq<Seq<char>>,
    next: int,
    acquired: Seq<DepV>,
) -> SessionV {
    if next >= pending.len() {
        SessionV { url, phase: PhaseV::Complete { code, meta }, acquired }
    } else if !is_https_url(pending[next]) {
        SessionV {
            url,
            phase: PhaseV::Failed {
                error: RegErrV::DependencyFetch(pending[next], FetchErrV::Security),
            },
            acquired,
        }
    } else {
        SessionV { url, phase: PhaseV::AwaitDep { code, meta, pending, next }, acquired }
    }
}

/// The session's transition on one fetch outcome. On the body: classify,
/// parse metadata, and keep as pending exactly the declared dependency URLs
/// not in `cache`. On a dependency: classify, record it with timestamp
/// `now`, and move to the next pending URL. A classification failure on the
/// body aborts with that fetch error; one on a dependency aborts naming the
/// dependency's URL. A terminal session is left unchanged.
pub open spec fn step_spec(s: SessionV, o: FetchOutcomeV, cache: Seq<DepV>, now: u64) -> SessionV {
    match s.phase {
        PhaseV::AwaitBody => match classify_spec(s.url, o) {
            Err(e) => SessionV {
                url: s.url,
                phase: PhaseV::Failed { error: RegErrV::Fetch(e) },
                acquired: s.acquired,
            },
            Ok(body) => {
                let meta = parse_metadata_spec(body);
                let pending = meta.requires.filter(|u: Seq<char>| !dep_cached(cache, u));
                advance_spec(s.url, body, meta, pending, 0, s.acquired)
            },
        },
        PhaseV::AwaitDep { code, meta, pending, next } => match classify_spec(pending[next], o) {
            Err(e) => SessionV {
                url: s.url,
                phase: PhaseV::Failed { error: RegErrV::DependencyFetch(pending[next], e) },
                acquired: s.acquired,
            },
            Ok(dep_code) => advance_spec(
                s.url,
                code,
                meta,
                pending,
                next + 1,
                s.acquired.push(DepV { url: pending[next], code: dep_code, last_updated: now }),
            ),
        },
        _ => s,
    }
}

/// Some cached dependency carries this URL.
pub fn dep_in_cache(cache: &Vec<Dependency>, url: &String) -> (r: bool)
    ensures
        r == dep_cached(cache.deep_view(), url@),
{
    let mut k: usize = 0;
    while k < cache.len()
        invariant
            k <= cache@.len(),
            forall|t: int| 0 <= t < k ==> cache.deep_view()[t].url != url@,
        decreases cache@.len() - k,
    {
        if cache[k].url.eq(url) {
            assert(cache.deep_view()[k as int].url == url@);
            return true;
        }
        assert(cache.deep_view()[k as int].url != url@);
        k = k + 1;
    }
    false
}

fn advance(
    url: String,
    code: String,
    meta: Metadata,
    pending: Vec<String>,
    next: usize,
    acquired: Vec<Dependency>,
) -> (r: FetchSession)
    requires
        next <= pending.deep_view().len(),
    ensures
        r@ == advance_spec(url@, code@, meta.mview(), pending.deep_view(), next as int,
        acquired.deep_view()),
        r@.wf(),
{
    if next >= pending.len() {
        FetchSession { url, phase: SessionPhase::Complete { code, meta }, acquired }
    } else if !check_https(pending[next].as_str()) {
        let u = pending[next].clone();
        FetchSession {
            url,
            phase: SessionPhase::Failed {
                error: RegistryError::DependencyFetch(u, FetchError::Security),
            },
            acquired,
        }
    } else {
        FetchSession { url, phase: SessionPhase::AwaitDep { code, meta, pending, next }, acquired }
    }
}

impl FetchSession {
    /// Opens a session for `url`. A URL failing the scheme check is rejected
    /// before any request is made.
    pub fn start(url: &str) -> (r: Result<FetchSession, RegistryError>)
        ensures
            is_https_url(url@) ==> (r matches Ok(s) && s@ == (SessionV {
                url: url@,
                phase: PhaseV::AwaitBody,
                acquired: Seq::empty(),
            }) && s@.wf()),
            !is_https_url(url@) ==> (r matches Err(e) && e@ == RegErrV::Fetch(FetchErrV::Security)),
    {
        if check_https(url) {
            let s = FetchSession {
                url: url.to_owned(),
                phase: SessionPhase::AwaitBody,
                acquired: Vec::new(),
            };
            proof {
                assert(s.acquired.deep_view() =~= Seq::<DepV>::empty());
            }
            Ok(s)
        } else {
            Err(RegistryError::Fetch(FetchError::Security))
        }
    }

    /// The URL the caller should GET now, or nothing when the session is
    /// terminal.
    pub fn next_request(&self) -> (r: Option<String>)
        requires
            self@.wf(),
        ensures
            match self@.phase {
                PhaseV::AwaitBody => r matches Some(u) && u@ == self@.url,
                PhaseV::AwaitDep { pending, next, .. } => r matches Some(u) && u@ == pending[next],
                _ => r is None,
            },
    {
        match &self.phase {
            SessionPhase::AwaitBody => Some(self.url.clone()),
            SessionPhase::AwaitDep { pending, next, .. } => Some(pending[*next].clone()),
            SessionPhase::Complete { .. } => None,
            SessionPhase::Failed { .. } => None,
        }
    }

    /// Whether the session still awaits an outcome.
    pub fn is_pending(&self) -> (r: bool)
        ensures
            r == (self@.phase is AwaitBody || self@.phase is AwaitDep),
    {
        match &self.phase {
            SessionPhase::AwaitBody => true,
            SessionPhase::AwaitDep { .. } => true,
            SessionPhase::Complete { .. } => false,
            SessionPhase::Failed { .. } => false,
        }
    }

    /// Feeds the outcome of the GET the session last asked for.
    pub fn step(self, outcome: FetchOutcome, cache: &Vec<Dependency>, now: u64) -> (r:
        FetchSession)
        requires
            self@.wf(),
        ensures
            r@ == step_spec(self@, outcome@, cache.deep_view(), now),
            r@.wf(),
    {
        let FetchSession { url, phase, acquired } = self;
        match phase {
            SessionPhase::AwaitBody => {
                match classify_outcome(url.as_str(), outcome) {
                    Err(e) => FetchSession {
                        url,
                        phase: SessionPhase::Failed { error: RegistryError::Fetch(e) },
                        acquired,
                    },
                    Ok(body) => {
                        let meta = parse_metadata(body.as_str());
                        let ghost req_view = meta.requires.deep_view();
                        let ghost pred = |u: Seq<char>| !dep_cached(cache.deep_view(), u);
                        let mut pending: Vec<String> = Vec::new();
                        let mut k: usize = 0;
                        proof {
                            reveal(Seq::filter);
                            assert(pending.deep_view() =~= req_view.take(0).filter(pred));
                        }
                        while k < meta.requires.len()
                            invariant
                                k <= meta.requires@.len(),
                                req_view == meta.requires.deep_view(),
                                pred == (|u: Seq<char>| !dep_cached(cache.deep_view(), u)),
                                pending.deep_view() == req_view.take(k as int).filter(pred),
                            decreases meta.requires@.len() - k,
                        {
                            proof {
                                reveal(Seq::filter);
                                assert(req_view.take(k + 1 as int).drop_last() =~= req_view.take(
                                    k as int,
                                ));
                                assert(req_view.take(k + 1 as int).last() == req_view[k as int]);
                                assert(req_view[k as int] == meta.requires@[k as int]@);
                            }
                            let cached = dep_in_cache(cache, &meta.requires[k]);
                            proof {
                                assert(pred(req_view[k as int]) == !cached);
                            }
                            if !cached {
                                let ghost pre = pending.deep_view();
                                pending.push(meta.requires[k].clone());
                                proof {
                                    reveal(Seq::filter);
                                    assert(pending.deep_view() =~= pre.push(req_view[k as int]));
                                    assert(req_view.take(k + 1 as int).filter(pred) == req_view.take(
                                        k as int,
                                    ).filter(pred).push(req_view[k as int]));
                                }
                            } else {
                                proof {
                                    reveal(Seq::filter);
                                    assert(req_view.take(k + 1 as int).filter(pred) == req_view.take(
                                        k as int,
                                    ).filter(pred));
                                }
                            }
                            k = k + 1;
                        }
                        proof {
                            assert(req_view.take(req_view.len() as int) =~= req_view);
                        }
                        advance(url, body, meta, pending, 0, acquired)
                    },
                }
            },
            SessionPhase::AwaitDep { code, meta, pending, next } => {
                let plen = pending.len();
                proof {
                    assert(next < plen);
                }
                let dep_url = pending[next].clone();
                match classify_outcome(dep_url.as_str(), outcome) {
                    Err(e) => FetchSession {
                        url,
                        phase: SessionPhase::Failed {
                            error: RegistryError::DependencyFetch(dep_url, e),
                        },
                        acquired,
                    },
                    Ok(dep_code) => {
                        let mut acq = acquired;
                        let ghost pre = acq.deep_view();
                        acq.push(Dependency { url: dep_url, code: dep_code, last_updated: now });
                        proof {
                            assert(acq.deep_view() =~= pre.push(
                                DepV {
                                    url: pending.deep_view()[next as int],
                                    code: acq@[acq@.len() - 1].code@,
                                    last_updated: now,
                                },
                            ));
                        }
                        advance(url, code, meta, pending, next + 1, acq)
                    },
                }
            },
            SessionPhase::Complete { code, meta } => FetchSession {
                url,
                phase: SessionPhase::Complete { code, meta },
                acquired,
            },
            SessionPhase::Failed { error } => FetchSession {
                url,
                phase: SessionPhase::Failed { error },
                acquired,
            },
        }
    }
}

/// Law: a dependency URL already cached when the script body arrives is never
/// among the session's pending requests.
pub proof fn lemma_cached_dep_not_requested(
    s: SessionV,
    o: FetchOutcomeV,
    cache: Seq<DepV>,
    now: u64,
    u: Seq<char>,
)
    requires
        s.phase is AwaitBody,
        dep_cached(cache, u),
    ensures
        (step_spec(s, o, cache, now).phase matches PhaseV::AwaitDep { pending, .. })
            ==> !step_spec(s, o, cache, now).phase->AwaitDep_pending.contains(u),
{
    match classify_spec(s.url, o) {
        Err(_) => {},
        Ok(body) => {
            let meta = parse_metadata_spec(body);
            let pred = |x: Seq<char>| !dep_cached(cache, x);
            let pending = meta.requires.filter(pred);
            if pending.contains(u) {
                broadcast use vstd::seq_lib::group_filter_ensures;

                assert(false);
            }
        },
    }
}

/// Law: while dependencies are being fetched, the pending list never changes;
/// only the index into it moves forward.
pub proof fn lemma_pending_stable(s: SessionV, o: FetchOutcomeV, cache: Seq<DepV>, now: u64)
    requires
        s.phase is AwaitDep,
    ensures
        (step_spec(s, o, cache, now).phase matches PhaseV::AwaitDep { pending, next, .. }
            ==> pending == s.phase->AwaitDep_pending && next == s.phase->AwaitDep_next + 1),
{
}

} // verus!
