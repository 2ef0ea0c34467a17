//! Error taxonomy. Fetch-layer errors classify a failed retrieval; registry
//! errors cover the operations on the script collection. Fetch errors
//! propagate unchanged as the failure reason of the registry operation that
//! triggered them. Each error renders a fixed human-readable message.
use vstd::prelude::*;
use vstd::string::StringExecFns;
use crate::strutil::{dec_digits, string_of, u64_to_dec};

verus! {

/// Failures of the remote fetcher.
#[derive(Debug, Clone, PartialEq, Eq)]
pub enum FetchError {
    /// The URL did not start with `https://`; no request was attempted.
    Security,
    /// The request exceeded the fixed timeout.
    Timeout,
    /// The connection could not be established; carries the URL.
    Connect(String),
    /// Another transport failure; carries the underlying message.
    Network(String),
    /// A response outside the 2xx range; carries code and reason phrase.
    HttpStatus(u16, String),
    /// The content-type header named neither javascript nor plain text.
    ContentType(String),
    /// The response body exceeded the 10 MiB limit.
    TooLarge,
}

/// Failures of registry operations.
#[derive(Debug, Clone, PartialEq, Eq)]
pub enum RegistryError {
    /// The fetch of the script body itself failed.
    Fetch(FetchError),
    /// A script with the same source URL already exists.
    DuplicateSource,
    /// A declared dependency could not be fetched; carries its URL and the
    /// underlying fetch error.
    DependencyFetch(String, FetchError),
    /// No script carries the given id.
    NotFound,
    /// The script has no source URL and can never be refreshed.
    Unrefreshable,
}

/// Mathematical model of `FetchError`.
pub ghost enum FetchErrV {
    Security,
    Timeout,
    Connect(Seq<char>),
    Network(Seq<char>),
    HttpStatus(u16, Seq<char>),
    ContentType(Seq<char>),
    TooLarge,
}

/// Mathematical model of `RegistryError`.
pub ghost enum RegErrV {
    Fetch(FetchErrV),
    DuplicateSource,
    DependencyFetch(Seq<char>, FetchErrV),
    NotFound,
    Unrefreshable,
}

impl View for FetchError {
    type V = FetchErrV;

    open spec fn view(&self) -> FetchErrV {
        match *self {
            FetchError::Security => FetchErrV::Security,
            FetchError::Timeout => FetchErrV::Timeout,
            FetchError::Connect(u) => FetchErrV::Connect(u@),
            FetchError::Network(m) => FetchErrV::Network(m@),
            FetchError::HttpStatus(c, r) => FetchErrV::HttpStatus(c, r@),
            FetchError::ContentType(t) => FetchErrV::ContentType(t@),
            FetchError::TooLarge => FetchErrV::TooLarge,
        }
    }
}

impl View for RegistryError {
    type V = RegErrV;

    open spec fn view(&self) -> RegErrV {
        match *self {
            RegistryError::Fetch(f) => RegErrV::Fetch(f@),
            RegistryError::DuplicateSource => RegErrV::DuplicateSource,
            RegistryError::DependencyFetch(u, f) => RegErrV::DependencyFetch(u@, f@),
            RegistryError::NotFound => RegErrV::NotFound,
            RegistryError::Unrefreshable => RegErrV::Unrefreshable,
        }
    }
}

pub open spec fn fetch_error_text(e: FetchErrV) -> Seq<char> {
    match e {
        FetchErrV::Security => "Only HTTPS URLs are supported for security reasons"@,
        FetchErrV::Timeout => "Request timed out after 30 seconds"@,
        FetchErrV::Connect(url) => "Failed to connect to "@ + url,
        FetchErrV::Network(m) => "Network error: "@ + m,
        FetchErrV::HttpStatus(code, reason) => "HTTP "@ + dec_digits(code as nat) + ": "@ + reason,
        FetchErrV::ContentType(ct) => "Expected JavaScript, got content-type: "@ + ct,
        FetchErrV::TooLarge => "Script too large (>10MB)"@,
    }
}

pub open spec fn registry_error_text(e: RegErrV) -> Seq<char> {
    match e {
        RegErrV::Fetch(f) => fetch_error_text(f),
        RegErrV::DuplicateSource => "A script from this URL already exists"@,
        RegErrV::DependencyFetch(url, f) => "Failed to fetch dependency "@ + url + ": "@
            + fetch_error_text(f),
        RegErrV::NotFound => "Script not found"@,
        RegErrV::Unrefreshable => "Cannot refresh manually added script"@,
    }
}

impl FetchError {
    /// The human-readable failure message.
    pub fn message(&self) -> (r: String)
        ensures
            r@ == fetch_error_text(self@),
    {
        match self {
            FetchError::Security => String::from_str(
                "Only HTTPS URLs are supported for security reasons",
            ),
            FetchError::Timeout => String::from_str("Request timed out after 30 seconds"),
            FetchError::Connect(url) => String::from_str("Failed to connect to ").concat(
                url.as_str(),
            ),
            FetchError::Network(m) => String::from_str("Network error: ").concat(m.as_str()),
            FetchError::HttpStatus(code, reason) => {
                let digits = string_of(&u64_to_dec(*code as u64));
                let r = String::from_str("HTTP ").concat(digits.as_str()).concat(": ").concat(
                    reason.as_str(),
                );
                proof {
                    assert(r@ =~= fetch_error_text(self@));
                }
                r
            },
            FetchError::ContentType(ct) => String::from_str(
                "Expected JavaScript, got content-type: ",
            ).concat(ct.as_str()),
            FetchError::TooLarge => String::from_str("Script too large (>10MB)"),
        }
    }
}

impl RegistryError {
    /// The human-readable failure message.
    pub fn message(&self) -> (r: String)
        ensures
            r@ == registry_error_text(self@),
    {
        match self {
            RegistryError::Fetch(f) => f.message(),
            RegistryError::DuplicateSource => String::from_str(
                "A script from this URL already exists",
            ),
            RegistryError::DependencyFetch(url, f) => {
                let tail = f.message();
                let r = String::from_str("Failed to fetch dependency ").concat(url.as_str()).concat(
                    ": ",
                ).concat(tail.as_str());
                proof {
                    assert(r@ =~= registry_error_text(self@));
                }
                r
            },
            RegistryError::NotFound => String::from_str("Script not found"),
            RegistryError::Unrefreshable => String::from_str("Cannot refresh manually added script"),
        }
    }
}

} // verus!
