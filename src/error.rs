//! The library's error kinds.
use vstd::prelude::*;
use crate::text::append_chars;
use crate::text::{chars_of, string_of};

verus! {

/// Why an operation failed; each kind carries a human-readable detail.
#[derive(Debug)]
pub enum KcfgVexError {
    /// A file could not be read or written.
    Io(String),
    /// A network request failed.
    Http(String),
    /// A document was not valid JSON.
    Json(String),
    /// The advisory could not be retrieved.
    CveNotFound(String),
    /// An input document has the wrong structure.
    InvalidConfig(String),
}

pub open spec fn error_prefix(e: KcfgVexError) -> Seq<char> {
    match e {
        KcfgVexError::Io(_) => "IO error: "@,
        KcfgVexError::Http(_) => "HTTP error: "@,
        KcfgVexError::Json(_) => "JSON parsing error: "@,
        KcfgVexError::CveNotFound(_) => "CVE not found: "@,
        KcfgVexError::InvalidConfig(_) => "Invalid kernel configuration: "@,
    }
}

pub open spec fn error_detail(e: KcfgVexError) -> Seq<char> {
    match e {
        KcfgVexError::Io(s) => s@,
        KcfgVexError::Http(s) => s@,
        KcfgVexError::Json(s) => s@,
        KcfgVexError::CveNotFound(s) => s@,
        KcfgVexError::InvalidConfig(s) => s@,
    }
}

impl KcfgVexError {
    /// The error as a sentence: its kind, then its detail.
    pub fn message(&self) -> (r: String)
        ensures
            r@ == error_prefix(*self) + error_detail(*self),
    {
        let (prefix, detail) = match self {
            KcfgVexError::Io(s) => (chars_of("IO error: "), s),
            KcfgVexError::Http(s) => (chars_of("HTTP error: "), s),
            KcfgVexError::Json(s) => (chars_of("JSON parsing error: "), s),
            KcfgVexError::CveNotFound(s) => (chars_of("CVE not found: "), s),
            KcfgVexError::InvalidConfig(s) => (chars_of("Invalid kernel configuration: "), s),
        };
        let mut out = prefix;
        append_chars(&mut out, &chars_of(detail.as_str()));
        string_of(&out)
    }
}

} // verus!
