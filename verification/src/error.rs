//! Protocol errors: what becomes a tagged NO or BAD, an internal failure,
//! or the end of the connection.
use vstd::prelude::*;
use crate::text::{chars_of, string_from_chars};

verus! {

/// IMAP protocol error — maps to tagged NO/BAD responses.
#[derive(Debug, Clone, PartialEq, Eq)]
pub enum ImapError {
    /// Tagged NO response (operation rejected).
    No { code: Option<String>, text: String },
    /// Tagged BAD response (protocol/syntax error).
    Bad { code: Option<String>, text: String },
    /// Internal error → NO [SERVERBUG]; holds the failure's description.
    Internal(String),
    /// Close the connection.
    Closed,
}

/// Result alias for IMAP operations.
pub type ImapResult<T> = Result<T, ImapError>;

/// The error is a `NO` with the given code and text.
pub open spec fn is_no(e: ImapError, code: Option<Seq<char>>, text: Seq<char>) -> bool {
    match e {
        ImapError::No { code: c, text: t } => t@ == text && match (c, code) {
            (None, None) => true,
            (Some(x), Some(y)) => x@ == y,
            _ => false,
        },
        _ => false,
    }
}

/// The error is a `BAD` with the given code and text.
pub open spec fn is_bad(e: ImapError, code: Option<Seq<char>>, text: Seq<char>) -> bool {
    match e {
        ImapError::Bad { code: c, text: t } => t@ == text && match (c, code) {
            (None, None) => true,
            (Some(x), Some(y)) => x@ == y,
            _ => false,
        },
        _ => false,
    }
}

impl ImapError {
    pub fn no(text: &str) -> (r: Self)
        ensures
            is_no(r, None, text@),
    {
        Self::No { code: None, text: String::from_str(text) }
    }

    pub fn no_code(code: &str, text: &str) -> (r: Self)
        ensures
            is_no(r, Some(code@), text@),
    {
        Self::No { code: Some(String::from_str(code)), text: String::from_str(text) }
    }

    pub fn bad(text: &str) -> (r: Self)
        ensures
            is_bad(r, None, text@),
    {
        Self::Bad { code: None, text: String::from_str(text) }
    }

    pub fn bad_code(code: &str, text: &str) -> (r: Self)
        ensures
            is_bad(r, Some(code@), text@),
    {
        Self::Bad { code: Some(String::from_str(code)), text: String::from_str(text) }
    }

    pub fn client_bug(text: &str) -> (r: Self)
        ensures
            is_bad(r, Some("CLIENTBUG"@), text@),
    {
        Self::Bad { code: Some(String::from_str("CLIENTBUG")), text: String::from_str(text) }
    }

    /// The error as text: `NO <text>`, `BAD <text>`, `internal: <detail>`
    /// or `connection closed`.
    pub fn to_string(&self) -> (r: String)
        ensures
            r@ == match self {
                ImapError::No { text, .. } => "NO "@ + text@,
                ImapError::Bad { text, .. } => "BAD "@ + text@,
                ImapError::Internal(d) => "internal: "@ + d@,
                ImapError::Closed => "connection closed"@,
            },
    {
        match self {
            ImapError::No { text, .. } => {
                let mut s = String::from_str("NO ");
                s.append(text.as_str());
                s
            },
            ImapError::Bad { text, .. } => {
                let mut s = String::from_str("BAD ");
                s.append(text.as_str());
                s
            },
            ImapError::Internal(d) => {
                let mut s = String::from_str("internal: ");
                s.append(d.as_str());
                s
            },
            ImapError::Closed => String::from_str("connection closed"),
        }
    }
}

/// A copy of a string (`String::clone` by characters).
pub fn copy_string(s: &String) -> (r: String)
    ensures
        r@ == s@,
{
    let cs = chars_of(s.as_str());
    string_from_chars(&cs)
}

} // verus!
