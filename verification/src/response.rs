//! Status responses: OK, NO, BAD, PREAUTH and BYE with optional codes.
use vstd::prelude::*;

verus! {

/// Response type: OK, NO, BAD, PREAUTH, BYE.
#[derive(Debug, Clone, Copy, PartialEq, Eq, Structural)]
pub enum StatusResponseType {
    OK,
    No,
    Bad,
    PreAuth,
    Bye,
}

/// The wire word of a response type.
pub open spec fn status_type_word(t: StatusResponseType) -> Seq<char> {
    match t {
        StatusResponseType::OK => "OK"@,
        StatusResponseType::No => "NO"@,
        StatusResponseType::Bad => "BAD"@,
        StatusResponseType::PreAuth => "PREAUTH"@,
        StatusResponseType::Bye => "BYE"@,
    }
}

impl StatusResponseType {
    /// The wire word: `OK`, `NO`, `BAD`, `PREAUTH` or `BYE`.
    pub fn to_string(&self) -> (r: String)
        ensures
            r@ == status_type_word(*self),
    {
        match self {
            Self::OK => String::from_str("OK"),
            Self::No => String::from_str("NO"),
            Self::Bad => String::from_str("BAD"),
            Self::PreAuth => String::from_str("PREAUTH"),
            Self::Bye => String::from_str("BYE"),
        }
    }
}

/// Response code like [ALREADYEXISTS], [READ-WRITE], etc.
#[derive(Debug, Clone, PartialEq, Eq)]
pub struct ResponseCode(pub String);

impl ResponseCode {
    pub const ALERT: &'static str = "ALERT";
    pub const ALREADYEXISTS: &'static str = "ALREADYEXISTS";
    pub const AUTHENTICATIONFAILED: &'static str = "AUTHENTICATIONFAILED";
    pub const CANNOT: &'static str = "CANNOT";
    pub const CLIENTBUG: &'static str = "CLIENTBUG";
    pub const CONTACTADMIN: &'static str = "CONTACTADMIN";
    pub const CORRUPTION: &'static str = "CORRUPTION";
    pub const EXPIRED: &'static str = "EXPIRED";
    pub const PRIVACYREQUIRED: &'static str = "PRIVACYREQUIRED";
    pub const READONLY: &'static str = "READ-ONLY";
    pub const READWRITE: &'static str = "READ-WRITE";
    pub const SERVERBUG: &'static str = "SERVERBUG";
    pub const TOOBIG: &'static str = "TOOBIG";
    pub const UIDNEXT: &'static str = "UIDNEXT";
    pub const UIDVALIDITY: &'static str = "UIDVALIDITY";
    pub const UNSEEN: &'static str = "UNSEEN";
    pub const TRYCREATE: &'static str = "TRYCREATE";
    pub const BADCHARSET: &'static str = "BADCHARSET";
    pub const HASCHILDREN: &'static str = "HASCHILDREN";
    pub const INUSE: &'static str = "INUSE";
    pub const LIMIT: &'static str = "LIMIT";
    pub const NONEXISTENT: &'static str = "NONEXISTENT";
    pub const NOPERM: &'static str = "NOPERM";
    pub const OVERQUOTA: &'static str = "OVERQUOTA";
    pub const PARSE: &'static str = "PARSE";
    pub const UNAVAILABLE: &'static str = "UNAVAILABLE";
    pub const UNKNOWNCTE: &'static str = "UNKNOWN-CTE";
    pub const NOPRIVATE: &'static str = "NOPRIVATE";
    pub const TOOMANY: &'static str = "TOOMANY";
    pub const AUTHORIZATIONFAILED: &'static str = "AUTHORIZATIONFAILED";
    pub const CLOSED: &'static str = "CLOSED";

    /// The code as text.
    pub fn to_string(&self) -> (r: String)
        ensures
            r@ == self.0@,
    {
        self.0.clone()
    }
}

/// Tagged or untagged status response.
#[derive(Debug, Clone)]
pub struct StatusResponse {
    pub typ: StatusResponseType,
    pub code: Option<ResponseCode>,
    pub text: String,
}

impl StatusResponse {
    pub fn ok(text: &str) -> (r: Self)
        ensures
            r.typ == StatusResponseType::OK,
            r.code is None,
            r.text@ == text@,
    {
        Self { typ: StatusResponseType::OK, code: None, text: String::from_str(text) }
    }

    pub fn no(text: &str) -> (r: Self)
        ensures
            r.typ == StatusResponseType::No,
            r.code is None,
            r.text@ == text@,
    {
        Self { typ: StatusResponseType::No, code: None, text: String::from_str(text) }
    }

    pub fn bad(text: &str) -> (r: Self)
        ensures
            r.typ == StatusResponseType::Bad,
            r.code is None,
            r.text@ == text@,
    {
        Self { typ: StatusResponseType::Bad, code: None, text: String::from_str(text) }
    }

    pub fn bye(text: &str) -> (r: Self)
        ensures
            r.typ == StatusResponseType::Bye,
            r.code is None,
            r.text@ == text@,
    {
        Self { typ: StatusResponseType::Bye, code: None, text: String::from_str(text) }
    }
}

} // verus!
