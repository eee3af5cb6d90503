//! BODYSTRUCTURE: the MIME shape of a message.
use vstd::prelude::*;
use crate::types::Envelope;

verus! {

/// Body structure disposition. Parameters are name/value pairs in the order
/// they are written, each name once.
#[derive(Debug, Clone, Default, PartialEq, Eq)]
pub struct BodyStructureDisposition {
    pub value: String,
    pub params: Vec<(String, String)>,
}

/// Extended data for single-part body structures.
#[derive(Debug, Clone, Default, PartialEq, Eq)]
pub struct SinglePartExt {
    pub disposition: Option<BodyStructureDisposition>,
    pub language: Vec<String>,
    pub location: String,
}

/// Extended data for multi-part body structures.
#[derive(Debug, Clone, Default, PartialEq, Eq)]
pub struct MultiPartExt {
    pub params: Vec<(String, String)>,
    pub disposition: Option<BodyStructureDisposition>,
    pub language: Vec<String>,
    pub location: String,
}

/// Metadata specific to message/rfc822 parts.
#[derive(Debug, Default, PartialEq, Eq)]
pub struct BodyStructureMessageRFC822 {
    pub envelope: Option<Envelope>,
    pub body_structure: Option<Box<BodyStructure>>,
    pub num_lines: i64,
}

/// Metadata specific to text/* parts.
#[derive(Debug, Clone, Default, PartialEq, Eq)]
pub struct BodyStructureText {
    pub num_lines: i64,
}

/// IMAP body structure (RFC 3501 BODYSTRUCTURE).
#[derive(Debug, PartialEq, Eq)]
pub enum BodyStructure {
    SinglePart {
        typ: String,
        subtype: String,
        params: Vec<(String, String)>,
        id: String,
        description: String,
        encoding: String,
        size: u32,
        message_rfc822: Option<BodyStructureMessageRFC822>,
        text: Option<BodyStructureText>,
        extended: Option<SinglePartExt>,
    },
    MultiPart { children: Vec<BodyStructure>, subtype: String, extended: Option<MultiPartExt> },
}

/// What `str::to_lowercase` returns for a string: its Unicode lower-case
/// mapping.
pub uninterp spec fn unicode_lowercase(s: Seq<char>) -> Seq<char>;

/// `str::to_lowercase`: the string with every character mapped to its
/// Unicode lower case. The contract names the result and states no more of
/// the mapping.
#[verifier::external_body]
fn to_lowercase(s: &str) -> (r: String)
    ensures
        r@ == unicode_lowercase(s@),
{
    s.to_lowercase()
}

/// The media type `type/subtype` of a body structure, in lower case.
pub open spec fn media_type_spec(bs: BodyStructure) -> Seq<char> {
    match bs {
        BodyStructure::SinglePart { typ, subtype, .. } => unicode_lowercase(typ@) + "/"@
            + unicode_lowercase(subtype@),
        BodyStructure::MultiPart { subtype, .. } => "multipart/"@ + unicode_lowercase(subtype@),
    }
}

/// `a + b` as a `String`.
fn concat(a: &str, b: &str) -> (r: String)
    ensures
        r@ == a@ + b@,
{
    let mut s = String::from_str(a);
    s.append(b);
    s
}

impl BodyStructure {
    /// `type/subtype` in lower case (`multipart/<subtype>` for multi-part).
    pub fn media_type(&self) -> (r: String)
        ensures
            r@ == media_type_spec(*self),
    {
        match self {
            Self::SinglePart { typ, subtype, .. } => {
                let t = to_lowercase(typ.as_str());
                let st = to_lowercase(subtype.as_str());
                let mut s = concat(t.as_str(), "/");
                s.append(st.as_str());
                s
            },
            Self::MultiPart { subtype, .. } => {
                let st = to_lowercase(subtype.as_str());
                concat("multipart/", st.as_str())
            },
        }
    }
}

} // verus!
