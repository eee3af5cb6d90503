//! STORE: how flags change on messages.
use vstd::prelude::*;
use crate::text::{chars_eq, chars_of, upper_char_vec, upper_chars};

verus! {

/// STORE flag operation.
#[derive(Debug, Clone, Copy, PartialEq, Eq, Structural)]
pub enum StoreOp {
    /// +FLAGS — add flags
    Add,
    /// -FLAGS — remove flags
    Remove,
    /// FLAGS — replace flags
    Replace,
    /// +FLAGS.SILENT — add flags, no FETCH response
    AddSilent,
    /// -FLAGS.SILENT — remove flags, no FETCH response
    RemoveSilent,
    /// FLAGS.SILENT — replace flags, no FETCH response
    ReplaceSilent,
}

/// The operation that a STORE keyword names, in any letter case.
pub open spec fn store_op_of(s: Seq<char>) -> Option<StoreOp> {
    let u = upper_chars(s);
    if u == "+FLAGS"@ {
        Some(StoreOp::Add)
    } else if u == "-FLAGS"@ {
        Some(StoreOp::Remove)
    } else if u == "FLAGS"@ {
        Some(StoreOp::Replace)
    } else if u == "+FLAGS.SILENT"@ {
        Some(StoreOp::AddSilent)
    } else if u == "-FLAGS.SILENT"@ {
        Some(StoreOp::RemoveSilent)
    } else if u == "FLAGS.SILENT"@ {
        Some(StoreOp::ReplaceSilent)
    } else {
        None
    }
}

fn matches_word(u: &[char], w: &str) -> (r: bool)
    ensures
        r == (u@ == w@),
{
    let wc = chars_of(w);
    chars_eq(u, &wc)
}

impl StoreOp {
    /// The operation asks for no FETCH responses.
    pub fn is_silent(&self) -> (r: bool)
        ensures
            r == (*self == StoreOp::AddSilent || *self == StoreOp::RemoveSilent || *self
                == StoreOp::ReplaceSilent),
    {
        match self {
            Self::AddSilent | Self::RemoveSilent | Self::ReplaceSilent => true,
            _ => false,
        }
    }

    /// Parses a STORE keyword, ignoring letter case.
    pub fn parse(s: &str) -> (r: Result<Self, String>)
        ensures
            match store_op_of(s@) {
                Some(op) => r == Ok::<StoreOp, String>(op),
                None => r is Err && r->Err_0@ == "unknown STORE operation: "@ + s@,
            },
    {
        let cs = chars_of(s);
        let u = upper_char_vec(&cs);
        if matches_word(&u, "+FLAGS") {
            Ok(Self::Add)
        } else if matches_word(&u, "-FLAGS") {
            Ok(Self::Remove)
        } else if matches_word(&u, "FLAGS") {
            Ok(Self::Replace)
        } else if matches_word(&u, "+FLAGS.SILENT") {
            Ok(Self::AddSilent)
        } else if matches_word(&u, "-FLAGS.SILENT") {
            Ok(Self::RemoveSilent)
        } else if matches_word(&u, "FLAGS.SILENT") {
            Ok(Self::ReplaceSilent)
        } else {
            let mut e = String::from_str("unknown STORE operation: ");
            e.append(s);
            Err(e)
        }
    }
}

/// Parsed STORE command data.
#[derive(Debug, Clone)]
pub struct StoreFlags {
    pub op: StoreOp,
    pub flags: Vec<String>,
}

/// Options for STORE command.
#[derive(Debug, Clone, Default)]
pub struct StoreOptions {
    pub unchanged_since: Option<u64>,
}

} // verus!
