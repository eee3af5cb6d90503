//! The commands: the verb table, what becomes of a command's outcome, and
//! for each command the reading of its arguments and the writing of its
//! responses. The mail store's work between the two is done by the caller.
use vstd::prelude::*;
use vstd::string::StringSliceAdditionalSpecFns;
use vstd::utf8::encode_utf8;
use crate::codec::status_bytes;
use crate::conn::Conn;
use crate::error::{ImapError, ImapResult, is_bad};
use crate::text::{chars_of, chars_eq};
use crate::types::ConnState;

pub mod auth;
pub mod noop;
pub mod select;
pub mod mailbox;
pub mod fetch;
pub mod search;
pub mod store;
pub mod copy;
pub mod expunge;
pub mod append;
pub mod idle;

verus! {

/// The commands the server knows.
#[derive(Debug, Clone, Copy, PartialEq, Eq, Structural)]
pub enum Command {
    Noop,
    Check,
    Logout,
    Capability,
    Id,
    StartTls,
    Login,
    Authenticate,
    Unauthenticate,
    Enable,
    Select,
    Examine,
    Close,
    Unselect,
    Create,
    Delete,
    Rename,
    Subscribe,
    Unsubscribe,
    List,
    Lsub,
    Status,
    Append,
    Fetch,
    Store,
    Search,
    Copy,
    Move,
    Expunge,
    UidExpunge,
    Idle,
    Namespace,
}

/// The command named by an (upper-case) verb; `uid` says whether the verb
/// came after `UID`, which turns EXPUNGE into UID EXPUNGE (the other UID
/// commands carry the flag into their handlers).
pub open spec fn command_of(verb: Seq<char>, uid: bool) -> Option<Command> {
    if verb == "NOOP"@ {
        Some(Command::Noop)
    } else if verb == "CHECK"@ {
        Some(Command::Check)
    } else if verb == "LOGOUT"@ {
        Some(Command::Logout)
    } else if verb == "CAPABILITY"@ {
        Some(Command::Capability)
    } else if verb == "ID"@ {
        Some(Command::Id)
    } else if verb == "STARTTLS"@ {
        Some(Command::StartTls)
    } else if verb == "LOGIN"@ {
        Some(Command::Login)
    } else if verb == "AUTHENTICATE"@ {
        Some(Command::Authenticate)
    } else if verb == "UNAUTHENTICATE"@ {
        Some(Command::Unauthenticate)
    } else if verb == "ENABLE"@ {
        Some(Command::Enable)
    } else if verb == "SELECT"@ {
        Some(Command::Select)
    } else if verb == "EXAMINE"@ {
        Some(Command::Examine)
    } else if verb == "CLOSE"@ {
        Some(Command::Close)
    } else if verb == "UNSELECT"@ {
        Some(Command::Unselect)
    } else if verb == "CREATE"@ {
        Some(Command::Create)
    } else if verb == "DELETE"@ {
        Some(Command::Delete)
    } else if verb == "RENAME"@ {
        Some(Command::Rename)
    } else if verb == "SUBSCRIBE"@ {
        Some(Command::Subscribe)
    } else if verb == "UNSUBSCRIBE"@ {
        Some(Command::Unsubscribe)
    } else if verb == "LIST"@ {
        Some(Command::List)
    } else if verb == "LSUB"@ {
        Some(Command::Lsub)
    } else if verb == "STATUS"@ {
        Some(Command::Status)
    } else if verb == "APPEND"@ {
        Some(Command::Append)
    } else if verb == "FETCH"@ {
        Some(Command::Fetch)
    } else if verb == "STORE"@ {
        Some(Command::Store)
    } else if verb == "SEARCH"@ {
        Some(Command::Search)
    } else if verb == "COPY"@ {
        Some(Command::Copy)
    } else if verb == "MOVE"@ {
        Some(Command::Move)
    } else if verb == "EXPUNGE"@ {
        if uid {
            Some(Command::UidExpunge)
        } else {
            Some(Command::Expunge)
        }
    } else if verb == "IDLE"@ {
        Some(Command::Idle)
    } else if verb == "NAMESPACE"@ {
        Some(Command::Namespace)
    } else {
        None
    }
}

fn is_verb(v: &[char], w: &str) -> (r: bool)
    ensures
        r == (v@ == w@),
{
    let wc = chars_of(w);
    chars_eq(v, &wc)
}

/// The command named by a verb, read with or without `UID` before it.
pub fn route(verb: &str, uid: bool) -> (r: Option<Command>)
    ensures
        r == command_of(verb@, uid),
{
    let v = chars_of(verb);
    if is_verb(&v, "NOOP") {
        Some(Command::Noop)
    } else if is_verb(&v, "CHECK") {
        Some(Command::Check)
    } else if is_verb(&v, "LOGOUT") {
        Some(Command::Logout)
    } else if is_verb(&v, "CAPABILITY") {
        Some(Command::Capability)
    } else if is_verb(&v, "ID") {
        Some(Command::Id)
    } else if is_verb(&v, "STARTTLS") {
        Some(Command::StartTls)
    } else if is_verb(&v, "LOGIN") {
        Some(Command::Login)
    } else if is_verb(&v, "AUTHENTICATE") {
        Some(Command::Authenticate)
    } else if is_verb(&v, "UNAUTHENTICATE") {
        Some(Command::Unauthenticate)
    } else if is_verb(&v, "ENABLE") {
        Some(Command::Enable)
    } else if is_verb(&v, "SELECT") {
        Some(Command::Select)
    } else if is_verb(&v, "EXAMINE") {
        Some(Command::Examine)
    } else if is_verb(&v, "CLOSE") {
        Some(Command::Close)
    } else if is_verb(&v, "UNSELECT") {
        Some(Command::Unselect)
    } else if is_verb(&v, "CREATE") {
        Some(Command::Create)
    } else if is_verb(&v, "DELETE") {
        Some(Command::Delete)
    } else if is_verb(&v, "RENAME") {
        Some(Command::Rename)
    } else if is_verb(&v, "SUBSCRIBE") {
        Some(Command::Subscribe)
    } else if is_verb(&v, "UNSUBSCRIBE") {
        Some(Command::Unsubscribe)
    } else if is_verb(&v, "LIST") {
        Some(Command::List)
    } else if is_verb(&v, "LSUB") {
        Some(Command::Lsub)
    } else if is_verb(&v, "STATUS") {
        Some(Command::Status)
    } else if is_verb(&v, "APPEND") {
        Some(Command::Append)
    } else if is_verb(&v, "FETCH") {
        Some(Command::Fetch)
    } else if is_verb(&v, "STORE") {
        Some(Command::Store)
    } else if is_verb(&v, "SEARCH") {
        Some(Command::Search)
    } else if is_verb(&v, "COPY") {
        Some(Command::Copy)
    } else if is_verb(&v, "MOVE") {
        Some(Command::Move)
    } else if is_verb(&v, "EXPUNGE") {
        if uid {
            Some(Command::UidExpunge)
        } else {
            Some(Command::Expunge)
        }
    } else if is_verb(&v, "IDLE") {
        Some(Command::Idle)
    } else if is_verb(&v, "NAMESPACE") {
        Some(Command::Namespace)
    } else {
        None
    }
}

/// Whether the session is polled after a successful command: not after
/// LOGOUT or STARTTLS.
pub fn polls_after(verb: &str) -> (r: bool)
    ensures
        r == !(verb@ == "LOGOUT"@ || verb@ == "STARTTLS"@),
{
    let v = chars_of(verb);
    !(is_verb(&v, "LOGOUT") || is_verb(&v, "STARTTLS"))
}

/// An unknown verb: before authentication the connection is closed with a
/// BYE (cross-protocol attacks); after it, BAD [CLIENTBUG].
pub fn unknown_command(conn: &mut Conn, verb: &str) -> (r: ImapError)
    ensures
        old(conn).state == ConnState::NotAuthenticated ==> r == ImapError::Closed
            && final(conn).state == ConnState::Logout && final(conn).encoder@ == old(
            conn,
        ).encoder@ + status_bytes(
            encode_utf8("*"@),
            encode_utf8("BYE"@),
            None,
            encode_utf8("Unknown command in not-authenticated state"@),
        ),
        old(conn).state != ConnState::NotAuthenticated ==> is_bad(
            r,
            Some("CLIENTBUG"@),
            "Unknown command: "@ + verb@,
        ) && *final(conn) == *old(conn),
        final(conn).decoder == old(conn).decoder,
        final(conn).enabled == old(conn).enabled,
{
    if conn.state == ConnState::NotAuthenticated {
        conn.write_bye("Unknown command in not-authenticated state");
        return ImapError::Closed;
    }
    let mut text = String::from_str("Unknown command: ");
    text.append(verb);
    ImapError::Bad { code: Some(String::from_str("CLIENTBUG")), text }
}

/// What a command's outcome becomes: nothing more on success; a tagged NO
/// or BAD with the error's code and text; NO [SERVERBUG] for an internal
/// error; the end of the connection for Closed (the only error returned).
pub fn finish(conn: &mut Conn, tag: &str, result: ImapResult<()>) -> (r: ImapResult<()>)
    ensures
        final(conn).state == old(conn).state,
        final(conn).decoder == old(conn).decoder,
        final(conn).enabled == old(conn).enabled,
        match result {
            Ok(()) => r is Ok && final(conn).encoder@ == old(conn).encoder@,
            Err(ImapError::Closed) => r == Err::<(), ImapError>(ImapError::Closed)
                && final(conn).encoder@ == old(conn).encoder@,
            Err(ImapError::No { code, text }) => r is Ok && final(conn).encoder@ == old(
                conn,
            ).encoder@ + status_bytes(
                tag.spec_bytes(),
                encode_utf8("NO"@),
                match code {
                    Some(c) => Some(encode_utf8(c@)),
                    None => None,
                },
                encode_utf8(text@),
            ),
            Err(ImapError::Bad { code, text }) => r is Ok && final(conn).encoder@ == old(
                conn,
            ).encoder@ + status_bytes(
                tag.spec_bytes(),
                encode_utf8("BAD"@),
                match code {
                    Some(c) => Some(encode_utf8(c@)),
                    None => None,
                },
                encode_utf8(text@),
            ),
            Err(ImapError::Internal(_)) => r is Ok && final(conn).encoder@ == old(conn).encoder@
                + status_bytes(
                tag.spec_bytes(),
                encode_utf8("NO"@),
                Some(encode_utf8("SERVERBUG"@)),
                encode_utf8("Internal server error"@),
            ),
        },
{
    match result {
        Ok(()) => Ok(()),
        Err(ImapError::Closed) => Err(ImapError::Closed),
        Err(ImapError::No { code, text }) => {
            match &code {
                Some(c) => conn.write_status(tag, "NO", Some(c.as_str()), text.as_str()),
                None => conn.write_status(tag, "NO", None, text.as_str()),
            }
            Ok(())
        },
        Err(ImapError::Bad { code, text }) => {
            match &code {
                Some(c) => conn.write_status(tag, "BAD", Some(c.as_str()), text.as_str()),
                None => conn.write_status(tag, "BAD", None, text.as_str()),
            }
            Ok(())
        },
        Err(ImapError::Internal(_)) => {
            conn.write_status(tag, "NO", Some("SERVERBUG"), "Internal server error");
            Ok(())
        },
    }
}

} // verus!
