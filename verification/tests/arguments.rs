//! Which command lines the argument readers accept, and what they give.

use imap_rs::cmd::append::append_args;
use imap_rs::cmd::auth::{auth_success_text, authenticate_response, login_args};
use imap_rs::cmd::copy::copy_args;
use imap_rs::cmd::expunge::uid_expunge_args;
use imap_rs::cmd::fetch::{fetch_args, read_partial_opt};
use imap_rs::cmd::idle::idle_read;
use imap_rs::cmd::search::search_args;
use imap_rs::cmd::mailbox::{list_args, read_status_items, rename_args, status_args};
use imap_rs::cmd::select::mailbox_args;
use imap_rs::cmd::store::{read_flag_list, store_args};
use imap_rs::conn::Conn;
use imap_rs::error::ImapError;
use imap_rs::store::StoreOp;
use imap_rs::types::ConnState;

fn conn_with(input: &[u8], state: ConnState) -> Conn {
    let mut c = Conn::new(true, false);
    c.decoder.feed(input);
    c.state = state;
    c
}

#[test]
fn status_items_are_upper_cased_and_sp_skipped() {
    let mut c = conn_with(b"(messages  uidnext)\r\n", ConnState::Authenticated);
    let items = read_status_items(&mut c).unwrap();
    assert_eq!(items, vec!["MESSAGES".to_string(), "UIDNEXT".to_string()]);
    c.decoder.expect_crlf().unwrap();
}

#[test]
fn status_items_without_paren_read_nothing() {
    let mut c = conn_with(b"\r\n", ConnState::Authenticated);
    assert!(read_status_items(&mut c).unwrap().is_empty());
    c.decoder.expect_crlf().unwrap();
}

#[test]
fn status_items_unclosed_list_fails() {
    let mut c = conn_with(b"(MESSAGES", ConnState::Authenticated);
    assert!(read_status_items(&mut c).is_err());
}

#[test]
fn status_line_needs_line_end() {
    let mut c = conn_with(b"INBOX (MESSAGES) x\r\n", ConnState::Authenticated);
    assert!(status_args(&mut c).is_err());
    let mut c = conn_with(b"INBOX (MESSAGES)\r\n", ConnState::Authenticated);
    assert_eq!(status_args(&mut c).unwrap(), "INBOX");
}

#[test]
fn login_takes_quoted_and_literal_astrings() {
    let mut c = conn_with(b"\"us er\" {4}\r\npass\r\n", ConnState::NotAuthenticated);
    let (u, p) = login_args(&mut c).unwrap();
    assert_eq!(u, "us er");
    assert_eq!(p, "pass");
}

#[test]
fn login_without_password_fails() {
    let mut c = conn_with(b"user\r\n", ConnState::NotAuthenticated);
    assert!(login_args(&mut c).is_err());
}

#[test]
fn rename_and_list_arguments() {
    let mut c = conn_with(b"a b\r\n", ConnState::Authenticated);
    assert_eq!(rename_args(&mut c).unwrap(), ("a".to_string(), "b".to_string()));
    let mut c = conn_with(b"\"\" %/*\r\n", ConnState::Selected);
    assert_eq!(list_args(&mut c).unwrap(), ("".to_string(), "%/*".to_string()));
    let mut c = conn_with(b"a b c\r\n", ConnState::Authenticated);
    assert!(rename_args(&mut c).is_err());
}

#[test]
fn mailbox_argument_then_line_end() {
    let mut c = conn_with(b"Drafts\r\n", ConnState::Authenticated);
    assert_eq!(mailbox_args(&mut c).unwrap(), "Drafts");
    let mut c = conn_with(b"Drafts extra\r\n", ConnState::Authenticated);
    assert!(mailbox_args(&mut c).is_err());
}

#[test]
fn copy_and_uid_expunge_arguments() {
    let mut c = conn_with(b"2:4 Archive\r\n", ConnState::Selected);
    let (set, dest) = copy_args(&mut c).unwrap();
    assert_eq!(set.to_wire(), "2:4");
    assert_eq!(dest, "Archive");
    let mut c = conn_with(b"2:4\r\n", ConnState::Selected);
    assert!(copy_args(&mut c).is_err());
    let mut c = conn_with(b"1,3\r\n", ConnState::Selected);
    assert_eq!(uid_expunge_args(&mut c).unwrap().to_wire(), "1,3");
    let mut c = conn_with(b"x\r\n", ConnState::Selected);
    assert!(uid_expunge_args(&mut c).is_err());
}

#[test]
fn store_flag_list_forms() {
    let mut c = conn_with(b"(\\Seen  $Label)\r\n", ConnState::Selected);
    assert_eq!(read_flag_list(&mut c).unwrap(), vec!["\\Seen".to_string(), "$Label".to_string()]);
    let mut c = conn_with(b"\\Deleted\r\n", ConnState::Selected);
    assert_eq!(read_flag_list(&mut c).unwrap(), vec!["\\Deleted".to_string()]);
    let mut c = conn_with(b"(\\Seen\r\n", ConnState::Selected);
    assert!(read_flag_list(&mut c).is_err());
}

#[test]
fn store_keyword_with_silent() {
    let mut c = conn_with(b"1 +flags (\\Seen)\r\n", ConnState::Selected);
    let (set, sf) = store_args(&mut c).unwrap();
    assert_eq!(set.to_wire(), "1");
    assert_eq!(sf.op, StoreOp::Add);
    assert_eq!(sf.flags, vec!["\\Seen".to_string()]);
    let mut c = conn_with(b"1 +flags.silent (\\Seen)\r\n", ConnState::Selected);
    let (set, sf) = store_args(&mut c).unwrap();
    assert_eq!(set.to_wire(), "1");
    assert_eq!(sf.op, StoreOp::AddSilent);
    assert_eq!(sf.flags, vec!["\\Seen".to_string()]);
    let mut c = conn_with(b"1 -FLAGS.SILENT (\\Deleted)\r\n", ConnState::Selected);
    assert_eq!(store_args(&mut c).unwrap().1.op, StoreOp::RemoveSilent);
    let mut c = conn_with(b"1 FLAGS.SILENT ()\r\n", ConnState::Selected);
    assert_eq!(store_args(&mut c).unwrap().1.op, StoreOp::ReplaceSilent);
    let mut c = conn_with(b"1 +FLAGS.LOUD (\\Seen)\r\n", ConnState::Selected);
    match store_args(&mut c) {
        Err(ImapError::Bad { text, .. }) => assert_eq!(text, "unknown STORE op: +FLAGS.LOUD"),
        _ => panic!("expected BAD"),
    }
    let mut c = conn_with(b"1 XFLAGS (\\Seen)\r\n", ConnState::Selected);
    match store_args(&mut c) {
        Err(ImapError::Bad { text, .. }) => assert_eq!(text, "unknown STORE op: XFLAGS"),
        _ => panic!("expected BAD"),
    }
}

#[test]
fn partial_range_forms() {
    let mut c = conn_with(b"<0.100> ", ConnState::Selected);
    assert_eq!(read_partial_opt(&mut c).unwrap(), Some((0, 100)));
    let mut c = conn_with(b" ", ConnState::Selected);
    assert_eq!(read_partial_opt(&mut c).unwrap(), None);
    let mut c = conn_with(b"<0,100> ", ConnState::Selected);
    assert!(read_partial_opt(&mut c).is_err());
}

#[test]
fn fetch_arguments_accepted_and_refused() {
    let mut c = conn_with(b"1 (FLAGS BODY[TEXT]<0.10>)\r\n", ConnState::Selected);
    let (_, o) = fetch_args(&mut c).unwrap();
    assert!(o.flags);
    assert_eq!(o.body_sections.len(), 1);
    assert_eq!(o.body_sections[0].partial, Some((0, 10)));
    let mut c = conn_with(b"1 (FLAGS BODY[TEXT\r\n", ConnState::Selected);
    assert!(fetch_args(&mut c).is_err());
    let mut c = conn_with(b"1 FLAGS UID\r\n", ConnState::Selected);
    assert!(fetch_args(&mut c).is_err());
}

#[test]
fn append_without_literal_fails() {
    let mut c = conn_with(b"INBOX (\\Seen) \"date\"\r\n", ConnState::Authenticated);
    assert!(append_args(&mut c).is_err());
}

#[test]
fn sasl_response_needs_line_end() {
    let mut c = conn_with(b"AHUAcA==", ConnState::NotAuthenticated);
    assert!(authenticate_response(&mut c).is_err());
    let mut c = conn_with(b"AHUAcA==\r\n", ConnState::NotAuthenticated);
    assert_eq!(authenticate_response(&mut c).unwrap(), "AHUAcA==");
}

#[test]
fn idle_line_forms() {
    let mut c = conn_with(b"done\r\n", ConnState::Selected);
    assert!(idle_read(&mut c).unwrap());
    let mut c = conn_with(b"other stuff\r\n", ConnState::Selected);
    assert!(!idle_read(&mut c).unwrap());
    let mut c = conn_with(b"DONE", ConnState::Selected);
    assert!(idle_read(&mut c).is_err());
}

#[test]
fn search_return_options_named_in_any_case() {
    let mut c = conn_with(b"RETURN (min count foo) UNSEEN\r\n", ConnState::Selected);
    let (o, extended, crit) = search_args(&mut c).unwrap();
    assert!(extended);
    assert!(o.return_min && o.return_count);
    assert!(!o.return_max && !o.return_all && !o.return_save);
    assert!(crit.unseen);
}

#[test]
fn search_keys_with_arguments() {
    let mut c = conn_with(b"from alice larger 100 NOT seen\r\n", ConnState::Selected);
    let (o, extended, crit) = search_args(&mut c).unwrap();
    assert!(!extended);
    assert!(!o.return_min && !o.return_all);
    assert_eq!(crit.from.as_deref(), Some("alice"));
    assert_eq!(crit.larger, Some(100));
    assert_eq!(crit.not.as_ref().unwrap().seen, Some(true));
}

#[test]
fn search_key_missing_argument_fails() {
    let mut c = conn_with(b"FROM\r\n", ConnState::Selected);
    assert!(search_args(&mut c).is_err());
    let mut c = conn_with(b"LARGER x\r\n", ConnState::Selected);
    assert!(search_args(&mut c).is_err());
    let mut c = conn_with(b"ALL", ConnState::Selected);
    assert!(search_args(&mut c).is_err());
}

#[test]
fn authenticate_ok_text_names_the_mechanism() {
    assert_eq!(auth_success_text("PLAIN"), "PLAIN authentication successful");
}

#[test]
fn search_word_starting_with_r_is_a_key() {
    let mut c = conn_with(b"RECENT UNSEEN\r\n", ConnState::Selected);
    let (o, extended, crit) = search_args(&mut c).unwrap();
    assert!(!extended);
    assert!(!o.return_min && !o.return_all);
    assert_eq!(crit.recent, Some(true));
    assert!(crit.unseen);
}

#[test]
fn search_or_takes_two_keys() {
    let mut c = conn_with(b"OR SEEN FLAGGED\r\n", ConnState::Selected);
    let (_, _, crit) = search_args(&mut c).unwrap();
    let (a, b) = crit.or.as_ref().unwrap();
    assert_eq!(a.seen, Some(true));
    assert_eq!(a.flagged, None);
    assert_eq!(b.flagged, Some(true));
    assert_eq!(b.seen, None);
}

#[test]
fn search_not_takes_one_key() {
    let mut c = conn_with(b"NOT SEEN FLAGGED\r\n", ConnState::Selected);
    let (_, _, crit) = search_args(&mut c).unwrap();
    let n = crit.not.as_ref().unwrap();
    assert_eq!(n.seen, Some(true));
    assert_eq!(n.flagged, None);
    assert_eq!(crit.flagged, Some(true));
    let mut c = conn_with(b"OR NOT SEEN FROM bob DELETED\r\n", ConnState::Selected);
    let (_, _, crit) = search_args(&mut c).unwrap();
    let (a, b) = crit.or.as_ref().unwrap();
    assert_eq!(a.not.as_ref().unwrap().seen, Some(true));
    assert_eq!(b.from.as_deref(), Some("bob"));
    assert_eq!(crit.deleted, Some(true));
}

#[test]
fn search_operand_missing_fails() {
    let mut c = conn_with(b"NOT\r\n", ConnState::Selected);
    assert!(search_args(&mut c).is_err());
    let mut c = conn_with(b"OR SEEN\r\n", ConnState::Selected);
    assert!(search_args(&mut c).is_err());
}
