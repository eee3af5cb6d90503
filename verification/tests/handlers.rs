//! Commands read from the wire and answered, with the mail store's part
//! played by plain values.

use imap_rs::backend::{seq_set_from_uids, FetchedMessage, StoredMessage};
use imap_rs::cmd::append::{append_args, append_done};
use imap_rs::cmd::auth::{
    authenticate_begin, authenticate_credentials, authenticate_response, base64_decode, handle_capability,
    auth_success_text, handle_id, handle_logout, login_args, login_done,
};
use imap_rs::cmd::copy::{copy_args, copy_done};
use imap_rs::cmd::expunge::{expunge_done, uid_expunge_args};
use imap_rs::cmd::fetch::{fetch_args, fetch_done};
use imap_rs::cmd::idle::{idle_begin, idle_done, idle_read, idle_tick};
use imap_rs::cmd::mailbox::{list_args, list_done, status_args, status_done};
use imap_rs::cmd::noop::{handle_enable, namespace_args, namespace_done, noop_args, noop_done};
use imap_rs::cmd::search::{build_seqset, search_args, search_done};
use imap_rs::cmd::select::{close_check, close_done, mailbox_args, select_closes_first, select_done};
use imap_rs::cmd::store::{store_args, store_done};
use imap_rs::cmd::{finish, polls_after, route, unknown_command, Command};
use imap_rs::conn::Conn;
use imap_rs::error::ImapError;
use imap_rs::fetch::SectionSpecifier;
use imap_rs::select::{
    AppendData, CopyData, ListData, NamespaceData, NamespaceDescriptor, SelectData, StatusData,
};
use imap_rs::store::StoreOp;
use imap_rs::tracker::{SessionTracker, TrackerUpdate};
use imap_rs::types::{ConnState, Flag, MailboxAttr};

fn conn_with(input: &[u8], state: ConnState) -> Conn {
    let mut c = Conn::new(true, false);
    c.decoder.feed(input);
    c.state = state;
    c
}

fn output(c: &mut Conn) -> String {
    String::from_utf8(c.encoder.take_bytes()).unwrap()
}

fn select_data(exists: u32) -> SelectData {
    SelectData {
        flags: vec![Flag::seen()],
        exists,
        recent: 0,
        unseen: 0,
        uid_validity: 1,
        uid_next: 1,
        permanent_flags: vec![Flag::seen()],
        read_only: false,
        first_unseen_seq_num: None,
        list: None,
        highest_mod_seq: None,
    }
}

#[test]
fn test_greeting() {
    let mut c = Conn::new(true, false);
    c.write_greeting();
    let out = output(&mut c);
    assert!(out.starts_with("* OK [CAPABILITY "), "{out}");
    assert!(out.contains("IMAP4rev1"), "{out}");
    assert!(out.ends_with("] IMAP server ready\r\n"), "{out}");
}

#[test]
fn test_login() {
    let mut c = conn_with(b"a1 LOGIN test test\r\n", ConnState::NotAuthenticated);
    let cmd = c.decoder.read_command().unwrap().unwrap();
    assert_eq!(cmd.verb, "LOGIN");
    let (user, pass) = login_args(&mut c).unwrap();
    assert_eq!((user.as_str(), pass.as_str()), ("test", "test"));
    login_done(&mut c, &cmd.tag, "LOGIN completed", Ok(())).unwrap();
    assert_eq!(c.state, ConnState::Authenticated);
    let out = output(&mut c);
    assert!(out.starts_with("a1 OK [CAPABILITY "), "{out}");
    assert!(out.ends_with("] LOGIN completed\r\n"), "{out}");
}

#[test]
fn login_refused_is_authentication_failed() {
    let mut c = conn_with(b"", ConnState::NotAuthenticated);
    let r = login_done(&mut c, "a1", "LOGIN completed", Err(ImapError::no("bad password")));
    match r {
        Err(ImapError::No { code, text }) => {
            assert_eq!(code.as_deref(), Some("AUTHENTICATIONFAILED"));
            assert_eq!(text, "Authentication failed");
        }
        _ => panic!("expected NO"),
    }
    assert_eq!(c.state, ConnState::NotAuthenticated);
    assert_eq!(output(&mut c), "");
}

#[test]
fn test_capability() {
    let mut c = conn_with(b"\r\n", ConnState::Authenticated);
    handle_capability(&mut c, "a2").unwrap();
    let out = output(&mut c);
    assert!(out.contains("IMAP4rev1"), "{out}");
    assert!(out.contains("a2 OK"), "{out}");
}

#[test]
fn test_capability_format() {
    let mut c = conn_with(b"\r\n", ConnState::Authenticated);
    handle_capability(&mut c, "a2").unwrap();
    let out = output(&mut c);
    let cap_line = out.lines().find(|l| l.starts_with("* CAPABILITY")).expect("no * CAPABILITY line");
    assert!(cap_line.contains("IMAP4rev1"), "{cap_line}");
    assert!(cap_line.contains(" ID "), "{cap_line}");
}

#[test]
fn test_list_simple() {
    let mut c = conn_with(b"a2 LIST \"\" *\r\n", ConnState::Authenticated);
    let cmd = c.decoder.read_command().unwrap().unwrap();
    let (reference, pattern) = list_args(&mut c).unwrap();
    assert_eq!(reference, "");
    assert_eq!(pattern, "*");
    let boxes = vec![ListData {
        attrs: vec![MailboxAttr(MailboxAttr::HAS_NO_CHILDREN.to_string())],
        delimiter: "/".into(),
        name: "INBOX".into(),
        child_info: None,
        old_name: None,
        status: None,
    }];
    list_done(&mut c, &cmd.tag, false, &boxes);
    let out = output(&mut c);
    assert_eq!(out, "* LIST (\\HasNoChildren) \"/\" INBOX\r\na2 OK LIST completed\r\n");
}

#[test]
fn test_select() {
    let mut c = conn_with(b"INBOX\r\n", ConnState::Authenticated);
    let name = mailbox_args(&mut c).unwrap();
    assert_eq!(name, "INBOX");
    select_done(&mut c, "a2", false, &select_data(0));
    assert_eq!(c.state, ConnState::Selected);
    let out = output(&mut c);
    assert!(out.contains("* 0 EXISTS\r\n"), "{out}");
    assert!(out.contains("* FLAGS (\\Seen)\r\n"), "{out}");
    assert!(out.ends_with("a2 OK [READ-WRITE] SELECT completed\r\n"), "{out}");
}

#[test]
fn examine_is_read_only() {
    let mut c = conn_with(b"", ConnState::Authenticated);
    select_done(&mut c, "a3", true, &select_data(4));
    let out = output(&mut c);
    assert!(out.contains("* 4 EXISTS\r\n"), "{out}");
    assert!(out.ends_with("a3 OK [READ-ONLY] EXAMINE completed\r\n"), "{out}");
}

#[test]
fn select_before_login_is_refused() {
    let mut c = conn_with(b"INBOX\r\n", ConnState::NotAuthenticated);
    assert!(mailbox_args(&mut c).is_err());
}

#[test]
fn test_noop() {
    let mut c = conn_with(b"\r\n", ConnState::Authenticated);
    noop_args(&mut c).unwrap();
    noop_done(&mut c, "a2");
    assert_eq!(output(&mut c), "a2 OK NOOP completed\r\n");
}

#[test]
fn test_namespace() {
    let mut c = conn_with(b"\r\n", ConnState::Authenticated);
    namespace_args(&mut c).unwrap();
    let data = NamespaceData {
        personal: vec![NamespaceDescriptor { prefix: "".into(), delimiter: "/".into() }],
        other: vec![],
        shared: vec![],
    };
    namespace_done(&mut c, "a2", &data);
    assert_eq!(
        output(&mut c),
        "* NAMESPACE ((\"\" \"/\")) NIL NIL\r\na2 OK NAMESPACE completed\r\n"
    );
}

#[test]
fn test_logout() {
    let mut c = conn_with(b"", ConnState::Authenticated);
    handle_logout(&mut c, "a2").unwrap();
    assert_eq!(c.state, ConnState::Logout);
    assert_eq!(output(&mut c), "* BYE Logging out\r\na2 OK LOGOUT completed\r\n");
}

#[test]
fn test_create_delete() {
    let mut c = conn_with(b"a2 CREATE TestBox\r\na3 DELETE TestBox\r\n", ConnState::Authenticated);
    let c2 = c.decoder.read_command().unwrap().unwrap();
    assert_eq!(route(&c2.verb, c2.uid), Some(Command::Create));
    assert_eq!(mailbox_args(&mut c).unwrap(), "TestBox");
    let c3 = c.decoder.read_command().unwrap().unwrap();
    assert_eq!(route(&c3.verb, c3.uid), Some(Command::Delete));
    assert_eq!(mailbox_args(&mut c).unwrap(), "TestBox");
}

#[test]
fn test_id_command() {
    let mut c = conn_with(b"(\"name\" \"Delta Chat\")\r\n", ConnState::Authenticated);
    handle_id(&mut c, "a2").unwrap();
    let out = output(&mut c);
    assert!(out.contains("* ID"), "{out}");
    assert!(out.contains("yggmail"), "{out}");
    assert!(out.contains("a2 OK"), "{out}");
}

#[test]
fn test_authenticate_sasl_ir() {
    let mut c = conn_with(b"a1 AUTHENTICATE PLAIN AHRlc3QAdGVzdA==\r\n", ConnState::NotAuthenticated);
    let cmd = c.decoder.read_command().unwrap().unwrap();
    assert_eq!(route(&cmd.verb, cmd.uid), Some(Command::Authenticate));
    let start = authenticate_begin(&mut c).unwrap();
    assert_eq!(start.mechanism, "PLAIN");
    let initial = start.initial.unwrap();
    let (user, pass) = authenticate_credentials(&initial).unwrap();
    assert_eq!((user.as_str(), pass.as_str()), ("test", "test"));
    let text = auth_success_text(&start.mechanism);
    login_done(&mut c, &cmd.tag, &text, Ok(())).unwrap();
    let all = output(&mut c);
    assert!(all.contains("a1 OK"), "auth sasl-ir: {all}");
    assert!(all.ends_with("PLAIN authentication successful\r\n"), "{all}");
}

#[test]
fn test_authenticate_with_continuation() {
    let mut c = conn_with(b"PLAIN\r\nAHRlc3QAdGVzdA==\r\n", ConnState::NotAuthenticated);
    let start = authenticate_begin(&mut c).unwrap();
    assert!(start.initial.is_none());
    assert_eq!(output(&mut c), "+ \r\n");
    let line = authenticate_response(&mut c).unwrap();
    let (user, pass) = authenticate_credentials(&line).unwrap();
    assert_eq!((user.as_str(), pass.as_str()), ("test", "test"));
    let text = auth_success_text(&start.mechanism);
    login_done(&mut c, "a1", &text, Ok(())).unwrap();
    let all = output(&mut c);
    assert!(all.contains("a1 OK"), "auth continuation: {all}");
}

#[test]
fn authenticate_other_mechanism_is_refused() {
    let mut c = conn_with(b"CRAM-MD5\r\n", ConnState::NotAuthenticated);
    match authenticate_begin(&mut c) {
        Err(ImapError::No { code, text }) => {
            assert!(code.is_none());
            assert_eq!(text, "SASL mechanism CRAM-MD5 not supported");
        }
        _ => panic!("expected NO"),
    }
    assert_eq!(output(&mut c), "");
}

#[test]
fn authenticate_mechanism_in_any_case() {
    let mut c = conn_with(b"plain dXNlcgB1c2VyAHB3\r\n", ConnState::NotAuthenticated);
    let start = authenticate_begin(&mut c).unwrap();
    assert_eq!(start.mechanism, "plain");
    assert_eq!(start.initial.as_deref(), Some("dXNlcgB1c2VyAHB3"));
    assert_eq!(output(&mut c), "");
}

#[test]
fn authenticate_without_line_end_fails() {
    let mut c = conn_with(b"PLAIN", ConnState::NotAuthenticated);
    assert!(authenticate_begin(&mut c).is_err());
}

#[test]
fn id_with_nil_is_answered() {
    let mut c = conn_with(b"NIL\r\n", ConnState::NotAuthenticated);
    handle_id(&mut c, "t1").unwrap();
    assert_eq!(output(&mut c), "* ID (\"name\" \"yggmail\")\r\nt1 OK ID completed\r\n");
}

#[test]
fn id_without_closing_paren_fails() {
    let mut c = conn_with(b"(\"name\" \"x\"\r\n", ConnState::NotAuthenticated);
    assert!(handle_id(&mut c, "t2").is_err());
    assert_eq!(output(&mut c), "");
}

#[test]
fn test_deltachat_prefetch_fetch_parses() {
    let mut c = conn_with(
        b"a3 UID FETCH 1:* (UID INTERNALDATE RFC822.SIZE BODY.PEEK[HEADER.FIELDS (MESSAGE-ID DATE FROM IN-REPLY-TO REFERENCES CHAT-VERSION)])\r\na4 NOOP\r\n",
        ConnState::Selected,
    );
    let cmd = c.decoder.read_command().unwrap().unwrap();
    assert!(cmd.uid);
    assert_eq!(cmd.verb, "FETCH");
    let (set, opts) = fetch_args(&mut c).unwrap();
    assert_eq!(set.to_wire(), "1:*");
    assert!(opts.uid && opts.internal_date && opts.rfc822_size);
    assert_eq!(opts.body_sections.len(), 1);
    assert!(opts.body_sections[0].peek);
    match &opts.body_sections[0].specifier {
        SectionSpecifier::HeaderFields(fields) => assert_eq!(fields.len(), 6),
        other => panic!("unexpected specifier {other:?}"),
    }
    fetch_done(&mut c, &cmd.tag, true, &opts, &[]);
    assert_eq!(output(&mut c), "a3 OK FETCH completed\r\n");
    let next = c.decoder.read_command().unwrap().unwrap();
    assert_eq!(next.tag, "a4");
    assert_eq!(next.verb, "NOOP");
}

#[test]
fn test_fetch_partial_section_parses() {
    let mut c = conn_with(b"1 (UID FLAGS BODY.PEEK[]<0.100>)\r\na4 NOOP\r\n", ConnState::Selected);
    let (_, opts) = fetch_args(&mut c).unwrap();
    assert!(opts.uid && opts.flags);
    assert_eq!(opts.body_sections.len(), 1);
    assert_eq!(opts.body_sections[0].partial, Some((0, 100)));
    let next = c.decoder.read_command().unwrap().unwrap();
    assert_eq!(next.tag, "a4");
}

#[test]
fn fetch_writes_each_message() {
    let mut c = conn_with(b"1 (UID FLAGS RFC822.SIZE)\r\n", ConnState::Selected);
    let (_, opts) = fetch_args(&mut c).unwrap();
    let msg = FetchedMessage {
        seq: 1,
        uid: 42,
        flags: vec![Flag::seen()],
        internal_date: "01-Jan-2024 00:00:00 +0000".into(),
        rfc822_size: 5,
        body: b"hello".to_vec(),
    };
    fetch_done(&mut c, "a5", true, &opts, &[msg]);
    let out = output(&mut c);
    assert!(out.starts_with("* 1 FETCH ("), "{out}");
    assert!(out.contains("UID 42"), "{out}");
    assert!(out.contains("FLAGS (\\Seen)"), "{out}");
    assert!(out.contains("RFC822.SIZE 5"), "{out}");
    assert!(out.ends_with("a5 OK FETCH completed\r\n"), "{out}");
}

#[test]
fn fetch_needs_selected_state() {
    let mut c = conn_with(b"1 (UID)\r\n", ConnState::Authenticated);
    assert!(fetch_args(&mut c).is_err());
}

#[test]
fn store_reports_new_flags_unless_silent() {
    let mut c = conn_with(b"1:2 +FLAGS (\\Seen \\Flagged)\r\n", ConnState::Selected);
    let (set, sf) = store_args(&mut c).unwrap();
    assert_eq!(set.to_wire(), "1:2");
    assert_eq!(sf.op, StoreOp::Add);
    assert_eq!(sf.flags, vec!["\\Seen".to_string(), "\\Flagged".to_string()]);
    let results = vec![StoredMessage { seq: 1, uid: 10, flags: vec![Flag::seen()] }];
    store_done(&mut c, "a6", sf.op, &results);
    assert_eq!(output(&mut c), "* 1 FETCH (FLAGS (\\Seen))\r\na6 OK STORE completed\r\n");

    store_done(&mut c, "a7", StoreOp::AddSilent, &results);
    assert_eq!(output(&mut c), "a7 OK STORE completed\r\n");
}

#[test]
fn store_silent_keyword_is_accepted() {
    let mut c = conn_with(b"3 -FLAGS.SILENT \\Deleted\r\n", ConnState::Selected);
    let (set, sf) = store_args(&mut c).unwrap();
    assert_eq!(set.to_wire(), "3");
    assert_eq!(sf.op, StoreOp::RemoveSilent);
    assert_eq!(sf.flags, vec!["\\Deleted".to_string()]);
    let mut c = conn_with(b"1 +FLAGS.SILENT (\\Seen)\r\n", ConnState::Selected);
    let (set, sf) = store_args(&mut c).unwrap();
    assert_eq!(set.0, vec![(1, 1)]);
    assert_eq!(sf.op, StoreOp::AddSilent);
    let results = vec![StoredMessage { seq: 1, uid: 10, flags: vec![Flag::seen()] }];
    store_done(&mut c, "a5", sf.op, &results);
    assert_eq!(output(&mut c), "a5 OK STORE completed\r\n");
}

#[test]
fn search_plain_lists_results() {
    let mut c = conn_with(b"ALL\r\n", ConnState::Selected);
    let (opts, extended, criteria) = search_args(&mut c).unwrap();
    assert!(!extended);
    assert!(criteria.all);
    search_done(&mut c, "a8", false, extended, &opts, &[2, 4, 5]);
    assert_eq!(output(&mut c), "* SEARCH 2 4 5\r\na8 OK SEARCH completed\r\n");
}

#[test]
fn search_return_gives_esearch() {
    let mut c = conn_with(b"RETURN (MIN MAX COUNT) UNSEEN\r\n", ConnState::Selected);
    let (opts, extended, criteria) = search_args(&mut c).unwrap();
    assert!(extended);
    assert!(opts.return_min && opts.return_max && opts.return_count);
    assert!(criteria.unseen);
    search_done(&mut c, "a9", true, extended, &opts, &[7, 3, 9]);
    let out = output(&mut c);
    assert!(out.starts_with("* ESEARCH (TAG \"a9\") UID"), "{out}");
    assert!(out.contains("MIN 3"), "{out}");
    assert!(out.contains("MAX 9"), "{out}");
    assert!(out.contains("COUNT 3"), "{out}");
    assert!(out.ends_with("a9 OK SEARCH completed\r\n"), "{out}");
}

#[test]
fn copy_with_uids_gives_copyuid() {
    let mut c = conn_with(b"1:2 Archive\r\n", ConnState::Selected);
    let (set, dest) = copy_args(&mut c).unwrap();
    assert_eq!(set.to_wire(), "1:2");
    assert_eq!(dest, "Archive");
    let data = CopyData { uid_validity: 9, source_uids: vec![1, 2], dest_uids: vec![11, 12] };
    copy_done(&mut c, "b1", "COPY", &data);
    assert_eq!(output(&mut c), "b1 OK [COPYUID 9 (1 2) (11 12)] COPY completed\r\n");
    let empty = CopyData { uid_validity: 9, source_uids: vec![], dest_uids: vec![] };
    copy_done(&mut c, "b2", "MOVE", &empty);
    assert_eq!(output(&mut c), "b2 OK MOVE completed\r\n");
}

#[test]
fn expunge_lists_sequence_numbers() {
    let mut c = conn_with(b"4:6\r\n", ConnState::Selected);
    let set = uid_expunge_args(&mut c).unwrap();
    assert_eq!(set.to_wire(), "4:6");
    expunge_done(&mut c, "b3", "EXPUNGE", &[3, 3]);
    assert_eq!(output(&mut c), "* 3 EXPUNGE\r\n* 3 EXPUNGE\r\nb3 OK EXPUNGE completed\r\n");
}

#[test]
fn append_with_flags_date_and_literal() {
    let mut c = conn_with(
        b"INBOX (\\Seen) \"01-Jan-2024 00:00:00 +0000\" {5}\r\nhello",
        ConnState::Authenticated,
    );
    let args = append_args(&mut c).unwrap();
    assert_eq!(args.mailbox, "INBOX");
    assert_eq!(args.flags, Some(vec![Flag::seen()]));
    assert_eq!(args.date.as_deref(), Some("01-Jan-2024 00:00:00 +0000"));
    assert_eq!(args.data, b"hello");
    append_done(&mut c, "b4", &AppendData { uid_validity: Some(1), uid: Some(7) });
    assert_eq!(output(&mut c), "b4 OK [APPENDUID 1 7] APPEND completed\r\n");
    append_done(&mut c, "b5", &AppendData { uid_validity: None, uid: Some(7) });
    assert_eq!(output(&mut c), "b5 OK APPEND completed\r\n");
}

#[test]
fn append_literal_only() {
    let mut c = conn_with(b"Drafts {3}\r\nabc", ConnState::Selected);
    let args = append_args(&mut c).unwrap();
    assert_eq!(args.mailbox, "Drafts");
    assert!(args.flags.is_none());
    assert!(args.date.is_none());
    assert_eq!(args.data, b"abc");
}

#[test]
fn append_before_login_is_refused() {
    let mut c = conn_with(b"INBOX {1}\r\nx", ConnState::NotAuthenticated);
    assert!(append_args(&mut c).is_err());
}

#[test]
fn status_writes_given_values() {
    let mut c = conn_with(b"INBOX (MESSAGES UNSEEN)\r\n", ConnState::Authenticated);
    let name = status_args(&mut c).unwrap();
    assert_eq!(name, "INBOX");
    let data = StatusData { messages: Some(3), unseen: Some(1), ..Default::default() };
    status_done(&mut c, "b6", &name, &data);
    let out = output(&mut c);
    assert!(out.starts_with("* STATUS INBOX ("), "{out}");
    assert!(out.contains("MESSAGES 3"), "{out}");
    assert!(out.contains("UNSEEN 1"), "{out}");
    assert!(out.ends_with("b6 OK STATUS completed\r\n"), "{out}");
}

#[test]
fn enable_lists_known_capabilities() {
    let mut c = conn_with(b" CONDSTORE UNKNOWN\r\n", ConnState::Authenticated);
    handle_enable(&mut c, "b7").unwrap();
    let out = output(&mut c);
    assert!(out.ends_with("b7 OK ENABLE completed\r\n"), "{out}");
    assert!(!out.contains("UNKNOWN"), "{out}");
}

#[test]
fn idle_reports_growth_and_ends_on_done() {
    let mut c = conn_with(b"\r\nDONE\r\n", ConnState::Selected);
    idle_begin(&mut c).unwrap();
    assert_eq!(output(&mut c), "+ idling\r\n");
    let last = idle_tick(&mut c, Some(3), Some(3));
    assert_eq!(last, Some(3));
    assert_eq!(output(&mut c), "");
    let last = idle_tick(&mut c, Some(5), last);
    assert_eq!(last, Some(5));
    assert_eq!(output(&mut c), "* 5 EXISTS\r\n");
    assert_eq!(idle_tick(&mut c, None, last), Some(5));
    assert!(idle_read(&mut c).unwrap());
    idle_done(&mut c, "b8");
    assert_eq!(output(&mut c), "b8 OK IDLE terminated\r\n");
}

#[test]
fn idle_needs_selected_state() {
    let mut c = conn_with(b"\r\n", ConnState::Authenticated);
    assert!(idle_begin(&mut c).is_err());
}

#[test]
fn idle_skips_other_lines() {
    let mut c = conn_with(b"NOPE junk\r\ndone\r\n", ConnState::Selected);
    assert!(!idle_read(&mut c).unwrap());
    assert!(idle_read(&mut c).unwrap());
}

#[test]
fn close_returns_to_authenticated() {
    let mut c = conn_with(b"", ConnState::Selected);
    close_check(&c).unwrap();
    close_done(&mut c, "b9", "CLOSE");
    assert_eq!(c.state, ConnState::Authenticated);
    assert_eq!(output(&mut c), "b9 OK CLOSE completed\r\n");
    assert!(close_check(&c).is_err());
}

#[test]
fn unknown_verb_before_login_closes() {
    let mut c = conn_with(b"", ConnState::NotAuthenticated);
    let e = unknown_command(&mut c, "GET");
    assert!(matches!(e, ImapError::Closed));
    assert_eq!(c.state, ConnState::Logout);
    assert_eq!(output(&mut c), "* BYE Unknown command in not-authenticated state\r\n");
}

#[test]
fn unknown_verb_after_login_is_bad() {
    let mut c = conn_with(b"", ConnState::Authenticated);
    let e = unknown_command(&mut c, "FROB");
    finish(&mut c, "c1", Err(e)).unwrap();
    assert_eq!(output(&mut c), "c1 BAD [CLIENTBUG] Unknown command: FROB\r\n");
}

#[test]
fn finish_turns_errors_into_status_lines() {
    let mut c = conn_with(b"", ConnState::Authenticated);
    finish(&mut c, "c2", Err(ImapError::no("nope"))).unwrap();
    assert_eq!(output(&mut c), "c2 NO nope\r\n");
    assert!(finish(&mut c, "c3", Ok(())).is_ok());
    assert_eq!(output(&mut c), "");
    assert!(matches!(finish(&mut c, "c4", Err(ImapError::Closed)), Err(ImapError::Closed)));
}

#[test]
fn routing_matches_upper_case_verbs() {
    assert_eq!(route("NOOP", false), Some(Command::Noop));
    assert_eq!(route("noop", false), None);
    assert_eq!(route("EXPUNGE", false), Some(Command::Expunge));
    assert_eq!(route("EXPUNGE", true), Some(Command::UidExpunge));
    assert_eq!(route("UID EXPUNGE", false), None);
    assert_eq!(route("FETCH", true), Some(Command::Fetch));
    assert_eq!(route("FROB", false), None);
    assert!(polls_after("NOOP"));
    assert!(!polls_after("LOGOUT"));
}

#[test]
fn base64_decodes_plain_credentials() {
    assert_eq!(base64_decode("AHRlc3QAdGVzdA==").unwrap(), b"\0test\0test");
    assert_eq!(base64_decode("aGk=").unwrap(), b"hi");
    assert_eq!(base64_decode("").unwrap(), b"");
    assert!(base64_decode("a*b=").is_err());
    assert_eq!(base64_decode("AHRlc3QAdGVzdA").unwrap(), b"\0test\0test");
    assert_eq!(base64_decode("aGk").unwrap(), b"hi");
    assert_eq!(base64_decode("YWJj").unwrap(), b"abc");
    assert_eq!(base64_decode("aGk=*").unwrap(), b"hi");
}

#[test]
fn credentials_need_two_nul_separators() {
    assert!(authenticate_credentials("aGk=").is_err());
    assert!(authenticate_credentials("!!!!").is_err());
}

#[test]
fn uid_set_from_uids() {
    assert_eq!(seq_set_from_uids(&[3, 1, 2, 7]).to_wire(), "1:3,7");
    assert_eq!(seq_set_from_uids(&[5]).to_wire(), "5");
    assert!(seq_set_from_uids(&[]).is_empty());
}

#[test]
fn seqset_built_from_results() {
    assert_eq!(build_seqset(&[5, 3, 7]).to_wire(), "3,5,7");
    assert_eq!(build_seqset(&[1, 2, 3]).to_wire(), "1:3");
    assert_eq!(build_seqset(&[1, u32::MAX]).to_wire(), "1,*");
}

#[test]
fn test_session_tracker_new() {
    let mut tracker = SessionTracker::new();
    assert!(!tracker.has_pending());
    assert!(tracker.drain().is_empty());
}

#[test]
fn session_tracker_keeps_order_and_signals() {
    let mut tracker = SessionTracker::new();
    let mut rx = tracker.take_receiver();
    tracker.push(TrackerUpdate::Expunge(3));
    tracker.push(TrackerUpdate::NumMessages(4));
    assert!(tracker.has_pending());
    assert!(rx.try_recv().is_ok());
    let updates = tracker.drain();
    assert_eq!(updates.len(), 2);
    assert!(matches!(updates[0], TrackerUpdate::Expunge(3)));
    assert!(matches!(updates[1], TrackerUpdate::NumMessages(4)));
    assert!(!tracker.has_pending());
    drop(rx);
    let mut rx2 = tracker.take_receiver();
    tracker.push(TrackerUpdate::Expunge(1));
    assert!(rx2.try_recv().is_ok());
}

#[test]
fn session_tracker_signals_at_most_capacity() {
    let mut tracker = SessionTracker::new();
    let mut rx = tracker.take_receiver();
    for i in 0..100 {
        tracker.push(TrackerUpdate::Expunge(i));
    }
    assert_eq!(tracker.drain().len(), 100);
    let mut signals = 0;
    while rx.try_recv().is_ok() {
        signals += 1;
    }
    assert_eq!(signals, 64);
}

#[test]
fn uid_expunge_is_routed_from_the_decoder() {
    let mut c = conn_with(b"a5 UID EXPUNGE 3:5\r\n", ConnState::Selected);
    let cmd = c.decoder.read_command().unwrap().unwrap();
    assert_eq!(cmd.verb, "EXPUNGE");
    assert!(cmd.uid);
    assert_eq!(route(&cmd.verb, cmd.uid), Some(Command::UidExpunge));
}

#[test]
fn search_return_right_after_the_verb() {
    let mut c = conn_with(b"a1 SEARCH RETURN (MIN COUNT) ALL\r\n", ConnState::Selected);
    let cmd = c.decoder.read_command().unwrap().unwrap();
    assert_eq!(cmd.verb, "SEARCH");
    let (opts, extended, criteria) = search_args(&mut c).unwrap();
    assert!(extended);
    assert!(criteria.all);
    search_done(&mut c, "a1", false, extended, &opts, &[2, 5, 9]);
    assert_eq!(output(&mut c), "* ESEARCH (TAG \"a1\") MIN 2 COUNT 3\r\na1 OK SEARCH completed\r\n");
}

#[test]
fn select_closes_a_selected_mailbox_first() {
    let c = conn_with(b"", ConnState::Selected);
    assert!(select_closes_first(&c));
    let c = conn_with(b"", ConnState::Authenticated);
    assert!(!select_closes_first(&c));
}
