//! The decoder's readers and the encoder's writers on concrete input.

use imap_rs::codec::{is_atom_char, AsyncDecoder, Encoder};

fn dec(data: &[u8]) -> AsyncDecoder {
    AsyncDecoder::new(data.to_vec())
}

#[test]
fn test_read_atom() {
    let mut d = dec(b"hello world\r\n");
    assert_eq!(d.read_atom().unwrap(), "hello");
}

#[test]
fn test_read_number() {
    let mut d = dec(b"12345 ");
    assert_eq!(d.read_number().unwrap(), 12345);
}

#[test]
fn test_read_quoted() {
    let mut d = dec(b"\"hello world\"");
    assert_eq!(d.read_quoted().unwrap(), "hello world");
}

#[test]
fn test_read_quoted_escape() {
    let mut d = dec(b"\"hello \\\"world\\\"\"");
    assert_eq!(d.read_quoted().unwrap(), "hello \"world\"");
}

#[test]
fn test_read_nstring_nil() {
    let mut d = dec(b"NIL ");
    assert_eq!(d.read_nstring().unwrap(), None);
}

#[test]
fn test_read_nstring_value() {
    let mut d = dec(b"\"hello\" ");
    assert_eq!(d.read_nstring().unwrap(), Some("hello".to_string()));
}

#[test]
fn test_read_astring_atom() {
    let mut d = dec(b"INBOX ");
    assert_eq!(d.read_astring().unwrap(), "INBOX");
}

#[test]
fn test_read_astring_quoted() {
    let mut d = dec(b"\"Sent Mail\" ");
    assert_eq!(d.read_astring().unwrap(), "Sent Mail");
}

#[test]
fn test_read_num_set() {
    let mut d = dec(b"1:5,7,10:* ");
    assert_eq!(d.read_num_set_str().unwrap(), "1:5,7,10:*");
}

#[test]
fn test_read_astring_empty_quoted() {
    let mut d = dec(b"\"\" ");
    assert_eq!(d.read_astring().unwrap(), "");
}

#[test]
fn test_full_list_command_parse() {
    let mut d = dec(b"a2 LIST \"\" *\r\n");
    let cmd = d.read_command().unwrap().unwrap();
    assert_eq!(cmd.tag, "a2");
    assert_eq!(cmd.verb, "LIST");
    assert_eq!(d.read_astring().unwrap(), "");
    d.expect_sp().unwrap();
    assert_eq!(d.read_list_mailbox().unwrap(), "*");
    d.expect_crlf().unwrap();
}

#[test]
fn test_read_text() {
    let mut d = dec(b"Hello World\r\n");
    assert_eq!(d.read_text().unwrap(), "Hello World");
}

#[test]
fn test_read_number64() {
    let mut d = dec(b"-12345 ");
    assert_eq!(d.read_number64().unwrap(), -12345);
}

#[test]
fn test_encoder_atom() {
    let mut enc = Encoder::new();
    enc.atom("HELLO");
    enc.sp();
    enc.atom("WORLD");
    enc.crlf();
    assert_eq!(enc.take_bytes(), b"HELLO WORLD\r\n");
}

#[test]
fn test_encoder_quoted() {
    let mut enc = Encoder::new();
    enc.quoted("hello world");
    enc.crlf();
    assert_eq!(enc.take_bytes(), b"\"hello world\"\r\n");
}

#[test]
fn test_encoder_number() {
    let mut enc = Encoder::new();
    enc.number(42);
    enc.crlf();
    assert_eq!(enc.take_bytes(), b"42\r\n");
}

#[test]
fn test_encoder_nil() {
    let mut enc = Encoder::new();
    enc.nil();
    enc.crlf();
    assert_eq!(enc.take_bytes(), b"NIL\r\n");
}

#[test]
fn test_encoder_nstring_nil() {
    let mut enc = Encoder::new();
    enc.nstring("");
    enc.crlf();
    assert_eq!(enc.take_bytes(), b"NIL\r\n");
}

#[test]
fn test_encoder_nstring_value() {
    let mut enc = Encoder::new();
    enc.nstring("hello");
    enc.crlf();
    assert_eq!(enc.take_bytes(), b"\"hello\"\r\n");
}

#[test]
fn test_encoder_flag() {
    let mut enc = Encoder::new();
    enc.flag("\\Seen");
    enc.crlf();
    assert_eq!(enc.take_bytes(), b"\\Seen\r\n");
}

#[test]
fn test_encoder_text() {
    let mut enc = Encoder::new();
    enc.text("Hello World");
    enc.crlf();
    assert_eq!(enc.take_bytes(), b"Hello World\r\n");
}

#[test]
fn test_encoder_special() {
    let mut enc = Encoder::new();
    enc.special(b'[');
    enc.atom("TEST");
    enc.special(b']');
    enc.crlf();
    assert_eq!(enc.take_bytes(), b"[TEST]\r\n");
}

#[test]
fn test_encoder_write_status() {
    let mut enc = Encoder::new();
    enc.write_status("a1", "OK", None, "completed");
    assert_eq!(enc.take_bytes(), b"a1 OK completed\r\n");
}

#[test]
fn test_encoder_write_status_with_code() {
    let mut enc = Encoder::new();
    enc.write_status("*", "OK", Some("READ-WRITE"), "SELECT completed");
    assert_eq!(enc.take_bytes(), b"* OK [READ-WRITE] SELECT completed\r\n");
}

#[test]
fn test_encoder_write_continuation() {
    let mut enc = Encoder::new();
    enc.write_continuation("Ready for literal");
    assert_eq!(enc.take_bytes(), b"+ Ready for literal\r\n");
}

#[test]
fn test_is_atom_char() {
    assert!(is_atom_char(b'a'));
    assert!(is_atom_char(b'Z'));
    assert!(is_atom_char(b'0'));
    assert!(is_atom_char(b'-'));
    assert!(!is_atom_char(b'('));
    assert!(!is_atom_char(b')'));
    assert!(!is_atom_char(b' '));
    assert!(!is_atom_char(b'{'));
    assert!(!is_atom_char(b'%'));
    assert!(!is_atom_char(b'*'));
    assert!(!is_atom_char(b'"'));
    assert!(!is_atom_char(b'\\'));
}

#[test]
fn test_read_command() {
    let mut d = dec(b"a1 LOGIN user pass\r\n");
    let cmd = d.read_command().unwrap().unwrap();
    assert_eq!(cmd.tag, "a1");
    assert_eq!(cmd.verb, "LOGIN");
    assert!(!cmd.uid);
}

#[test]
fn test_read_command_uid() {
    let mut d = dec(b"a1 UID FETCH 1:5 FLAGS\r\n");
    let cmd = d.read_command().unwrap().unwrap();
    assert_eq!(cmd.tag, "a1");
    assert_eq!(cmd.verb, "FETCH");
    assert!(cmd.uid);
}

#[test]
fn test_read_fetch_att_name_stops_at_bracket() {
    let mut d = dec(b"BODY.PEEK[HEADER.FIELDS (MESSAGE-ID DATE)]");
    assert_eq!(d.read_fetch_att_name().unwrap(), "BODY.PEEK");
    assert_eq!(d.read_byte().unwrap(), b'[');
}

#[test]
fn test_read_fetch_att_name_plain_keyword() {
    let mut d = dec(b"UID INTERNALDATE ");
    assert_eq!(d.read_fetch_att_name().unwrap(), "UID");
    d.read_byte().unwrap();
    assert_eq!(d.read_fetch_att_name().unwrap(), "INTERNALDATE");
}

#[test]
fn test_full_deltachat_prefetch_parse() {
    let mut d = dec(b"(UID INTERNALDATE RFC822.SIZE BODY.PEEK[HEADER.FIELDS (MESSAGE-ID DATE FROM IN-REPLY-TO REFERENCES CHAT-VERSION )])\r\n");
    assert_eq!(d.read_byte().unwrap(), b'(');
    let attrs = ["UID", "INTERNALDATE", "RFC822.SIZE", "BODY.PEEK"];
    for expected in attrs {
        let name = d.read_fetch_att_name().unwrap();
        assert_eq!(name, expected);
        let sep = d.read_byte().unwrap();
        if expected == "BODY.PEEK" {
            assert_eq!(sep, b'[');
            loop {
                let b = d.read_byte().unwrap();
                if b == b']' {
                    break;
                }
            }
        } else {
            assert_eq!(sep, b' ');
        }
    }
    assert_eq!(d.read_byte().unwrap(), b')');
    d.expect_crlf().unwrap();
}

#[test]
fn test_read_flag_backslash() {
    let mut d = dec(b"\\Seen \\Recent ");
    assert_eq!(d.read_flag().unwrap(), "\\Seen");
    d.read_byte().unwrap();
    assert_eq!(d.read_flag().unwrap(), "\\Recent");
}

#[test]
fn test_read_flag_keyword() {
    let mut d = dec(b"$MDNSent Junk ");
    assert_eq!(d.read_flag().unwrap(), "$MDNSent");
    d.read_byte().unwrap();
    assert_eq!(d.read_flag().unwrap(), "Junk");
}

#[test]
fn test_read_bytes_resets_per_command() {
    let mut d = dec(b"a1 NOOP\r\na2 NOOP\r\na3 NOOP\r\n");
    d.set_max_size(12);
    let c1 = d.read_command().unwrap().unwrap();
    assert_eq!(c1.tag, "a1");
    d.expect_crlf().unwrap();
    let c2 = d.read_command().unwrap().unwrap();
    assert_eq!(c2.tag, "a2");
    d.expect_crlf().unwrap();
    let c3 = d.read_command().unwrap().unwrap();
    assert_eq!(c3.tag, "a3");
}

#[test]
fn literal_is_read_whole() {
    let mut d = dec(b"{5}\r\nhello rest ");
    let (data, non_sync) = d.read_literal().unwrap();
    assert_eq!(data, b"hello");
    assert!(!non_sync);
    d.expect_sp().unwrap();
    assert_eq!(d.read_atom().unwrap(), "rest");
}

#[test]
fn non_sync_literal_is_marked() {
    let mut d = dec(b"{3+}\r\nabc");
    let (data, non_sync) = d.read_literal().unwrap();
    assert_eq!(data, b"abc");
    assert!(non_sync);
}

#[test]
fn short_literal_is_an_error() {
    let mut d = dec(b"{10}\r\nabc");
    assert!(d.read_literal().is_err());
}

#[test]
fn command_limit_refuses_long_line() {
    let mut d = dec(b"a1 VERYLONGCOMMANDNAME\r\n");
    d.set_max_size(6);
    assert!(d.read_command().is_err());
}

#[test]
fn atom_at_end_of_input_is_an_error() {
    let mut d = dec(b"hello");
    assert!(d.read_atom().is_err());
}

#[test]
fn number_without_digits_is_an_error() {
    let mut d = dec(b"x ");
    assert!(d.read_number().is_err());
}

#[test]
fn number_too_large_is_an_error() {
    let mut d = dec(b"99999999999 ");
    assert!(d.read_number().is_err());
}

#[test]
fn unread_byte_is_read_again() {
    let mut d = dec(b"ab");
    let a = d.read_byte().unwrap();
    d.unread_byte(a);
    assert_eq!(d.peek_byte().unwrap(), b'a');
    assert_eq!(d.read_byte().unwrap(), b'a');
    assert_eq!(d.read_byte().unwrap(), b'b');
    assert!(d.read_byte().is_err());
}

#[test]
fn fed_bytes_are_appended() {
    let mut d = dec(b"hel");
    d.feed(b"lo ");
    assert_eq!(d.read_atom().unwrap(), "hello");
}

#[test]
fn string_reads_quoted_or_literal() {
    let mut d = dec(b"\"a b\" {2}\r\nxy");
    assert_eq!(d.read_string().unwrap(), "a b");
    d.expect_sp().unwrap();
    assert_eq!(d.read_string().unwrap(), "xy");
}

#[test]
fn crlf_accepts_bare_lf() {
    let mut d = dec(b"\nX ");
    d.expect_crlf().unwrap();
    assert_eq!(d.read_atom().unwrap(), "X");
}

#[test]
fn discard_line_skips_to_next_line() {
    let mut d = dec(b"junk junk\r\nnext ");
    d.discard_line();
    assert_eq!(d.read_atom().unwrap(), "next");
}

#[test]
fn encoder_string_picks_quoted_or_literal() {
    let mut enc = Encoder::new();
    enc.string("plain");
    enc.sp();
    enc.string("two\r\nlines");
    assert_eq!(enc.take_bytes(), b"\"plain\" {10}\r\ntwo\r\nlines");
}

#[test]
fn encoder_quoted_escapes() {
    let mut enc = Encoder::new();
    enc.quoted("a\"b\\c");
    assert_eq!(enc.take_bytes(), b"\"a\\\"b\\\\c\"");
}

#[test]
fn encoder_number64_negative() {
    let mut enc = Encoder::new();
    enc.number64(-7);
    assert_eq!(enc.take_bytes(), b"-7");
}

#[test]
fn encoder_capability_status() {
    let mut enc = Encoder::new();
    enc.write_capability_status("a1", "OK", &["IMAP4rev1".to_string(), "IDLE".to_string()], "done");
    assert_eq!(enc.take_bytes(), b"a1 OK [CAPABILITY IMAP4rev1 IDLE] done\r\n");
}

fn plain_text_part() -> imap_rs::bodystructure::BodyStructure {
    imap_rs::bodystructure::BodyStructure::SinglePart {
        typ: "text".into(),
        subtype: "plain".into(),
        params: Default::default(),
        id: String::new(),
        description: String::new(),
        encoding: "7bit".into(),
        size: 10,
        message_rfc822: None,
        text: Some(imap_rs::bodystructure::BodyStructureText { num_lines: 1 }),
        extended: None,
    }
}

#[test]
fn multipart_children_are_adjacent() {
    let bs = imap_rs::bodystructure::BodyStructure::MultiPart {
        children: vec![plain_text_part(), plain_text_part()],
        subtype: "mixed".into(),
        extended: None,
    };
    let mut enc = Encoder::new();
    imap_rs::writer::write_body_structure(&mut enc, &bs);
    assert_eq!(
        String::from_utf8(enc.take_bytes()).unwrap(),
        "((\"text\" \"plain\" NIL NIL NIL \"7bit\" 10 1)(\"text\" \"plain\" NIL NIL NIL \"7bit\" 10 1) \"mixed\")"
    );
}
