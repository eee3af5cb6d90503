//! What is read back of what was written, on concrete values.

use imap_rs::codec::{AsyncDecoder, Encoder};
use imap_rs::conn::Conn;
use imap_rs::seqset::SeqSet;

fn written(f: impl FnOnce(&mut Encoder)) -> Vec<u8> {
    let mut enc = Encoder::new();
    f(&mut enc);
    enc.take_bytes()
}

fn decoder_after(bytes: Vec<u8>, rest: &[u8]) -> AsyncDecoder {
    let mut all = bytes;
    all.extend_from_slice(rest);
    AsyncDecoder::new(all)
}

#[test]
fn quoted_string_reads_back() {
    let bytes = written(|e| e.quoted("say \"hi\" \\ bye"));
    let mut d = decoder_after(bytes, b" next ");
    assert_eq!(d.read_quoted().unwrap(), "say \"hi\" \\ bye");
    d.expect_sp().unwrap();
    assert_eq!(d.read_atom().unwrap(), "next");
}

#[test]
fn number_reads_back() {
    for n in [0u32, 7, 10, 12345, u32::MAX] {
        let bytes = written(|e| e.number(n));
        let mut d = decoder_after(bytes, b" ");
        assert_eq!(d.read_number().unwrap(), n);
        assert_eq!(d.read_byte().unwrap(), b' ');
    }
}

#[test]
fn atom_reads_back() {
    let bytes = written(|e| e.atom("BODY.PEEK"));
    let mut d = decoder_after(bytes, b"(");
    assert_eq!(d.read_atom().unwrap(), "BODY.PEEK");
    assert_eq!(d.read_byte().unwrap(), b'(');
}

#[test]
fn literal_reads_back() {
    let data = vec![0u8, 255, 13, 10, b'x'];
    let bytes = written(|e| e.literal(&data));
    assert_eq!(&bytes[..5], b"{5}\r\n");
    let mut d = decoder_after(bytes, b"rest");
    let (back, non_sync) = d.read_literal().unwrap();
    assert_eq!(back, data);
    assert!(!non_sync);
}

#[test]
fn string_reads_back_quoted_or_literal() {
    for s in ["plain", "", "two\r\nlines", "caf\u{e9}", "quote \" inside"] {
        let bytes = written(|e| e.string(s));
        let mut d = decoder_after(bytes, b" X ");
        assert_eq!(d.read_string().unwrap(), s);
        d.expect_sp().unwrap();
        assert_eq!(d.read_atom().unwrap(), "X");
    }
}

#[test]
fn seq_set_wire_parses_back() {
    let mut set = SeqSet::default();
    set.add_range(1, 3);
    set.add_num(7);
    set.add_range(10, u32::MAX);
    let wire = set.to_wire();
    assert_eq!(wire, "1:3,7,10:*");
    let back = SeqSet::parse(&wire).unwrap();
    assert_eq!(back.0, set.0);

    let star = SeqSet(vec![(u32::MAX, u32::MAX)]);
    assert_eq!(star.to_wire(), "*");
    assert_eq!(SeqSet::parse(&star.to_wire()).unwrap().0, star.0);
}

#[test]
fn advertised_capabilities() {
    let with_tls = Conn::new(true, true).cap_strings_pub();
    let without_tls = Conn::new(true, false).cap_strings_pub();
    for cap in ["IMAP4rev1", "LITERAL+", "IDLE", "MOVE", "NAMESPACE", "UIDPLUS"] {
        assert!(with_tls.iter().any(|c| c == cap), "{cap}");
        assert!(without_tls.iter().any(|c| c == cap), "{cap}");
    }
    assert!(with_tls.iter().any(|c| c == "STARTTLS"));
    assert!(!without_tls.iter().any(|c| c == "STARTTLS"));
    let no_login = Conn::new(false, false).cap_strings_pub();
    assert!(no_login.iter().any(|c| c == "LOGINDISABLED"));
}
