//! CREATE, DELETE, RENAME, SUBSCRIBE, UNSUBSCRIBE, LIST, LSUB and STATUS.
use vstd::prelude::*;
use vstd::string::StringSliceAdditionalSpecFns;
use crate::codec::{
    span, astring_result, crlf_result, lemma_astring_det, lemma_crlf_det, lemma_sp_det, sp_result, quoted_bytes, ByteClass, AsyncDecoder,
};
use crate::conn::Conn;
use crate::error::{ImapResult, is_bad};
use crate::select::{ListData, StatusData};
use crate::text::{latin1, string_views, bytes_eq_ignore_case, chars_of, dec_digits, eq_ignore_case, string_from_chars, upper_char_vec, upper_chars};
use crate::types::{ConnState, MailboxAttr};
use crate::cmd::noop::only_decoder_moved;
use crate::cmd::select::{pair_line_ok, pair_line_read, read_astring_pair};
use crate::writer::{inbox_word, join_sp, lemma_join_sp_push, lit, nil_bytes, paren, utf8};

verus! {

/// Reads two astrings separated by SP and the end of the line, in an
/// authenticated state (RENAME).
pub fn rename_args(conn: &mut Conn) -> (r: ImapResult<(String, String)>)
    requires
        old(conn).wf(),
    ensures
        final(conn).wf(),
        only_decoder_moved(*old(conn), *final(conn)),
        !(old(conn).state == ConnState::Authenticated || old(conn).state == ConnState::Selected)
            ==> r is Err && is_bad(r->Err_0, None, "Not authenticated"@) && final(conn).decoder
            == old(conn).decoder,
        (old(conn).state == ConnState::Authenticated || old(conn).state == ConnState::Selected) ==> (r is Ok
            <==> pair_line_ok(old(conn).decoder, ByteClass::AString, "expected astring"@)),
        r matches Ok(v) ==> pair_line_read(
            old(conn).decoder,
            final(conn).decoder,
            v.0,
            v.1,
            ByteClass::AString,
            "expected astring"@,
        ),
{
    conn.require_auth()?;
    read_astring_pair(conn, false)
}

/// Reads LIST's (or LSUB's) arguments: a reference astring, SP, a mailbox
/// pattern (which may hold `*` and `%`), and the end of the line.
pub fn list_args(conn: &mut Conn) -> (r: ImapResult<(String, String)>)
    requires
        old(conn).wf(),
    ensures
        final(conn).wf(),
        only_decoder_moved(*old(conn), *final(conn)),
        !(old(conn).state == ConnState::Authenticated || old(conn).state == ConnState::Selected)
            ==> r is Err && is_bad(r->Err_0, None, "Not authenticated"@) && final(conn).decoder
            == old(conn).decoder,
        (old(conn).state == ConnState::Authenticated || old(conn).state == ConnState::Selected) ==> (r is Ok
            <==> pair_line_ok(old(conn).decoder, ByteClass::List, "expected list-mailbox"@)),
        r matches Ok(v) ==> pair_line_read(
            old(conn).decoder,
            final(conn).decoder,
            v.0,
            v.1,
            ByteClass::List,
            "expected list-mailbox"@,
        ),
{
    conn.require_auth()?;
    read_astring_pair(conn, true)
}

/// A mailbox name as LIST, LSUB and STATUS write it: `INBOX` (any case) as
/// `INBOX`, else quoted.
pub open spec fn quoted_name_bytes(name: Seq<u8>) -> Seq<u8> {
    if eq_ignore_case(name, inbox_word()) {
        inbox_word()
    } else {
        quoted_bytes(name)
    }
}

fn write_quoted_name(conn: &mut Conn, name: &str)
    ensures
        final(conn).encoder@ == old(conn).encoder@ + quoted_name_bytes(name.spec_bytes()),
        final(conn).state == old(conn).state,
        final(conn).decoder == old(conn).decoder,
        final(conn).enabled == old(conn).enabled,
{
    if bytes_eq_ignore_case(name.as_bytes(), &[73u8, 78, 66, 79, 88]) {
        conn.encoder.write_raw(&[73u8, 78, 66, 79, 88]);
    } else {
        conn.encoder.quoted(name);
    }
}

/// One line of the LIST or LSUB response.
pub open spec fn mailbox_line(lsub: bool, mb: ListData) -> Seq<u8> {
    seq![42u8, 32] + (if lsub {
        lit("LSUB"@)
    } else {
        lit("LIST"@)
    }) + seq![32u8] + paren(join_sp(mb.attrs@.map_values(|a: MailboxAttr| utf8(a.0))))
        + seq![32u8] + (if mb.delimiter@.len() == 0 {
        nil_bytes()
    } else {
        quoted_bytes(utf8(mb.delimiter))
    }) + seq![32u8] + quoted_name_bytes(utf8(mb.name)) + seq![13u8, 10]
}

/// The LIST or LSUB lines for the mailboxes, in order.
pub open spec fn mailbox_lines(lsub: bool, mbs: Seq<ListData>) -> Seq<u8>
    decreases mbs.len(),
{
    if mbs.len() == 0 {
        Seq::empty()
    } else {
        mailbox_lines(lsub, mbs.drop_last()) + mailbox_line(lsub, mbs.last())
    }
}

fn write_attr_list(conn: &mut Conn, attrs: &[MailboxAttr])
    ensures
        final(conn).encoder@ == old(conn).encoder@ + paren(join_sp(attrs@.map_values(|a: MailboxAttr| utf8(a.0)))),
        final(conn).state == old(conn).state,
        final(conn).decoder == old(conn).decoder,
        final(conn).enabled == old(conn).enabled,
{
    let ghost items = attrs@.map_values(|a: MailboxAttr| utf8(a.0));
    conn.encoder.special(40u8);
    let ghost start = conn.encoder@;
    let mut i: usize = 0;
    while i < attrs.len()
        invariant
            i <= attrs.len(),
            items == attrs@.map_values(|a: MailboxAttr| utf8(a.0)),
            conn.encoder@ == start + join_sp(items.take(i as int)),
            conn.state == old(conn).state,
            conn.decoder == old(conn).decoder,
            conn.enabled == old(conn).enabled,
        decreases attrs.len() - i,
    {
        proof {
            lemma_join_sp_push(items, i as int);
        }
        if i > 0 {
            conn.encoder.sp();
        }
        conn.encoder.flag(attrs[i].0.as_str());
        i += 1;
        assert(conn.encoder@ =~= start + join_sp(items.take(i as int)));
    }
    assert(items.take(attrs@.len() as int) =~= items);
    conn.encoder.special(41u8);
    assert(conn.encoder@ =~= old(conn).encoder@ + paren(join_sp(attrs@.map_values(|a: MailboxAttr| utf8(a.0)))));
}

fn write_mailbox_line(conn: &mut Conn, lsub: bool, mb: &ListData)
    ensures
        final(conn).encoder@ == old(conn).encoder@ + mailbox_line(lsub, *mb),
        final(conn).state == old(conn).state,
        final(conn).decoder == old(conn).decoder,
        final(conn).enabled == old(conn).enabled,
{
    conn.encoder.special(42u8);
    conn.encoder.sp();
    if lsub {
        conn.encoder.atom("LSUB");
    } else {
        conn.encoder.atom("LIST");
    }
    conn.encoder.sp();
    write_attr_list(conn, &mb.attrs);
    conn.encoder.sp();
    if mb.delimiter.as_str().as_bytes().len() == 0 {
        conn.encoder.nil();
    } else {
        conn.encoder.quoted(mb.delimiter.as_str());
    }
    conn.encoder.sp();
    write_quoted_name(conn, mb.name.as_str());
    conn.encoder.crlf();
    assert(conn.encoder@ =~= old(conn).encoder@ + mailbox_line(lsub, *mb));
}

/// Writes the LIST (or LSUB) lines and `tag OK LIST completed`
/// (`LSUB completed`).
pub fn list_done(conn: &mut Conn, tag: &str, lsub: bool, mailboxes: &[ListData])
    ensures
        final(conn).encoder@ == old(conn).encoder@ + mailbox_lines(lsub, mailboxes@)
            + crate::cmd::select::completed_bytes(tag.spec_bytes(), if lsub { "LSUB"@ } else { "LIST"@ }),
        final(conn).state == old(conn).state,
        final(conn).decoder == old(conn).decoder,
        final(conn).enabled == old(conn).enabled,
{
    let mut i: usize = 0;
    while i < mailboxes.len()
        invariant
            i <= mailboxes.len(),
            conn.encoder@ == old(conn).encoder@ + mailbox_lines(lsub, mailboxes@.take(i as int)),
            conn.state == old(conn).state,
            conn.decoder == old(conn).decoder,
            conn.enabled == old(conn).enabled,
        decreases mailboxes.len() - i,
    {
        write_mailbox_line(conn, lsub, &mailboxes[i]);
        assert(mailboxes@.take(i + 1).drop_last() =~= mailboxes@.take(i as int));
        i += 1;
    }
    assert(mailboxes@.take(mailboxes@.len() as int) =~= mailboxes@);
    if lsub {
        crate::cmd::select::write_completed(conn, tag, "LSUB");
    } else {
        crate::cmd::select::write_completed(conn, tag, "LIST");
    }
}

/// A status item list after its `(`: the items (atoms, upper-cased; SP
/// between them skipped) and how many bytes the list takes up to and
/// including its `)`; `None` when the list does not end or an item is not
/// an atom.
pub open spec fn status_list(t: Seq<u8>) -> Option<(Seq<Seq<char>>, nat)>
    decreases t.len(),
{
    if t.len() == 0 {
        None
    } else if t[0] == 41 {
        Some((Seq::empty(), 1nat))
    } else if t[0] == 32 {
        match status_list(t.skip(1)) {
            Some((it, k)) => Some((it, k + 1)),
            None => None,
        }
    } else {
        let n = span(t, ByteClass::Atom);
        if n == 0 || n >= t.len() {
            None
        } else {
            match status_list(t.skip(n as int)) {
                Some((it, k)) => Some((seq![upper_chars(latin1(t.take(n as int)))] + it, k + n)),
                None => None,
            }
        }
    }
}

/// What reading a status item list from `d0` to `d1` gives: no items, with
/// nothing read, when the next byte is not `(`; else the list as
/// `status_list` reads it.
pub open spec fn status_items_result(d0: AsyncDecoder, d1: AsyncDecoder, r: ImapResult<Vec<String>>) -> bool {
    let s = d0.stream();
    if s.len() == 0 {
        r is Err
    } else if s[0] != 40 {
        r is Ok && r->Ok_0@.len() == 0 && d0.advanced(&d1, 0, true)
    } else {
        match status_list(s.skip(1)) {
            Some((it, k)) => r is Ok && string_views(r->Ok_0@) == it && d0.advanced(&d1, k + 1, false),
            None => r is Err,
        }
    }
}

/// Reads a status item list `(A B ...)`, giving the items in upper case;
/// anything else is left unread and gives no items.
pub fn read_status_items(conn: &mut Conn) -> (r: ImapResult<Vec<String>>)
    requires
        old(conn).wf(),
    ensures
        final(conn).wf(),
        only_decoder_moved(*old(conn), *final(conn)),
        status_items_result(old(conn).decoder, final(conn).decoder, r),
{
    let ghost d0 = conn.decoder;
    let ghost s = d0.stream();
    let mut items: Vec<String> = Vec::new();
    let b = conn.decoder.peek_byte()?;
    let ghost dp = conn.decoder;
    proof {
        d0.lemma_advanced_pub(&dp, 0, true);
    }
    if b != 40u8 {
        return Ok(items);
    }
    let _ = conn.decoder.read_byte();
    proof {
        d0.lemma_peek_then_read(&dp, &conn.decoder);
        d0.lemma_advanced_pub(&conn.decoder, 1, false);
        assert(string_views(items@) + Seq::<Seq<char>>::empty() =~= Seq::<Seq<char>>::empty());
        match status_list(s.skip(1)) {
            Some((it, k)) => {
                assert(string_views(items@) + it =~= it);
            },
            None => {},
        }
    }
    let ghost mut j: nat = 1;
    let ghost mut pb: bool = false;
    loop
        invariant_except_break
            conn.wf(),
            only_decoder_moved(*old(conn), *conn),
            d0 == old(conn).decoder,
            d0.wf(),
            s == d0.stream(),
            s.len() > 0 && s[0] == 40,
            1 <= j <= s.len(),
            d0.advanced(&conn.decoder, j, pb),
            conn.decoder.stream() == s.skip(j as int),
            status_list(s.skip(1)) == match status_list(s.skip(j as int)) {
                Some((it, k)) => Some((string_views(items@) + it, (k + j - 1) as nat)),
                None => None,
            },
        ensures
            conn.wf(),
            only_decoder_moved(*old(conn), *conn),
            d0 == old(conn).decoder,
            s == d0.stream(),
            s.len() > 0 && s[0] == 40,
            j >= 1,
            status_list(s.skip(1)) == Some((string_views(items@), (j - 1) as nat)),
            d0.advanced(&conn.decoder, j, false),
        decreases conn.decoder.stream().len(),
    {
        let ghost dc = conn.decoder;
        let ghost t = s.skip(j as int);
        let pk = conn.decoder.peek_byte();
        let ghost d1 = conn.decoder;
        let b = match pk {
            Ok(x) => x,
            Err(e) => {
                assert(t.len() == 0);
                return Err(e);
            },
        };
        proof {
            d0.lemma_chain_pub(&dc, &d1, j, pb, 0, true);
            dc.lemma_advanced_pub(&d1, 0, true);
        }
        if b == 41u8 || b == 32u8 {
            let _ = conn.decoder.read_byte();
            proof {
                d0.lemma_chain_pub(&d1, &conn.decoder, j, true, 1, false);
                assert(t.skip(1) =~= s.skip(j + 1 as int));
            }
            if b == 41u8 {
                proof {
                    j = j + 1;
                    assert(string_views(items@) + Seq::<Seq<char>>::empty() =~= string_views(items@));
                }
                break;
            }
            proof {
                j = j + 1;
                pb = false;
            }
        } else {
            let ra = conn.decoder.read_atom();
            let ghost d2 = conn.decoder;
            let n_ghost = Ghost(span(t, ByteClass::Atom));
            proof {
                crate::codec::lemma_span(t, ByteClass::Atom);
            }
            let item = match ra {
                Ok(x) => x,
                Err(e) => {
                    return Err(e);
                },
            };
            proof {
                let n = n_ghost@;
                d0.lemma_chain_pub(&d1, &d2, j, true, n, true);
                assert(t.skip(n as int) =~= s.skip((j + n) as int));
                assert(item@ == latin1(t.take(n as int)));
            }
            let ic = chars_of(item.as_str());
            let uc = upper_char_vec(&ic);
            let up = string_from_chars(&uc);
            let ghost before = string_views(items@);
            items.push(up);
            proof {
                let n = n_ghost@;
                assert(string_views(items@) =~= before.push(upper_chars(latin1(t.take(n as int)))));
                match status_list(t.skip(n as int)) {
                    Some((it, k)) => {
                        assert(before + (seq![upper_chars(latin1(t.take(n as int)))] + it) =~= string_views(items@) + it);
                    },
                    None => {},
                }
                j = j + n;
                pb = true;
            }
        }
    }
    Ok(items)
}

/// A status item list read from one decoder: one outcome.
pub proof fn lemma_status_items_det(
    d0: AsyncDecoder,
    d1: AsyncDecoder,
    r1: ImapResult<Vec<String>>,
    d2: AsyncDecoder,
    r2: ImapResult<Vec<String>>,
)
    requires
        status_items_result(d0, d1, r1),
        status_items_result(d0, d2, r2),
    ensures
        r1 is Ok <==> r2 is Ok,
        r1 is Ok ==> d1 == d2,
{
    let s = d0.stream();
    if s.len() > 0 {
        if s[0] != 40 {
            d0.lemma_advanced_det(&d1, &d2, 0, true);
        } else {
            match status_list(s.skip(1)) {
                Some((it, k)) => {
                    d0.lemma_advanced_det(&d1, &d2, k + 1, false);
                },
                None => {},
            }
        }
    }
}

/// STATUS's arguments read from `d0` to `d4`: the mailbox `name`, SP, the
/// item list and the end of the line.
pub open spec fn status_line_read(d0: AsyncDecoder, d4: AsyncDecoder, name: String) -> bool {
    exists|d1: AsyncDecoder, d2: AsyncDecoder, d3: AsyncDecoder, v: Vec<String>|
        #![trigger sp_result(&d1, &d2, Ok(())), status_items_result(d2, d3, Ok(v)), crlf_result(&d3, &d4, Ok(()))]
        {
            &&& astring_result(&d0, &d1, Ok(name), ByteClass::AString, "expected astring"@)
            &&& sp_result(&d1, &d2, Ok(()))
            &&& status_items_result(d2, d3, Ok(v))
            &&& crlf_result(&d3, &d4, Ok(()))
        }
}

/// The line at `d0` holds STATUS's arguments.
pub open spec fn status_line_ok(d0: AsyncDecoder) -> bool {
    exists|d4: AsyncDecoder, name: String| #[trigger] status_line_read(d0, d4, name)
}

/// Reads STATUS's arguments: a mailbox astring, SP, the item list, and the
/// end of the line. The items are read and not used: every status value
/// that the mail store gives is written.
pub fn status_args(conn: &mut Conn) -> (r: ImapResult<String>)
    requires
        old(conn).wf(),
    ensures
        final(conn).wf(),
        only_decoder_moved(*old(conn), *final(conn)),
        !(old(conn).state == ConnState::Authenticated || old(conn).state == ConnState::Selected)
            ==> r is Err && is_bad(r->Err_0, None, "Not authenticated"@) && final(conn).decoder
            == old(conn).decoder,
        (old(conn).state == ConnState::Authenticated || old(conn).state == ConnState::Selected) ==> (r is Ok
            <==> status_line_ok(old(conn).decoder)),
        r matches Ok(name) ==> status_line_read(old(conn).decoder, final(conn).decoder, name),
{
    conn.require_auth()?;
    let ghost d0 = conn.decoder;
    let ra = conn.decoder.read_astring();
    let ghost d1 = conn.decoder;
    let mailbox = match ra {
        Ok(x) => x,
        Err(e) => {
            proof {
                if status_line_ok(d0) {
                    let (w4, wn) = choose|w4: AsyncDecoder, wn: String| #[trigger] status_line_read(d0, w4, wn);
                    let (w1, w2, w3, wv) = choose|w1: AsyncDecoder, w2: AsyncDecoder, w3: AsyncDecoder, wv: Vec<String>|
                        {
                            &&& astring_result(&d0, &w1, Ok(wn), ByteClass::AString, "expected astring"@)
                            &&& sp_result(&w1, &w2, Ok(()))
                            &&& status_items_result(w2, w3, Ok(wv))
                            &&& crlf_result(&w3, &w4, Ok(()))
                        };
                    lemma_astring_det(&d0, &d1, ra, &w1, Ok(wn), ByteClass::AString, "expected astring"@);
                }
            }
            return Err(e);
        },
    };
    let rs = conn.decoder.expect_sp();
    let ghost d2 = conn.decoder;
    if let Err(e) = rs {
        proof {
            if status_line_ok(d0) {
                let (w4, wn) = choose|w4: AsyncDecoder, wn: String| #[trigger] status_line_read(d0, w4, wn);
                let (w1, w2, w3, wv) = choose|w1: AsyncDecoder, w2: AsyncDecoder, w3: AsyncDecoder, wv: Vec<String>|
                    {
                        &&& astring_result(&d0, &w1, Ok(wn), ByteClass::AString, "expected astring"@)
                        &&& sp_result(&w1, &w2, Ok(()))
                        &&& status_items_result(w2, w3, Ok(wv))
                        &&& crlf_result(&w3, &w4, Ok(()))
                    };
                lemma_astring_det(&d0, &d1, Ok(mailbox), &w1, Ok(wn), ByteClass::AString, "expected astring"@);
                lemma_sp_det(&d1, &d2, rs, &w2, Ok(()));
            }
        }
        return Err(e);
    }
    let ri = read_status_items(conn);
    let ghost d3 = conn.decoder;
    let items = match ri {
        Ok(x) => x,
        Err(e) => {
            proof {
                if status_line_ok(d0) {
                    let (w4, wn) = choose|w4: AsyncDecoder, wn: String| #[trigger] status_line_read(d0, w4, wn);
                    let (w1, w2, w3, wv) = choose|w1: AsyncDecoder, w2: AsyncDecoder, w3: AsyncDecoder, wv: Vec<String>|
                        {
                            &&& astring_result(&d0, &w1, Ok(wn), ByteClass::AString, "expected astring"@)
                            &&& sp_result(&w1, &w2, Ok(()))
                            &&& status_items_result(w2, w3, Ok(wv))
                            &&& crlf_result(&w3, &w4, Ok(()))
                        };
                    lemma_astring_det(&d0, &d1, Ok(mailbox), &w1, Ok(wn), ByteClass::AString, "expected astring"@);
                    lemma_sp_det(&d1, &d2, Ok(()), &w2, Ok(()));
                    lemma_status_items_det(d2, d3, ri, w3, Ok(wv));
                }
            }
            return Err(e);
        },
    };
    let rc = conn.decoder.expect_crlf();
    let ghost d4 = conn.decoder;
    if let Err(e) = rc {
        proof {
            if status_line_ok(d0) {
                let (w4, wn) = choose|w4: AsyncDecoder, wn: String| #[trigger] status_line_read(d0, w4, wn);
                let (w1, w2, w3, wv) = choose|w1: AsyncDecoder, w2: AsyncDecoder, w3: AsyncDecoder, wv: Vec<String>|
                    {
                        &&& astring_result(&d0, &w1, Ok(wn), ByteClass::AString, "expected astring"@)
                        &&& sp_result(&w1, &w2, Ok(()))
                        &&& status_items_result(w2, w3, Ok(wv))
                        &&& crlf_result(&w3, &w4, Ok(()))
                    };
                lemma_astring_det(&d0, &d1, Ok(mailbox), &w1, Ok(wn), ByteClass::AString, "expected astring"@);
                lemma_sp_det(&d1, &d2, Ok(()), &w2, Ok(()));
                lemma_status_items_det(d2, d3, Ok(items), w3, Ok(wv));
                lemma_crlf_det(&d3, &d4, rc, &w4, Ok(()));
            }
        }
        return Err(e);
    }
    assert(astring_result(&d0, &d1, Ok(mailbox), ByteClass::AString, "expected astring"@));
    assert(sp_result(&d1, &d2, Ok(())));
    assert(status_items_result(d2, d3, Ok(items)));
    assert(crlf_result(&d3, &d4, Ok(())));
    assert(status_line_read(d0, d4, mailbox));
    Ok(mailbox)
}

/// `NAME n`.
pub open spec fn item_bytes(name: Seq<char>, n: u32) -> Seq<u8> {
    lit(name) + seq![32u8] + dec_digits(n as nat)
}

/// `items` and, when the value is present, `NAME n` after them.
pub open spec fn push_item(items: Seq<Seq<u8>>, name: Seq<char>, v: Option<u32>) -> Seq<Seq<u8>> {
    match v {
        Some(n) => items.push(item_bytes(name, n)),
        None => items,
    }
}

/// The STATUS items present in the data, in the order MESSAGES, RECENT,
/// UIDNEXT, UIDVALIDITY, UNSEEN.
pub open spec fn status_items(d: StatusData) -> Seq<Seq<u8>> {
    push_item(
        push_item(
            push_item(
                push_item(push_item(Seq::empty(), "MESSAGES"@, d.messages), "RECENT"@, d.recent),
                "UIDNEXT"@,
                d.uid_next,
            ),
            "UIDVALIDITY"@,
            d.uid_validity,
        ),
        "UNSEEN"@,
        d.unseen,
    )
}

/// Law: every STATUS item that the data holds is written with its own
/// value (`UIDNEXT` with `uid_next`, `UIDVALIDITY` with `uid_validity`,
/// and so on), and one item is written for each value present.
pub proof fn law_status_items_own_values(d: StatusData)
    ensures
        d.messages matches Some(n) ==> status_items(d).contains(item_bytes("MESSAGES"@, n)),
        d.recent matches Some(n) ==> status_items(d).contains(item_bytes("RECENT"@, n)),
        d.uid_next matches Some(n) ==> status_items(d).contains(item_bytes("UIDNEXT"@, n)),
        d.uid_validity matches Some(n) ==> status_items(d).contains(item_bytes("UIDVALIDITY"@, n)),
        d.unseen matches Some(n) ==> status_items(d).contains(item_bytes("UNSEEN"@, n)),
        status_items(d).len() == (if d.messages is Some { 1int } else { 0int }) + (if d.recent is Some { 1int } else { 0int })
            + (if d.uid_next is Some { 1int } else { 0int }) + (if d.uid_validity is Some { 1int } else { 0int })
            + (if d.unseen is Some { 1int } else { 0int }),
{
    let i0: Seq<Seq<u8>> = Seq::empty();
    let i1 = push_item(i0, "MESSAGES"@, d.messages);
    let i2 = push_item(i1, "RECENT"@, d.recent);
    let i3 = push_item(i2, "UIDNEXT"@, d.uid_next);
    let i4 = push_item(i3, "UIDVALIDITY"@, d.uid_validity);
    let i5 = push_item(i4, "UNSEEN"@, d.unseen);
    lemma_push_item_keeps(i0, "MESSAGES"@, d.messages);
    lemma_push_item_keeps(i1, "RECENT"@, d.recent);
    lemma_push_item_keeps(i2, "UIDNEXT"@, d.uid_next);
    lemma_push_item_keeps(i3, "UIDVALIDITY"@, d.uid_validity);
    lemma_push_item_keeps(i4, "UNSEEN"@, d.unseen);
}

/// Pushing an item keeps the items before it and holds the new one.
proof fn lemma_push_item_keeps(items: Seq<Seq<u8>>, name: Seq<char>, v: Option<u32>)
    ensures
        forall|x: Seq<u8>| items.contains(x) ==> #[trigger] push_item(items, name, v).contains(x),
        v matches Some(n) ==> push_item(items, name, v).contains(item_bytes(name, n)),
        push_item(items, name, v).len() == items.len() + (if v is Some { 1int } else { 0int }),
{
    match v {
        Some(n) => {
            let r = items.push(item_bytes(name, n));
            assert(r[items.len() as int] == item_bytes(name, n));
            assert forall|x: Seq<u8>| items.contains(x) implies #[trigger] r.contains(x) by {
                let k = choose|k: int| 0 <= k < items.len() && items[k] == x;
                assert(r[k] == x);
            }
        },
        None => {},
    }
}

/// The STATUS response: `* STATUS name (items)`.
pub open spec fn status_line(mailbox: Seq<u8>, d: StatusData) -> Seq<u8> {
    seq![42u8, 32] + lit("STATUS"@) + seq![32u8] + quoted_name_bytes(mailbox) + seq![32u8]
        + paren(join_sp(status_items(d))) + seq![13u8, 10]
}

fn write_opt_item(conn: &mut Conn, Ghost(base): Ghost<Seq<u8>>, Ghost(items): Ghost<Seq<Seq<u8>>>, has_item: bool, name: &str, v: Option<u32>)
    requires
        old(conn).encoder@ == base + join_sp(items),
        has_item == (items.len() > 0),
    ensures
        final(conn).encoder@ == base + join_sp(push_item(items, name@, v)),
        final(conn).state == old(conn).state,
        final(conn).decoder == old(conn).decoder,
        final(conn).enabled == old(conn).enabled,
{
    match v {
        Some(n) => {
            if has_item {
                conn.encoder.sp();
            }
            conn.encoder.atom(name);
            conn.encoder.sp();
            conn.encoder.number(n);
            proof {
                lemma_join_sp_append(items, item_bytes(name@, n));
            }
            assert(conn.encoder@ =~= base + join_sp(push_item(items, name@, v)));
        },
        None => {},
    }
}

proof fn lemma_join_sp_append(items: Seq<Seq<u8>>, x: Seq<u8>)
    ensures
        join_sp(items.push(x)) == join_sp(items) + (if items.len() > 0 { seq![32u8] } else { Seq::<u8>::empty() }) + x,
{
    assert(items.push(x).drop_last() =~= items);
    if items.len() == 0 {
        assert(join_sp(items.push(x)) == x);
        assert(Seq::<u8>::empty() + Seq::<u8>::empty() + x =~= x);
    }
}

fn write_status_items(conn: &mut Conn, data: &StatusData)
    ensures
        final(conn).encoder@ == old(conn).encoder@ + join_sp(status_items(*data)),
        final(conn).state == old(conn).state,
        final(conn).decoder == old(conn).decoder,
        final(conn).enabled == old(conn).enabled,
{
    let ghost base = conn.encoder@;
    let ghost i0: Seq<Seq<u8>> = Seq::empty();
    assert(conn.encoder@ =~= base + join_sp(i0));
    let mut has_item = false;
    write_opt_item(conn, Ghost(base), Ghost(i0), has_item, "MESSAGES", data.messages);
    has_item = has_item || data.messages.is_some();
    let ghost i1 = push_item(i0, "MESSAGES"@, data.messages);
    write_opt_item(conn, Ghost(base), Ghost(i1), has_item, "RECENT", data.recent);
    has_item = has_item || data.recent.is_some();
    let ghost i2 = push_item(i1, "RECENT"@, data.recent);
    write_opt_item(conn, Ghost(base), Ghost(i2), has_item, "UIDNEXT", data.uid_next);
    has_item = has_item || data.uid_next.is_some();
    let ghost i3 = push_item(i2, "UIDNEXT"@, data.uid_next);
    write_opt_item(conn, Ghost(base), Ghost(i3), has_item, "UIDVALIDITY", data.uid_validity);
    has_item = has_item || data.uid_validity.is_some();
    let ghost i4 = push_item(i3, "UIDVALIDITY"@, data.uid_validity);
    write_opt_item(conn, Ghost(base), Ghost(i4), has_item, "UNSEEN", data.unseen);
}

/// Writes the STATUS response and `tag OK STATUS completed`.
pub fn status_done(conn: &mut Conn, tag: &str, mailbox: &str, data: &StatusData)
    ensures
        final(conn).encoder@ == old(conn).encoder@ + status_line(mailbox.spec_bytes(), *data)
            + crate::cmd::select::completed_bytes(tag.spec_bytes(), "STATUS"@),
        final(conn).state == old(conn).state,
        final(conn).decoder == old(conn).decoder,
        final(conn).enabled == old(conn).enabled,
{
    conn.encoder.special(42u8);
    conn.encoder.sp();
    conn.encoder.atom("STATUS");
    conn.encoder.sp();
    write_quoted_name(conn, mailbox);
    conn.encoder.sp();
    conn.encoder.special(40u8);
    write_status_items(conn, data);
    conn.encoder.special(41u8);
    conn.encoder.crlf();
    assert(conn.encoder@ =~= old(conn).encoder@ + status_line(mailbox.spec_bytes(), *data));
    crate::cmd::select::write_completed(conn, tag, "STATUS");
}

} // verus!
