//! SELECT, EXAMINE, CLOSE and UNSELECT.
use vstd::prelude::*;
use vstd::string::StringSliceAdditionalSpecFns;
use vstd::utf8::encode_utf8;
use crate::codec::{
    astring_result, crlf_result, lemma_astring_det, lemma_crlf_det, lemma_sp_det, sp_result, status_bytes,
    ByteClass, AsyncDecoder,
};
use crate::conn::Conn;
use crate::error::{ImapResult, is_bad};
use crate::select::SelectData;
use crate::text::dec_digits;
use crate::types::ConnState;
use crate::cmd::noop::only_decoder_moved;
use crate::writer::{flags_bytes, lit, write_flag_list_enc};

verus! {

/// `tag OK verb completed`.
pub open spec fn completed_bytes(tag: Seq<u8>, verb: Seq<char>) -> Seq<u8> {
    status_bytes(tag, encode_utf8("OK"@), None, encode_utf8(verb + " completed"@))
}

/// Writes `tag OK <verb> completed`, the success line of most commands.
pub fn write_completed(conn: &mut Conn, tag: &str, verb: &str)
    ensures
        final(conn).encoder@ == old(conn).encoder@ + completed_bytes(tag.spec_bytes(), verb@),
        final(conn).state == old(conn).state,
        final(conn).decoder == old(conn).decoder,
        final(conn).enabled == old(conn).enabled,
{
    let mut text = String::from_str(verb);
    text.append(" completed");
    conn.write_ok(tag, text.as_str());
}

/// A mailbox astring `name` read from `d0` and the end of the line, which
/// ends at `d2`.
pub open spec fn mailbox_line_read(d0: AsyncDecoder, d2: AsyncDecoder, name: String) -> bool {
    exists|d1: AsyncDecoder|
        #![trigger crlf_result(&d1, &d2, Ok(()))]
        astring_result(&d0, &d1, Ok(name), ByteClass::AString, "expected astring"@)
            && crlf_result(&d1, &d2, Ok(()))
}

/// The line at `d0` is a mailbox astring and its end.
pub open spec fn mailbox_line_ok(d0: AsyncDecoder) -> bool {
    exists|d2: AsyncDecoder, name: String| #[trigger] mailbox_line_read(d0, d2, name)
}

/// Reads a single mailbox argument and the end of the line, in an
/// authenticated state (SELECT, EXAMINE, CREATE, DELETE, SUBSCRIBE,
/// UNSUBSCRIBE).
pub fn mailbox_args(conn: &mut Conn) -> (r: ImapResult<String>)
    requires
        old(conn).wf(),
    ensures
        final(conn).wf(),
        only_decoder_moved(*old(conn), *final(conn)),
        !(old(conn).state == ConnState::Authenticated || old(conn).state == ConnState::Selected)
            ==> r is Err && is_bad(r->Err_0, None, "Not authenticated"@) && final(conn).decoder
            == old(conn).decoder,
        (old(conn).state == ConnState::Authenticated || old(conn).state == ConnState::Selected) ==> (r is Ok
            <==> mailbox_line_ok(old(conn).decoder)),
        r matches Ok(name) ==> mailbox_line_read(old(conn).decoder, final(conn).decoder, name),
{
    conn.require_auth()?;
    let ghost d0 = conn.decoder;
    let m = conn.decoder.read_astring();
    let ghost d1 = conn.decoder;
    let mailbox = match m {
        Ok(x) => x,
        Err(e) => {
            proof {
                if mailbox_line_ok(d0) {
                    let (w2, wn) = choose|w2: AsyncDecoder, wn: String| #[trigger] mailbox_line_read(d0, w2, wn);
                    let w1 = choose|w1: AsyncDecoder|
                        astring_result(&d0, &w1, Ok(wn), ByteClass::AString, "expected astring"@)
                            && crlf_result(&w1, &w2, Ok(()));
                    lemma_astring_det(&d0, &d1, m, &w1, Ok(wn), ByteClass::AString, "expected astring"@);
                }
            }
            return Err(e);
        },
    };
    let c = conn.decoder.expect_crlf();
    let ghost d2 = conn.decoder;
    if let Err(e) = c {
        proof {
            if mailbox_line_ok(d0) {
                let (w2, wn) = choose|w2: AsyncDecoder, wn: String| #[trigger] mailbox_line_read(d0, w2, wn);
                let w1 = choose|w1: AsyncDecoder|
                    astring_result(&d0, &w1, Ok(wn), ByteClass::AString, "expected astring"@)
                        && crlf_result(&w1, &w2, Ok(()));
                lemma_astring_det(&d0, &d1, Ok(mailbox), &w1, Ok(wn), ByteClass::AString, "expected astring"@);
                lemma_crlf_det(&d1, &d2, c, &w2, Ok(()));
            }
        }
        return Err(e);
    }
    assert(astring_result(&d0, &d1, Ok(mailbox), ByteClass::AString, "expected astring"@)
        && crlf_result(&d1, &conn.decoder, Ok(())));
    assert(mailbox_line_read(d0, conn.decoder, mailbox));
    Ok(mailbox)
}

/// Two astrings and the end of the line read from `d0` to `d4`: `a`, SP,
/// then `b` of class `c` (BAD `missing` when it is empty).
pub open spec fn pair_line_read(
    d0: AsyncDecoder,
    d4: AsyncDecoder,
    a: String,
    b: String,
    c: ByteClass,
    missing: Seq<char>,
) -> bool {
    exists|d1: AsyncDecoder, d2: AsyncDecoder, d3: AsyncDecoder|
        #![trigger sp_result(&d1, &d2, Ok(())), crlf_result(&d3, &d4, Ok(()))]
        {
            &&& astring_result(&d0, &d1, Ok(a), ByteClass::AString, "expected astring"@)
            &&& sp_result(&d1, &d2, Ok(()))
            &&& astring_result(&d2, &d3, Ok(b), c, missing)
            &&& crlf_result(&d3, &d4, Ok(()))
        }
}

/// The line at `d0` holds two astrings as `pair_line_read` reads them.
pub open spec fn pair_line_ok(d0: AsyncDecoder, c: ByteClass, missing: Seq<char>) -> bool {
    exists|d4: AsyncDecoder, a: String, b: String| #[trigger] pair_line_read(d0, d4, a, b, c, missing)
}

/// The class of the second astring: LIST's pattern or a plain astring.
pub open spec fn second_class(list: bool) -> ByteClass {
    if list {
        ByteClass::List
    } else {
        ByteClass::AString
    }
}

/// The BAD text when the second astring is empty.
pub open spec fn second_missing(list: bool) -> Seq<char> {
    if list {
        "expected list-mailbox"@
    } else {
        "expected astring"@
    }
}

/// Reads `astring SP astring CRLF`; the second one is a LIST pattern when
/// `list`.
pub fn read_astring_pair(conn: &mut Conn, list: bool) -> (r: ImapResult<(String, String)>)
    requires
        old(conn).wf(),
    ensures
        final(conn).wf(),
        only_decoder_moved(*old(conn), *final(conn)),
        r is Ok <==> pair_line_ok(old(conn).decoder, second_class(list), second_missing(list)),
        r matches Ok(v) ==> pair_line_read(
            old(conn).decoder,
            final(conn).decoder,
            v.0,
            v.1,
            second_class(list),
            second_missing(list),
        ),
{
    let ghost d0 = conn.decoder;
    let ghost c = second_class(list);
    let ghost m = second_missing(list);
    let ra = conn.decoder.read_astring();
    let ghost d1 = conn.decoder;
    let first = match ra {
        Ok(x) => x,
        Err(e) => {
            proof {
                if pair_line_ok(d0, c, m) {
                    let (w4, wa, wb) = choose|w4: AsyncDecoder, wa: String, wb: String|
                        #[trigger] pair_line_read(d0, w4, wa, wb, c, m);
                    let (w1, w2, w3) = choose|w1: AsyncDecoder, w2: AsyncDecoder, w3: AsyncDecoder|
                        {
                            &&& astring_result(&d0, &w1, Ok(wa), ByteClass::AString, "expected astring"@)
                            &&& sp_result(&w1, &w2, Ok(()))
                            &&& astring_result(&w2, &w3, Ok(wb), c, m)
                            &&& crlf_result(&w3, &w4, Ok(()))
                        };
                    lemma_astring_det(&d0, &d1, ra, &w1, Ok(wa), ByteClass::AString, "expected astring"@);
                }
            }
            return Err(e);
        },
    };
    let rs = conn.decoder.expect_sp();
    let ghost d2 = conn.decoder;
    if let Err(e) = rs {
        proof {
            if pair_line_ok(d0, c, m) {
                let (w4, wa, wb) = choose|w4: AsyncDecoder, wa: String, wb: String|
                    #[trigger] pair_line_read(d0, w4, wa, wb, c, m);
                let (w1, w2, w3) = choose|w1: AsyncDecoder, w2: AsyncDecoder, w3: AsyncDecoder|
                    {
                        &&& astring_result(&d0, &w1, Ok(wa), ByteClass::AString, "expected astring"@)
                        &&& sp_result(&w1, &w2, Ok(()))
                        &&& astring_result(&w2, &w3, Ok(wb), c, m)
                        &&& crlf_result(&w3, &w4, Ok(()))
                    };
                lemma_astring_det(&d0, &d1, Ok(first), &w1, Ok(wa), ByteClass::AString, "expected astring"@);
                lemma_sp_det(&d1, &d2, rs, &w2, Ok(()));
            }
        }
        return Err(e);
    }
    let rb = if list {
        conn.decoder.read_list_mailbox()
    } else {
        conn.decoder.read_astring()
    };
    let ghost d3 = conn.decoder;
    let second = match rb {
        Ok(x) => x,
        Err(e) => {
            proof {
                if pair_line_ok(d0, c, m) {
                    let (w4, wa, wb) = choose|w4: AsyncDecoder, wa: String, wb: String|
                        #[trigger] pair_line_read(d0, w4, wa, wb, c, m);
                    let (w1, w2, w3) = choose|w1: AsyncDecoder, w2: AsyncDecoder, w3: AsyncDecoder|
                        {
                            &&& astring_result(&d0, &w1, Ok(wa), ByteClass::AString, "expected astring"@)
                            &&& sp_result(&w1, &w2, Ok(()))
                            &&& astring_result(&w2, &w3, Ok(wb), c, m)
                            &&& crlf_result(&w3, &w4, Ok(()))
                        };
                    lemma_astring_det(&d0, &d1, Ok(first), &w1, Ok(wa), ByteClass::AString, "expected astring"@);
                    lemma_sp_det(&d1, &d2, Ok(()), &w2, Ok(()));
                    lemma_astring_det(&d2, &d3, rb, &w3, Ok(wb), c, m);
                }
            }
            return Err(e);
        },
    };
    let rc = conn.decoder.expect_crlf();
    let ghost d4 = conn.decoder;
    if let Err(e) = rc {
        proof {
            if pair_line_ok(d0, c, m) {
                let (w4, wa, wb) = choose|w4: AsyncDecoder, wa: String, wb: String|
                    #[trigger] pair_line_read(d0, w4, wa, wb, c, m);
                let (w1, w2, w3) = choose|w1: AsyncDecoder, w2: AsyncDecoder, w3: AsyncDecoder|
                    {
                        &&& astring_result(&d0, &w1, Ok(wa), ByteClass::AString, "expected astring"@)
                        &&& sp_result(&w1, &w2, Ok(()))
                        &&& astring_result(&w2, &w3, Ok(wb), c, m)
                        &&& crlf_result(&w3, &w4, Ok(()))
                    };
                lemma_astring_det(&d0, &d1, Ok(first), &w1, Ok(wa), ByteClass::AString, "expected astring"@);
                lemma_sp_det(&d1, &d2, Ok(()), &w2, Ok(()));
                lemma_astring_det(&d2, &d3, Ok(second), &w3, Ok(wb), c, m);
                lemma_crlf_det(&d3, &d4, rc, &w4, Ok(()));
            }
        }
        return Err(e);
    }
    let r = (first, second);
    assert(astring_result(&d0, &d1, Ok(r.0), ByteClass::AString, "expected astring"@));
    assert(sp_result(&d1, &d2, Ok(())));
    assert(astring_result(&d2, &d3, Ok(r.1), c, m));
    assert(crlf_result(&d3, &d4, Ok(())));
    assert(pair_line_read(d0, d4, r.0, r.1, c, m));
    Ok(r)
}

/// Whether a SELECT or EXAMINE first closes a mailbox: when one is
/// selected.
pub fn select_closes_first(conn: &Conn) -> (r: bool)
    ensures
        r == (conn.state == ConnState::Selected),
{
    conn.state == ConnState::Selected
}

/// Closes the mailbox selected before a new SELECT: back to Authenticated,
/// `* OK [CLOSED] Previous mailbox closed`.
pub fn select_closed(conn: &mut Conn)
    ensures
        final(conn).state == ConnState::Authenticated,
        final(conn).decoder == old(conn).decoder,
        final(conn).enabled == old(conn).enabled,
        final(conn).encoder@ == old(conn).encoder@ + status_bytes(
            encode_utf8("*"@),
            encode_utf8("OK"@),
            Some(encode_utf8("CLOSED"@)),
            encode_utf8("Previous mailbox closed"@),
        ),
{
    conn.state = ConnState::Authenticated;
    conn.write_status("*", "OK", Some("CLOSED"), "Previous mailbox closed");
}

/// `* n WORD` CRLF.
pub open spec fn count_line(n: u32, word: Seq<char>) -> Seq<u8> {
    seq![42u8, 32] + dec_digits(n as nat) + seq![32u8] + lit(word) + seq![13u8, 10]
}

/// `* OK [CODE n] text` CRLF.
pub open spec fn code_line(code: Seq<char>, n: u32, text: Seq<char>) -> Seq<u8> {
    seq![42u8, 32] + lit("OK"@) + seq![32u8, 91] + lit(code) + seq![32u8] + dec_digits(n as nat)
        + seq![93u8, 32] + lit(text) + seq![13u8, 10]
}

/// EXISTS, RECENT, UNSEEN (when there are unseen messages), UIDVALIDITY
/// and UIDNEXT.
pub open spec fn select_count_lines(data: SelectData) -> Seq<u8> {
    count_line(data.exists, "EXISTS"@) + count_line(data.recent, "RECENT"@) + (if data.unseen > 0 {
        code_line("UNSEEN"@, data.unseen, "Message(s) unseen"@)
    } else {
        Seq::empty()
    }) + code_line("UIDVALIDITY"@, data.uid_validity, "UIDs valid"@) + code_line(
        "UIDNEXT"@,
        data.uid_next,
        "Predicted next UID"@,
    )
}

/// Law: the untagged responses of SELECT carry the UIDVALIDITY response
/// code with the mailbox's UID validity and the UIDNEXT code with its next
/// UID: `* OK [UIDVALIDITY v] UIDs valid` and `* OK [UIDNEXT n] Predicted
/// next UID`, one after the other.
pub proof fn law_select_uid_codes(data: SelectData)
    ensures
        exists|p: Seq<u8>, q: Seq<u8>|
            select_lines(data) == p + (seq![42u8, 32] + lit("OK"@) + seq![32u8, 91] + lit("UIDVALIDITY"@) + seq![32u8]
                + dec_digits(data.uid_validity as nat) + seq![93u8, 32] + lit("UIDs valid"@) + seq![13u8, 10])
                + (seq![42u8, 32] + lit("OK"@) + seq![32u8, 91] + lit("UIDNEXT"@) + seq![32u8] + dec_digits(
                data.uid_next as nat,
            ) + seq![93u8, 32] + lit("Predicted next UID"@) + seq![13u8, 10]) + q,
{
    let p = count_line(data.exists, "EXISTS"@) + count_line(data.recent, "RECENT"@) + (if data.unseen > 0 {
        code_line("UNSEEN"@, data.unseen, "Message(s) unseen"@)
    } else {
        Seq::empty()
    });
    let q = select_flag_lines(data);
    assert(select_lines(data) =~= p + (seq![42u8, 32] + lit("OK"@) + seq![32u8, 91] + lit("UIDVALIDITY"@) + seq![32u8]
        + dec_digits(data.uid_validity as nat) + seq![93u8, 32] + lit("UIDs valid"@) + seq![13u8, 10])
        + (seq![42u8, 32] + lit("OK"@) + seq![32u8, 91] + lit("UIDNEXT"@) + seq![32u8] + dec_digits(data.uid_next as nat)
        + seq![93u8, 32] + lit("Predicted next UID"@) + seq![13u8, 10]) + q);
}

/// FLAGS and PERMANENTFLAGS.
pub open spec fn select_flag_lines(data: SelectData) -> Seq<u8> {
    seq![42u8, 32] + lit("FLAGS"@) + seq![32u8] + flags_bytes(data.flags@) + seq![13u8, 10]
        + seq![42u8, 32] + lit("OK"@) + seq![32u8, 91] + lit("PERMANENTFLAGS"@) + seq![32u8]
        + flags_bytes(data.permanent_flags@) + seq![93u8, 32] + lit("Permanent flags"@) + seq![
        13u8,
        10,
    ]
}

/// The untagged responses of SELECT and EXAMINE.
pub open spec fn select_lines(data: SelectData) -> Seq<u8> {
    select_count_lines(data) + select_flag_lines(data)
}

fn write_select_counts(conn: &mut Conn, data: &SelectData)
    ensures
        final(conn).encoder@ == old(conn).encoder@ + select_count_lines(*data),
        final(conn).state == old(conn).state,
        final(conn).decoder == old(conn).decoder,
        final(conn).enabled == old(conn).enabled,
{
    write_count_line(conn, data.exists, "EXISTS");
    write_count_line(conn, data.recent, "RECENT");
    if data.unseen > 0 {
        write_code_line(conn, "UNSEEN", data.unseen, "Message(s) unseen");
    }
    write_code_line(conn, "UIDVALIDITY", data.uid_validity, "UIDs valid");
    write_code_line(conn, "UIDNEXT", data.uid_next, "Predicted next UID");
    assert(conn.encoder@ =~= old(conn).encoder@ + select_count_lines(*data));
}

fn write_select_flags(conn: &mut Conn, data: &SelectData)
    ensures
        final(conn).encoder@ == old(conn).encoder@ + select_flag_lines(*data),
        final(conn).state == old(conn).state,
        final(conn).decoder == old(conn).decoder,
        final(conn).enabled == old(conn).enabled,
{
    conn.encoder.special(42u8);
    conn.encoder.sp();
    conn.encoder.atom("FLAGS");
    conn.encoder.sp();
    write_flag_list_enc(&mut conn.encoder, &data.flags);
    conn.encoder.crlf();
    conn.encoder.special(42u8);
    conn.encoder.sp();
    conn.encoder.atom("OK");
    conn.encoder.sp();
    conn.encoder.special(91u8);
    conn.encoder.atom("PERMANENTFLAGS");
    conn.encoder.sp();
    write_flag_list_enc(&mut conn.encoder, &data.permanent_flags);
    conn.encoder.special(93u8);
    conn.encoder.sp();
    conn.encoder.text("Permanent flags");
    conn.encoder.crlf();
    assert(conn.encoder@ =~= old(conn).encoder@ + select_flag_lines(*data));
}

fn write_count_line(conn: &mut Conn, n: u32, word: &str)
    ensures
        final(conn).encoder@ == old(conn).encoder@ + count_line(n, word@),
        final(conn).state == old(conn).state,
        final(conn).decoder == old(conn).decoder,
        final(conn).enabled == old(conn).enabled,
{
    conn.encoder.special(42u8);
    conn.encoder.sp();
    conn.encoder.number(n);
    conn.encoder.sp();
    conn.encoder.atom(word);
    conn.encoder.crlf();
    assert(conn.encoder@ =~= old(conn).encoder@ + count_line(n, word@));
}

fn write_code_line(conn: &mut Conn, code: &str, n: u32, text: &str)
    ensures
        final(conn).encoder@ == old(conn).encoder@ + code_line(code@, n, text@),
        final(conn).state == old(conn).state,
        final(conn).decoder == old(conn).decoder,
        final(conn).enabled == old(conn).enabled,
{
    conn.encoder.special(42u8);
    conn.encoder.sp();
    conn.encoder.atom("OK");
    conn.encoder.sp();
    conn.encoder.special(91u8);
    conn.encoder.atom(code);
    conn.encoder.sp();
    conn.encoder.number(n);
    conn.encoder.special(93u8);
    conn.encoder.sp();
    conn.encoder.text(text);
    conn.encoder.crlf();
    assert(conn.encoder@ =~= old(conn).encoder@ + code_line(code@, n, text@));
}

/// Ends SELECT (or EXAMINE when `read_only`): writes the mailbox's
/// responses, enters the Selected state and writes
/// `tag OK [READ-WRITE] SELECT completed` (`[READ-ONLY] EXAMINE completed`).
pub fn select_done(conn: &mut Conn, tag: &str, read_only: bool, data: &SelectData)
    ensures
        final(conn).state == ConnState::Selected,
        final(conn).decoder == old(conn).decoder,
        final(conn).enabled == old(conn).enabled,
        final(conn).encoder@ == old(conn).encoder@ + select_lines(*data) + status_bytes(
            tag.spec_bytes(),
            encode_utf8("OK"@),
            Some(if read_only {
                encode_utf8("READ-ONLY"@)
            } else {
                encode_utf8("READ-WRITE"@)
            }),
            if read_only {
                encode_utf8("EXAMINE completed"@)
            } else {
                encode_utf8("SELECT completed"@)
            },
        ),
{
    write_select_counts(conn, data);
    write_select_flags(conn, data);
    assert(conn.encoder@ =~= old(conn).encoder@ + select_lines(*data));
    conn.state = ConnState::Selected;
    if read_only {
        conn.write_status(tag, "OK", Some("READ-ONLY"), "EXAMINE completed");
    } else {
        conn.write_status(tag, "OK", Some("READ-WRITE"), "SELECT completed");
    }
}

/// Checks CLOSE or UNSELECT: the Selected state is required.
pub fn close_check(conn: &Conn) -> (r: ImapResult<()>)
    ensures
        conn.state == ConnState::Selected <==> r is Ok,
        conn.state == ConnState::Authenticated ==> is_bad(r->Err_0, None, "No mailbox selected"@),
        conn.state == ConnState::NotAuthenticated || conn.state == ConnState::Logout ==> is_bad(r->Err_0, None, "Not authenticated"@),
{
    conn.require_selected()
}

/// Ends CLOSE or UNSELECT (`verb`): back to Authenticated and
/// `tag OK <verb> completed`.
pub fn close_done(conn: &mut Conn, tag: &str, verb: &str)
    ensures
        final(conn).state == ConnState::Authenticated,
        final(conn).decoder == old(conn).decoder,
        final(conn).enabled == old(conn).enabled,
        final(conn).encoder@ == old(conn).encoder@ + completed_bytes(tag.spec_bytes(), verb@),
{
    conn.state = ConnState::Authenticated;
    write_completed(conn, tag, verb);
}

} // verus!
