//! COPY and MOVE, and the sequence-set argument that several commands read.
use vstd::prelude::*;
use vstd::string::StringSliceAdditionalSpecFns;
use vstd::utf8::encode_utf8;
use crate::codec::{
    astring_result, crlf_result, lemma_astring_det, lemma_crlf_det, lemma_sp_det, sp_result, span, status_bytes, ByteClass, AsyncDecoder,
};
use crate::conn::Conn;
use crate::error::{ImapError, ImapResult, is_bad};
use crate::select::CopyData;
use crate::seqset::{SeqSet, parse_seq_set_spec};
use crate::text::{dec_digits, latin1};
use crate::types::ConnState;
use crate::cmd::noop::only_decoder_moved;
use crate::cmd::select::completed_bytes;
use crate::writer::{join_sp, lemma_join_sp_push, lit};

verus! {

/// Reads a sequence set: a run of atom characters and `*`, parsed.
pub fn read_seq_set(conn: &mut Conn) -> (r: ImapResult<SeqSet>)
    requires
        old(conn).wf(),
    ensures
        final(conn).wf(),
        only_decoder_moved(*old(conn), *final(conn)),
        ({
            let s = old(conn).decoder.stream();
            let n = span(s, ByteClass::NumSet);
            if 0 < n < s.len() {
                old(conn).decoder.advanced(&final(conn).decoder, n, true) && match parse_seq_set_spec(latin1(s.take(n as int))) {
                    Ok(rs) => r is Ok && r->Ok_0@ == rs,
                    Err(e) => r is Err && is_bad(r->Err_0, None, e),
                }
            } else {
                r is Err
            }
        }),
{
    proof {
        crate::codec::lemma_span(conn.decoder.stream(), ByteClass::NumSet);
    }
    let text = conn.decoder.read_num_set_str()?;
    match SeqSet::parse(text.as_str()) {
        Ok(set) => Ok(set),
        Err(e) => Err(ImapError::Bad { code: None, text: e }),
    }
}

/// A sequence set read from `d0` to `d1`: a run of atom characters and
/// `*`, with the byte after it pushed back, that parses to the ranges `rs`.
pub open spec fn seq_set_read(d0: AsyncDecoder, d1: AsyncDecoder, rs: Seq<(u32, u32)>) -> bool {
    let s = d0.stream();
    let n = span(s, ByteClass::NumSet);
    &&& 0 < n < s.len()
    &&& parse_seq_set_spec(latin1(s.take(n as int))) == Ok::<Seq<(u32, u32)>, Seq<char>>(rs)
    &&& d0.advanced(&d1, n, true)
}

/// COPY's arguments read from `d0` to `d4`: the ranges `rs`, SP, the
/// destination mailbox and the end of the line.
pub open spec fn copy_line_read(d0: AsyncDecoder, d4: AsyncDecoder, rs: Seq<(u32, u32)>, dest: String) -> bool {
    exists|d1: AsyncDecoder, d2: AsyncDecoder, d3: AsyncDecoder|
        #![trigger sp_result(&d1, &d2, Ok(())), crlf_result(&d3, &d4, Ok(()))]
        {
            &&& seq_set_read(d0, d1, rs)
            &&& sp_result(&d1, &d2, Ok(()))
            &&& astring_result(&d2, &d3, Ok(dest), ByteClass::AString, "expected astring"@)
            &&& crlf_result(&d3, &d4, Ok(()))
        }
}

/// The line at `d0` holds COPY's arguments.
pub open spec fn copy_line_ok(d0: AsyncDecoder) -> bool {
    exists|d4: AsyncDecoder, rs: Seq<(u32, u32)>, dest: String| #[trigger] copy_line_read(d0, d4, rs, dest)
}

/// Reads COPY's or MOVE's arguments: a sequence set, SP, the destination
/// mailbox, and the end of the line; the Selected state is required.
pub fn copy_args(conn: &mut Conn) -> (r: ImapResult<(SeqSet, String)>)
    requires
        old(conn).wf(),
    ensures
        final(conn).wf(),
        only_decoder_moved(*old(conn), *final(conn)),
        old(conn).state != ConnState::Selected ==> r is Err && final(conn).decoder == old(conn).decoder,
        old(conn).state == ConnState::Selected ==> (r is Ok <==> copy_line_ok(old(conn).decoder)),
        r matches Ok(v) ==> copy_line_read(old(conn).decoder, final(conn).decoder, v.0@, v.1),
{
    conn.require_selected()?;
    let ghost d0 = conn.decoder;
    let rset = read_seq_set(conn);
    let ghost d1 = conn.decoder;
    let set = match rset {
        Ok(x) => x,
        Err(e) => {
            proof {
                if copy_line_ok(d0) {
                    let (w4, wr, wd) = choose|w4: AsyncDecoder, wr: Seq<(u32, u32)>, wd: String|
                        #[trigger] copy_line_read(d0, w4, wr, wd);
                }
            }
            return Err(e);
        },
    };
    let rs = conn.decoder.expect_sp();
    let ghost d2 = conn.decoder;
    if let Err(e) = rs {
        proof {
            if copy_line_ok(d0) {
                let (w4, wr, wd) = choose|w4: AsyncDecoder, wr: Seq<(u32, u32)>, wd: String|
                    #[trigger] copy_line_read(d0, w4, wr, wd);
                let (w1, w2, w3) = choose|w1: AsyncDecoder, w2: AsyncDecoder, w3: AsyncDecoder|
                    {
                        &&& seq_set_read(d0, w1, wr)
                        &&& sp_result(&w1, &w2, Ok(()))
                        &&& astring_result(&w2, &w3, Ok(wd), ByteClass::AString, "expected astring"@)
                        &&& crlf_result(&w3, &w4, Ok(()))
                    };
                d0.lemma_advanced_det(&d1, &w1, span(d0.stream(), ByteClass::NumSet), true);
                lemma_sp_det(&d1, &d2, rs, &w2, Ok(()));
            }
        }
        return Err(e);
    }
    let rd = conn.decoder.read_astring();
    let ghost d3 = conn.decoder;
    let dest = match rd {
        Ok(x) => x,
        Err(e) => {
            proof {
                if copy_line_ok(d0) {
                    let (w4, wr, wd) = choose|w4: AsyncDecoder, wr: Seq<(u32, u32)>, wd: String|
                        #[trigger] copy_line_read(d0, w4, wr, wd);
                    let (w1, w2, w3) = choose|w1: AsyncDecoder, w2: AsyncDecoder, w3: AsyncDecoder|
                        {
                            &&& seq_set_read(d0, w1, wr)
                            &&& sp_result(&w1, &w2, Ok(()))
                            &&& astring_result(&w2, &w3, Ok(wd), ByteClass::AString, "expected astring"@)
                            &&& crlf_result(&w3, &w4, Ok(()))
                        };
                    d0.lemma_advanced_det(&d1, &w1, span(d0.stream(), ByteClass::NumSet), true);
                    lemma_sp_det(&d1, &d2, Ok(()), &w2, Ok(()));
                    lemma_astring_det(&d2, &d3, rd, &w3, Ok(wd), ByteClass::AString, "expected astring"@);
                }
            }
            return Err(e);
        },
    };
    let rc = conn.decoder.expect_crlf();
    let ghost d4 = conn.decoder;
    if let Err(e) = rc {
        proof {
            if copy_line_ok(d0) {
                let (w4, wr, wd) = choose|w4: AsyncDecoder, wr: Seq<(u32, u32)>, wd: String|
                    #[trigger] copy_line_read(d0, w4, wr, wd);
                let (w1, w2, w3) = choose|w1: AsyncDecoder, w2: AsyncDecoder, w3: AsyncDecoder|
                    {
                        &&& seq_set_read(d0, w1, wr)
                        &&& sp_result(&w1, &w2, Ok(()))
                        &&& astring_result(&w2, &w3, Ok(wd), ByteClass::AString, "expected astring"@)
                        &&& crlf_result(&w3, &w4, Ok(()))
                    };
                d0.lemma_advanced_det(&d1, &w1, span(d0.stream(), ByteClass::NumSet), true);
                lemma_sp_det(&d1, &d2, Ok(()), &w2, Ok(()));
                lemma_astring_det(&d2, &d3, Ok(dest), &w3, Ok(wd), ByteClass::AString, "expected astring"@);
                lemma_crlf_det(&d3, &d4, rc, &w4, Ok(()));
            }
        }
        return Err(e);
    }
    let r = (set, dest);
    assert(seq_set_read(d0, d1, r.0@));
    assert(sp_result(&d1, &d2, Ok(())));
    assert(astring_result(&d2, &d3, Ok(r.1), ByteClass::AString, "expected astring"@));
    assert(crlf_result(&d3, &d4, Ok(())));
    assert(copy_line_read(d0, d4, r.0@, r.1));
    Ok(r)
}

/// Numbers separated by SP.
pub open spec fn numbers_bytes(ns: Seq<u32>) -> Seq<u8> {
    join_sp(ns.map_values(|n: u32| dec_digits(n as nat)))
}

/// `COPYUID validity (source UIDs) (destination UIDs)`.
pub open spec fn copyuid_bytes(d: CopyData) -> Seq<u8> {
    lit("COPYUID"@) + seq![32u8] + dec_digits(d.uid_validity as nat) + seq![32u8, 40]
        + numbers_bytes(d.source_uids@) + seq![41u8, 32, 40] + numbers_bytes(d.dest_uids@) + seq![41u8]
}

fn write_numbers(conn: &mut Conn, ns: &[u32])
    ensures
        final(conn).encoder@ == old(conn).encoder@ + numbers_bytes(ns@),
        final(conn).state == old(conn).state,
        final(conn).decoder == old(conn).decoder,
        final(conn).enabled == old(conn).enabled,
{
    let ghost items = ns@.map_values(|n: u32| dec_digits(n as nat));
    let mut i: usize = 0;
    while i < ns.len()
        invariant
            i <= ns.len(),
            items == ns@.map_values(|n: u32| dec_digits(n as nat)),
            conn.encoder@ == old(conn).encoder@ + join_sp(items.take(i as int)),
            conn.state == old(conn).state,
            conn.decoder == old(conn).decoder,
            conn.enabled == old(conn).enabled,
        decreases ns.len() - i,
    {
        proof {
            lemma_join_sp_push(items, i as int);
        }
        if i > 0 {
            conn.encoder.sp();
        }
        conn.encoder.number(ns[i]);
        i += 1;
        assert(conn.encoder@ =~= old(conn).encoder@ + join_sp(items.take(i as int)));
    }
    assert(items.take(ns@.len() as int) =~= items);
}

fn write_copyuid(conn: &mut Conn, data: &CopyData)
    ensures
        final(conn).encoder@ == old(conn).encoder@ + copyuid_bytes(*data),
        final(conn).state == old(conn).state,
        final(conn).decoder == old(conn).decoder,
        final(conn).enabled == old(conn).enabled,
{
    conn.encoder.atom("COPYUID");
    conn.encoder.sp();
    conn.encoder.number(data.uid_validity);
    conn.encoder.sp();
    conn.encoder.special(40u8);
    write_numbers(conn, &data.source_uids);
    conn.encoder.special(41u8);
    conn.encoder.sp();
    conn.encoder.special(40u8);
    write_numbers(conn, &data.dest_uids);
    conn.encoder.special(41u8);
    assert(conn.encoder@ =~= old(conn).encoder@ + copyuid_bytes(*data));
}

/// Ends COPY or MOVE (`verb`): `tag OK [COPYUID ...] <verb> completed` when
/// the mail store gave source and destination UIDs, else
/// `tag OK <verb> completed`.
pub fn copy_done(conn: &mut Conn, tag: &str, verb: &str, data: &CopyData)
    ensures
        final(conn).state == old(conn).state,
        final(conn).decoder == old(conn).decoder,
        final(conn).enabled == old(conn).enabled,
        data.source_uids@.len() > 0 && data.dest_uids@.len() > 0 ==> final(conn).encoder@
            == old(conn).encoder@ + status_bytes(
            tag.spec_bytes(),
            encode_utf8("OK"@),
            Some(copyuid_bytes(*data)),
            encode_utf8(verb@ + " completed"@),
        ),
        !(data.source_uids@.len() > 0 && data.dest_uids@.len() > 0) ==> final(conn).encoder@
            == old(conn).encoder@ + completed_bytes(tag.spec_bytes(), verb@),
{
    if data.source_uids.len() > 0 && data.dest_uids.len() > 0 {
        let mut text = String::from_str(verb);
        text.append(" completed");
        if tag.as_bytes().len() == 0 {
            conn.encoder.special(42u8);
        } else {
            conn.encoder.atom(tag);
        }
        conn.encoder.sp();
        conn.encoder.atom("OK");
        conn.encoder.sp();
        conn.encoder.special(91u8);
        write_copyuid(conn, data);
        conn.encoder.special(93u8);
        conn.encoder.sp();
        conn.encoder.text(text.as_str());
        conn.encoder.crlf();
        assert(conn.encoder@ =~= old(conn).encoder@ + status_bytes(
            tag.spec_bytes(),
            encode_utf8("OK"@),
            Some(copyuid_bytes(*data)),
            encode_utf8(verb@ + " completed"@),
        ));
    } else {
        crate::cmd::select::write_completed(conn, tag, verb);
    }
}

} // verus!
