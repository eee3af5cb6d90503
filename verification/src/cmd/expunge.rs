//! EXPUNGE and UID EXPUNGE.
use vstd::prelude::*;
use vstd::string::StringSliceAdditionalSpecFns;
use crate::codec::{crlf_result, lemma_crlf_det, span, ByteClass, AsyncDecoder};
use crate::cmd::copy::seq_set_read;
use crate::conn::Conn;
use crate::error::ImapResult;
use crate::seqset::SeqSet;
use crate::types::ConnState;
use crate::cmd::noop::only_decoder_moved;
use crate::cmd::select::completed_bytes;
use crate::writer::expunge_line;

verus! {

/// Reads EXPUNGE's end of line; the Selected state is required.
pub fn expunge_args(conn: &mut Conn) -> (r: ImapResult<()>)
    requires
        old(conn).wf(),
    ensures
        final(conn).wf(),
        only_decoder_moved(*old(conn), *final(conn)),
        old(conn).state != ConnState::Selected ==> r is Err && final(conn).decoder == old(conn).decoder,
        old(conn).state == ConnState::Selected ==> crlf_result(&old(conn).decoder, &final(conn).decoder, r),
{
    conn.require_selected()?;
    conn.decoder.expect_crlf()
}

/// Reads UID EXPUNGE's UID set and the end of the line; the Selected state
/// is required.
pub fn uid_expunge_args(conn: &mut Conn) -> (r: ImapResult<SeqSet>)
    requires
        old(conn).wf(),
    ensures
        final(conn).wf(),
        only_decoder_moved(*old(conn), *final(conn)),
        old(conn).state != ConnState::Selected ==> r is Err && final(conn).decoder == old(conn).decoder,
        old(conn).state == ConnState::Selected ==> (r is Ok <==> uid_expunge_line_ok(old(conn).decoder)),
        r matches Ok(set) ==> uid_expunge_line_read(old(conn).decoder, final(conn).decoder, set@),
{
    conn.require_selected()?;
    let ghost d0 = conn.decoder;
    let set = crate::cmd::copy::read_seq_set(conn)?;
    let ghost d1 = conn.decoder;
    let rc = conn.decoder.expect_crlf();
    let ghost d2 = conn.decoder;
    if let Err(e) = rc {
        proof {
            if uid_expunge_line_ok(d0) {
                let (w2, wr) = choose|w2: AsyncDecoder, wr: Seq<(u32, u32)>| #[trigger] uid_expunge_line_read(d0, w2, wr);
                let w1 = choose|w1: AsyncDecoder| seq_set_read(d0, w1, wr) && crlf_result(&w1, &w2, Ok(()));
                d0.lemma_advanced_det(&d1, &w1, span(d0.stream(), ByteClass::NumSet), true);
                lemma_crlf_det(&d1, &d2, rc, &w2, Ok(()));
            }
        }
        return Err(e);
    }
    assert(seq_set_read(d0, d1, set@) && crlf_result(&d1, &d2, Ok(())));
    assert(uid_expunge_line_read(d0, d2, set@));
    Ok(set)
}

/// UID EXPUNGE's arguments read from `d0` to `d2`: the ranges `rs` and the
/// end of the line.
pub open spec fn uid_expunge_line_read(d0: AsyncDecoder, d2: AsyncDecoder, rs: Seq<(u32, u32)>) -> bool {
    exists|d1: AsyncDecoder|
        #![trigger crlf_result(&d1, &d2, Ok(()))]
        seq_set_read(d0, d1, rs) && crlf_result(&d1, &d2, Ok(()))
}

/// The line at `d0` holds UID EXPUNGE's arguments.
pub open spec fn uid_expunge_line_ok(d0: AsyncDecoder) -> bool {
    exists|d2: AsyncDecoder, rs: Seq<(u32, u32)>| #[trigger] uid_expunge_line_read(d0, d2, rs)
}

/// The EXPUNGE lines for the sequence numbers, in order.
pub open spec fn expunge_lines(seqs: Seq<u32>) -> Seq<u8>
    decreases seqs.len(),
{
    if seqs.len() == 0 {
        Seq::empty()
    } else {
        expunge_lines(seqs.drop_last()) + expunge_line(seqs.last())
    }
}

/// Writes `* n EXPUNGE` for each expunged message and
/// `tag OK <verb> completed`.
pub fn expunge_done(conn: &mut Conn, tag: &str, verb: &str, expunged: &[u32])
    ensures
        final(conn).encoder@ == old(conn).encoder@ + expunge_lines(expunged@) + completed_bytes(tag.spec_bytes(), verb@),
        final(conn).state == old(conn).state,
        final(conn).decoder == old(conn).decoder,
        final(conn).enabled == old(conn).enabled,
{
    let w = crate::writer::ExpungeWriter::new();
    let mut i: usize = 0;
    while i < expunged.len()
        invariant
            i <= expunged.len(),
            conn.encoder@ == old(conn).encoder@ + expunge_lines(expunged@.take(i as int)),
            conn.state == old(conn).state,
            conn.decoder == old(conn).decoder,
            conn.enabled == old(conn).enabled,
        decreases expunged.len() - i,
    {
        w.write_expunge(&mut conn.encoder, expunged[i]);
        assert(expunged@.take(i + 1).drop_last() =~= expunged@.take(i as int));
        i += 1;
    }
    assert(expunged@.take(expunged@.len() as int) =~= expunged@);
    crate::cmd::select::write_completed(conn, tag, verb);
}

} // verus!
