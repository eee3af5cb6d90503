//! IDLE: the continuation, DONE, and the EXISTS updates while idling.
use vstd::prelude::*;
use vstd::string::StringSliceAdditionalSpecFns;
use vstd::utf8::encode_utf8;
use crate::codec::{crlf_ok, crlf_result, lemma_span, run_result, span, status_bytes, AsyncDecoder, ByteClass};
use crate::conn::Conn;
use crate::error::ImapResult;
use crate::text::{bytes_eq_ignore_case, eq_ignore_case, latin1};
use crate::types::ConnState;
use crate::cmd::noop::only_decoder_moved;
use crate::cmd::select::count_line;

verus! {

/// Starts IDLE: the Selected state is required, the line is ended, and
/// `+ idling` is written.
pub fn idle_begin(conn: &mut Conn) -> (r: ImapResult<()>)
    requires
        old(conn).wf(),
    ensures
        final(conn).wf(),
        final(conn).state == old(conn).state,
        final(conn).enabled == old(conn).enabled,
        old(conn).state != ConnState::Selected ==> r is Err && *final(conn) == *old(conn),
        old(conn).state == ConnState::Selected ==> match r {
            Ok(()) => crlf_result(&old(conn).decoder, &final(conn).decoder, Ok(())) && final(conn).encoder@
                == old(conn).encoder@ + seq![43u8, 32] + encode_utf8("idling"@) + seq![13u8, 10],
            Err(e) => crlf_result(&old(conn).decoder, &final(conn).decoder, Err(e)) && final(conn).encoder == old(conn).encoder,
        },
{
    conn.require_selected()?;
    conn.decoder.expect_crlf()?;
    conn.write_continuation("idling");
    Ok(())
}

/// Reads a line while idling: `DONE` (any case) and the end of the line
/// end IDLE (`true`); any other atom's line is discarded (`false`).
pub fn idle_read(conn: &mut Conn) -> (r: ImapResult<bool>)
    requires
        old(conn).wf(),
    ensures
        final(conn).wf(),
        only_decoder_moved(*old(conn), *final(conn)),
        ({
            let s = old(conn).decoder.stream();
            let n = span(s, ByteClass::Atom);
            r is Ok <==> 0 < n < s.len() && (eq_ignore_case(encode_utf8(latin1(s.take(n as int))), seq![68u8, 79, 78, 69])
                ==> crlf_ok(s.skip(n as int)))
        }),
        r matches Ok(done) ==> exists|d1: AsyncDecoder, a: String| {
            &&& #[trigger] run_result(&old(conn).decoder, &d1, Ok(a), ByteClass::Atom, "expected atom"@)
            &&& done == eq_ignore_case(encode_utf8(a@), seq![68u8, 79, 78, 69])
            &&& done ==> crlf_result(&d1, &final(conn).decoder, Ok(()))
        },
{
    let ghost d0 = conn.decoder;
    proof {
        lemma_span(d0.stream(), ByteClass::Atom);
    }
    let atom = conn.decoder.read_atom()?;
    let ghost d1 = conn.decoder;
    proof {
        d0.lemma_advanced_pub(&d1, span(d0.stream(), ByteClass::Atom), true);
    }
    assert(run_result(&d0, &d1, Ok(atom), ByteClass::Atom, "expected atom"@));
    if bytes_eq_ignore_case(atom.as_str().as_bytes(), &[68u8, 79, 78, 69]) {
        conn.decoder.expect_crlf()?;
        assert(crlf_result(&d1, &conn.decoder, Ok(())));
        return Ok(true);
    }
    let _ = conn.decoder.discard_line();
    Ok(false)
}

/// A poll while idling: when the mail store reports a message count above
/// the last one known (0 when none), `* count EXISTS` is written. Gives the
/// count now known.
pub fn idle_tick(conn: &mut Conn, count: Option<u32>, last: Option<u32>) -> (r: Option<u32>)
    ensures
        final(conn).state == old(conn).state,
        final(conn).decoder == old(conn).decoder,
        final(conn).enabled == old(conn).enabled,
        match count {
            Some(c) => r == Some(c) && final(conn).encoder@ == old(conn).encoder@ + (if c > (match last {
                Some(l) => l,
                None => 0u32,
            }) {
                count_line(c, "EXISTS"@)
            } else {
                Seq::<u8>::empty()
            }),
            None => r == last && final(conn).encoder@ == old(conn).encoder@,
        },
{
    match count {
        Some(c) => {
            let before = match last {
                Some(l) => l,
                None => 0,
            };
            if c > before {
                conn.encoder.special(42u8);
                conn.encoder.sp();
                conn.encoder.number(c);
                conn.encoder.sp();
                conn.encoder.atom("EXISTS");
                conn.encoder.crlf();
                assert(conn.encoder@ =~= old(conn).encoder@ + count_line(c, "EXISTS"@));
            } else {
                assert(conn.encoder@ =~= old(conn).encoder@ + Seq::<u8>::empty());
            }
            Some(c)
        },
        None => last,
    }
}

/// Ends IDLE: `tag OK IDLE terminated`.
pub fn idle_done(conn: &mut Conn, tag: &str)
    ensures
        final(conn).encoder@ == old(conn).encoder@ + status_bytes(
            tag.spec_bytes(),
            encode_utf8("OK"@),
            None,
            encode_utf8("IDLE terminated"@),
        ),
        final(conn).state == old(conn).state,
        final(conn).decoder == old(conn).decoder,
        final(conn).enabled == old(conn).enabled,
{
    conn.write_ok(tag, "IDLE terminated");
}

} // verus!
