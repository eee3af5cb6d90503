//! APPEND: the mailbox, optional flags and date, and the message literal.
use vstd::prelude::*;
use vstd::string::StringSliceAdditionalSpecFns;
use vstd::utf8::encode_utf8;
use crate::codec::{
    astring_result, lemma_astring_det, lemma_literal_det, lemma_sp_det, lemma_string_det, literal_result, sp_result,
    status_bytes, string_result, AsyncDecoder, ByteClass,
};
use crate::conn::Conn;
use crate::error::ImapResult;
use crate::select::AppendData;
use crate::text::dec_digits;
use crate::types::{ConnState, Flag};
use crate::cmd::noop::only_decoder_moved;
use crate::cmd::select::completed_bytes;
use crate::cmd::store::{flag_list_spec, is_flag_text};
use crate::writer::lit;

verus! {

/// The texts of flags, in order.
pub open spec fn flag_texts(fs: Seq<Flag>) -> Seq<Seq<char>> {
    fs.map_values(|f: Flag| f.0@)
}

/// The flags `fs` read from `d0` to `d1` as `flag_list_spec` describes.
pub open spec fn flags_read(d0: AsyncDecoder, d1: AsyncDecoder, fs: Seq<Flag>) -> bool {
    match flag_list_spec(d0.stream()) {
        Some((texts, k, back)) => texts == flag_texts(fs) && d0.advanced(&d1, k, back),
        None => false,
    }
}

/// Reading the next byte when it is SP and only peeking at it otherwise;
/// at the end of the input, nothing is left to read.
pub open spec fn sp_accepted(d0: AsyncDecoder, d1: AsyncDecoder) -> bool {
    if d0.stream().len() > 0 {
        if d0.stream()[0] == 32 {
            d0.advanced(&d1, 1, false)
        } else {
            d0.peeked_to(&d1)
        }
    } else {
        d0.exhausted(&d1)
    }
}

/// APPEND's flag list `fs`, read from `d0` to `d2`: the list, then an SP
/// when the list was parenthesized.
pub open spec fn append_flags_read(d0: AsyncDecoder, d2: AsyncDecoder, fs: Seq<Flag>) -> bool {
    exists|dp: AsyncDecoder, d1: AsyncDecoder|
        #![trigger d0.peeked_to(&dp), flags_read(dp, d1, fs)]
        d0.peeked_to(&dp) && flags_read(dp, d1, fs) && if d0.stream()[0] == 40 {
            sp_accepted(d1, d2)
        } else {
            d1 == d2
        }
}

/// Reads APPEND's flag list: `(flag ...)` (SP between flags skipped) or a
/// single flag. An SP right after a parenthesized list is consumed as well.
pub fn read_flag_list(conn: &mut Conn) -> (r: ImapResult<Vec<Flag>>)
    requires
        old(conn).wf(),
    ensures
        final(conn).wf(),
        only_decoder_moved(*old(conn), *final(conn)),
        r is Ok ==> forall|i: int| 0 <= i < r->Ok_0@.len() ==> is_flag_text(#[trigger] r->Ok_0@[i].0@),
        r is Ok <==> flag_list_spec(old(conn).decoder.stream()) is Some,
        r matches Ok(fs) ==> append_flags_read(old(conn).decoder, final(conn).decoder, fs@),
{
    let ghost d0 = conn.decoder;
    let paren = conn.decoder.peek_byte()? == 40u8;
    let ghost dp = conn.decoder;
    proof {
        d0.lemma_advanced_pub(&dp, 0, true);
        assert(dp.stream() =~= d0.stream());
    }
    let names = crate::cmd::store::read_flag_list(conn)?;
    let ghost d1 = conn.decoder;
    let mut flags: Vec<Flag> = Vec::new();
    let mut i: usize = 0;
    while i < names.len()
        invariant
            i <= names.len(),
            flags@.len() == i,
            forall|j: int| 0 <= j < names@.len() ==> is_flag_text(#[trigger] names@[j]@),
            forall|j: int| 0 <= j < i ==> #[trigger] flags@[j].0 == names@[j],
        decreases names.len() - i,
    {
        flags.push(Flag(names[i].clone()));
        i += 1;
    }
    assert forall|j: int| 0 <= j < flags@.len() implies is_flag_text(#[trigger] flags@[j].0@) by {
        assert(flags@[j].0 == names@[j]);
    }
    assert(flag_texts(flags@) =~= crate::text::string_views(names@));
    assert(flags_read(dp, d1, flags@));
    assert(d0.peeked_to(&dp));
    if paren {
        let _ = conn.decoder.accept_byte(32u8);
    }
    Ok(flags)
}

/// The arguments of APPEND: the mailbox, the flags when a list was given,
/// the date when one was given, and the message bytes.
pub struct AppendArgs {
    pub mailbox: String,
    pub flags: Option<Vec<Flag>>,
    pub date: Option<String>,
    pub data: Vec<u8>,
}

/// APPEND's optional flag list, read from `d0` to `d1`: present when the
/// next byte is `(`.
pub open spec fn append_flags_part(d0: AsyncDecoder, d1: AsyncDecoder, flags: Option<Vec<Flag>>) -> bool {
    if d0.stream().len() == 0 {
        flags is None && d0.exhausted(&d1)
    } else if d0.stream()[0] == 40 {
        exists|dp: AsyncDecoder|
            #[trigger] d0.peeked_to(&dp) && (flags matches Some(fs) && append_flags_read(dp, d1, fs@))
    } else {
        flags is None && d0.peeked_to(&d1)
    }
}

/// A date string read from `d0`, and the SP after it, which ends at `d2`.
pub open spec fn dated(d0: AsyncDecoder, d2: AsyncDecoder, date: Option<String>) -> bool {
    exists|d1: AsyncDecoder, t: String|
        #[trigger] string_result(&d0, &d1, Ok(t)) && sp_result(&d1, &d2, Ok(())) && date == Some(t)
}

/// APPEND's optional date, read from `d0` to `d1`, where the literal
/// starts: a quoted date right away, or after one SP; any other byte
/// starts the literal.
pub open spec fn append_date_part(d0: AsyncDecoder, d1: AsyncDecoder, date: Option<String>) -> bool {
    let s = d0.stream();
    if s.len() == 0 {
        date is None && d0.exhausted(&d1)
    } else if s[0] == 34 {
        exists|dp: AsyncDecoder| #[trigger] d0.peeked_to(&dp) && dated(dp, d1, date)
    } else if s[0] == 32 {
        exists|dp: AsyncDecoder, da: AsyncDecoder, db: AsyncDecoder|
            #![trigger d0.peeked_to(&dp), da.peeked_to(&db)]
            {
                &&& d0.peeked_to(&dp)
                &&& dp.advanced(&da, 1, false)
                &&& da.stream().len() > 0
                &&& da.peeked_to(&db)
                &&& if da.stream()[0] == 34 {
                    dated(db, d1, date)
                } else {
                    date is None && db == d1
                }
            }
    } else {
        date is None && d0.peeked_to(&d1)
    }
}

/// An optional SP read from one decoder: one outcome.
proof fn lemma_sp_accepted_det(d0: AsyncDecoder, d1: AsyncDecoder, d2: AsyncDecoder)
    requires
        sp_accepted(d0, d1),
        sp_accepted(d0, d2),
    ensures
        d1 == d2,
{
    if d0.stream().len() > 0 {
        if d0.stream()[0] == 32 {
            d0.lemma_advanced_det(&d1, &d2, 1, false);
        } else {
            d0.lemma_advanced_det(&d1, &d2, 0, true);
        }
    } else {
        d0.lemma_exhausted_det(&d1, &d2);
    }
}

/// APPEND's flag list read from one decoder: one outcome.
proof fn lemma_append_flags_det(d0: AsyncDecoder, d2: AsyncDecoder, fs: Seq<Flag>, e2: AsyncDecoder, gs: Seq<Flag>)
    requires
        append_flags_read(d0, d2, fs),
        append_flags_read(d0, e2, gs),
    ensures
        d2 == e2,
{
    let (dp, d1) = choose|dp: AsyncDecoder, d1: AsyncDecoder|
        d0.peeked_to(&dp) && flags_read(dp, d1, fs) && if d0.stream()[0] == 40 {
            sp_accepted(d1, d2)
        } else {
            d1 == d2
        };
    let (ep, e1) = choose|dp: AsyncDecoder, d1: AsyncDecoder|
        d0.peeked_to(&dp) && flags_read(dp, d1, gs) && if d0.stream()[0] == 40 {
            sp_accepted(d1, e2)
        } else {
            d1 == e2
        };
    d0.lemma_advanced_det(&dp, &ep, 0, true);
    let (t, k, back) = flag_list_spec(dp.stream())->Some_0;
    dp.lemma_advanced_det(&d1, &e1, k, back);
    if d0.stream()[0] == 40 {
        lemma_sp_accepted_det(d1, d2, e2);
    }
}

/// APPEND's optional flag list read from one decoder: one outcome.
proof fn lemma_flags_part_det(d0: AsyncDecoder, d1: AsyncDecoder, f1: Option<Vec<Flag>>, d2: AsyncDecoder, f2: Option<Vec<Flag>>)
    requires
        append_flags_part(d0, d1, f1),
        append_flags_part(d0, d2, f2),
    ensures
        d1 == d2,
{
    let s = d0.stream();
    if s.len() == 0 {
        d0.lemma_exhausted_det(&d1, &d2);
    } else if s[0] == 40 {
        let dp = choose|dp: AsyncDecoder| #[trigger] d0.peeked_to(&dp) && (f1 matches Some(fs) && append_flags_read(dp, d1, fs@));
        let ep = choose|dp: AsyncDecoder| #[trigger] d0.peeked_to(&dp) && (f2 matches Some(fs) && append_flags_read(dp, d2, fs@));
        d0.lemma_advanced_det(&dp, &ep, 0, true);
        lemma_append_flags_det(dp, d1, f1->Some_0@, d2, f2->Some_0@);
    } else {
        d0.lemma_advanced_det(&d1, &d2, 0, true);
    }
}

/// A date and the SP after it, read from one decoder: one outcome.
proof fn lemma_dated_det(d0: AsyncDecoder, d2: AsyncDecoder, t1: Option<String>, e2: AsyncDecoder, t2: Option<String>)
    requires
        dated(d0, d2, t1),
        dated(d0, e2, t2),
    ensures
        d2 == e2,
{
    let (d1, x) = choose|d1: AsyncDecoder, t: String|
        #[trigger] string_result(&d0, &d1, Ok(t)) && sp_result(&d1, &d2, Ok(())) && t1 == Some(t);
    let (e1, y) = choose|d1: AsyncDecoder, t: String|
        #[trigger] string_result(&d0, &d1, Ok(t)) && sp_result(&d1, &e2, Ok(())) && t2 == Some(t);
    lemma_string_det(&d0, &d1, Ok(x), &e1, Ok(y));
    lemma_sp_det(&d1, &d2, Ok(()), &e2, Ok(()));
}

/// APPEND's optional date read from one decoder: one outcome.
proof fn lemma_date_part_det(d0: AsyncDecoder, d1: AsyncDecoder, t1: Option<String>, d2: AsyncDecoder, t2: Option<String>)
    requires
        append_date_part(d0, d1, t1),
        append_date_part(d0, d2, t2),
    ensures
        d1 == d2,
{
    let s = d0.stream();
    if s.len() == 0 {
        d0.lemma_exhausted_det(&d1, &d2);
    } else if s[0] == 34 {
        let dp = choose|dp: AsyncDecoder| #[trigger] d0.peeked_to(&dp) && dated(dp, d1, t1);
        let ep = choose|dp: AsyncDecoder| #[trigger] d0.peeked_to(&dp) && dated(dp, d2, t2);
        d0.lemma_advanced_det(&dp, &ep, 0, true);
        lemma_dated_det(dp, d1, t1, d2, t2);
    } else if s[0] == 32 {
        let (dp, da, db) = choose|dp: AsyncDecoder, da: AsyncDecoder, db: AsyncDecoder|
            #![trigger d0.peeked_to(&dp), da.peeked_to(&db)]
            {
                &&& d0.peeked_to(&dp)
                &&& dp.advanced(&da, 1, false)
                &&& da.stream().len() > 0
                &&& da.peeked_to(&db)
                &&& if da.stream()[0] == 34 {
                    dated(db, d1, t1)
                } else {
                    t1 is None && db == d1
                }
            };
        let (ep, ea, eb) = choose|dp: AsyncDecoder, da: AsyncDecoder, db: AsyncDecoder|
            #![trigger d0.peeked_to(&dp), da.peeked_to(&db)]
            {
                &&& d0.peeked_to(&dp)
                &&& dp.advanced(&da, 1, false)
                &&& da.stream().len() > 0
                &&& da.peeked_to(&db)
                &&& if da.stream()[0] == 34 {
                    dated(db, d2, t2)
                } else {
                    t2 is None && db == d2
                }
            };
        d0.lemma_advanced_det(&dp, &ep, 0, true);
        dp.lemma_advanced_det(&da, &ea, 1, false);
        da.lemma_advanced_det(&db, &eb, 0, true);
        if da.stream()[0] == 34 {
            lemma_dated_det(db, d1, t1, d2, t2);
        }
    } else {
        d0.lemma_advanced_det(&d1, &d2, 0, true);
    }
}

/// APPEND's arguments `a`, read from `d0` to `d5`: the mailbox, SP, the
/// optional flag list, the optional date and the message literal.
pub open spec fn append_args_read(d0: AsyncDecoder, d5: AsyncDecoder, a: AppendArgs) -> bool {
    exists|d1: AsyncDecoder, d2: AsyncDecoder, d3: AsyncDecoder, d4: AsyncDecoder, ns: bool|
        #![trigger astring_result(&d0, &d1, Ok(a.mailbox), ByteClass::AString, "expected astring"@), sp_result(&d1, &d2, Ok(())), append_flags_part(d2, d3, a.flags), append_date_part(d3, d4, a.date), literal_result(&d4, &d5, Ok((a.data, ns)))]
        {
            &&& astring_result(&d0, &d1, Ok(a.mailbox), ByteClass::AString, "expected astring"@)
            &&& sp_result(&d1, &d2, Ok(()))
            &&& append_flags_part(d2, d3, a.flags)
            &&& append_date_part(d3, d4, a.date)
            &&& literal_result(&d4, &d5, Ok((a.data, ns)))
        }
}

/// The line at `d0` holds APPEND's arguments.
pub open spec fn append_args_ok(d0: AsyncDecoder) -> bool {
    exists|d5: AsyncDecoder, a: AppendArgs| #[trigger] append_args_read(d0, d5, a)
}

/// The decoders of one reading of APPEND's arguments.
spec fn append_witness(d0: AsyncDecoder) -> (AsyncDecoder, AsyncDecoder, AsyncDecoder, AsyncDecoder, AsyncDecoder, bool, AppendArgs) {
    let (d5, a) = choose|d5: AsyncDecoder, a: AppendArgs| #[trigger] append_args_read(d0, d5, a);
    let (d1, d2, d3, d4, ns) = choose|d1: AsyncDecoder, d2: AsyncDecoder, d3: AsyncDecoder, d4: AsyncDecoder, ns: bool|
        {
            &&& astring_result(&d0, &d1, Ok(a.mailbox), ByteClass::AString, "expected astring"@)
            &&& sp_result(&d1, &d2, Ok(()))
            &&& append_flags_part(d2, d3, a.flags)
            &&& append_date_part(d3, d4, a.date)
            &&& literal_result(&d4, &d5, Ok((a.data, ns)))
        };
    (d1, d2, d3, d4, d5, ns, a)
}

proof fn lemma_append_witness(d0: AsyncDecoder)
    requires
        append_args_ok(d0),
    ensures
        ({
            let (d1, d2, d3, d4, d5, ns, a) = append_witness(d0);
            &&& astring_result(&d0, &d1, Ok(a.mailbox), ByteClass::AString, "expected astring"@)
            &&& sp_result(&d1, &d2, Ok(()))
            &&& append_flags_part(d2, d3, a.flags)
            &&& append_date_part(d3, d4, a.date)
            &&& literal_result(&d4, &d5, Ok((a.data, ns)))
        }),
{
}

/// Any reading of APPEND's arguments passes through the same decoders as
/// this one up to the date.
proof fn lemma_append_prefix(
    d0: AsyncDecoder,
    d1: AsyncDecoder,
    m: String,
    d2: AsyncDecoder,
    d3: AsyncDecoder,
    flags: Option<Vec<Flag>>,
)
    requires
        append_args_ok(d0),
        astring_result(&d0, &d1, Ok(m), ByteClass::AString, "expected astring"@),
        sp_result(&d1, &d2, Ok(())),
        append_flags_part(d2, d3, flags),
    ensures
        append_witness(d0).0 == d1,
        append_witness(d0).1 == d2,
        append_witness(d0).2 == d3,
{
    lemma_append_witness(d0);
    let (w1, w2, w3, w4, w5, wns, wa) = append_witness(d0);
    lemma_astring_det(&d0, &d1, Ok(m), &w1, Ok(wa.mailbox), ByteClass::AString, "expected astring"@);
    lemma_sp_det(&d1, &d2, Ok(()), &w2, Ok(()));
    lemma_flags_part_det(d2, d3, flags, w3, wa.flags);
}

/// When the flag list after `(` cannot be read, no reading of APPEND's
/// arguments exists.
proof fn lemma_append_no_flags(d0: AsyncDecoder, d1: AsyncDecoder, m: String, d2: AsyncDecoder, d2p: AsyncDecoder)
    requires
        d2.wf(),
        astring_result(&d0, &d1, Ok(m), ByteClass::AString, "expected astring"@),
        sp_result(&d1, &d2, Ok(())),
        d2.stream().len() > 0,
        d2.stream()[0] == 40,
        d2.peeked_to(&d2p),
        flag_list_spec(d2.stream()) is None,
    ensures
        !append_args_ok(d0),
{
    if append_args_ok(d0) {
        lemma_append_witness(d0);
        let (w1, w2, w3, w4, w5, wns, wa) = append_witness(d0);
        lemma_astring_det(&d0, &d1, Ok(m), &w1, Ok(wa.mailbox), ByteClass::AString, "expected astring"@);
        lemma_sp_det(&d1, &d2, Ok(()), &w2, Ok(()));
        let dp = choose|dp: AsyncDecoder|
            #[trigger] d2.peeked_to(&dp) && (wa.flags matches Some(fs) && append_flags_read(dp, w3, fs@));
        d2.lemma_advanced_det(&dp, &d2p, 0, true);
        d2.lemma_advanced_pub(&d2p, 0, true);
        assert(d2p.stream() =~= d2.stream());
        let fs = wa.flags->Some_0@;
        let (dq, e1) = choose|dq: AsyncDecoder, e1: AsyncDecoder|
            d2p.peeked_to(&dq) && flags_read(dq, e1, fs) && if d2p.stream()[0] == 40 {
                sp_accepted(e1, w3)
            } else {
                e1 == w3
            };
        d2p.lemma_advanced_pub(&dq, 0, true);
        assert(dq.stream() =~= d2p.stream());
    }
}

/// When the input ends after the SP before a date, no reading of APPEND's
/// arguments exists.
proof fn lemma_append_no_date_start(
    d0: AsyncDecoder,
    d1: AsyncDecoder,
    m: String,
    d2: AsyncDecoder,
    d3: AsyncDecoder,
    flags: Option<Vec<Flag>>,
    d3p: AsyncDecoder,
    da: AsyncDecoder,
)
    requires
        astring_result(&d0, &d1, Ok(m), ByteClass::AString, "expected astring"@),
        sp_result(&d1, &d2, Ok(())),
        append_flags_part(d2, d3, flags),
        d3.stream().len() > 0,
        d3.stream()[0] == 32,
        d3.peeked_to(&d3p),
        d3p.advanced(&da, 1, false),
        da.stream().len() == 0,
    ensures
        !append_args_ok(d0),
{
    if append_args_ok(d0) {
        lemma_append_prefix(d0, d1, m, d2, d3, flags);
        lemma_append_witness(d0);
        let (w1, w2, w3, w4, w5, wns, wa) = append_witness(d0);
        let (ep, ea, eb) = choose|dp: AsyncDecoder, da: AsyncDecoder, db: AsyncDecoder|
            #![trigger d3.peeked_to(&dp), da.peeked_to(&db)]
            {
                &&& d3.peeked_to(&dp)
                &&& dp.advanced(&da, 1, false)
                &&& da.stream().len() > 0
                &&& da.peeked_to(&db)
                &&& if da.stream()[0] == 34 {
                    dated(db, w4, wa.date)
                } else {
                    wa.date is None && db == w4
                }
            };
        d3.lemma_advanced_det(&ep, &d3p, 0, true);
        d3p.lemma_advanced_det(&ea, &da, 1, false);
    }
}

/// When the date, or the SP after it, cannot be read, no reading of
/// APPEND's arguments exists.
proof fn lemma_append_no_date(
    d0: AsyncDecoder,
    d1: AsyncDecoder,
    m: String,
    d2: AsyncDecoder,
    d3: AsyncDecoder,
    flags: Option<Vec<Flag>>,
    d3p: AsyncDecoder,
    da: AsyncDecoder,
    db: AsyncDecoder,
    ds1: AsyncDecoder,
    rs: ImapResult<String>,
    ds2: AsyncDecoder,
    rsp: ImapResult<()>,
)
    requires
        astring_result(&d0, &d1, Ok(m), ByteClass::AString, "expected astring"@),
        sp_result(&d1, &d2, Ok(())),
        append_flags_part(d2, d3, flags),
        d3.stream().len() > 0,
        d3.peeked_to(&d3p),
        d3.stream()[0] == 34 || (d3.stream()[0] == 32 && d3p.advanced(&da, 1, false) && da.peeked_to(&db)
            && da.stream().len() > 0 && da.stream()[0] == 34),
        string_result(&(if d3.stream()[0] == 34 { d3p } else { db }), &ds1, rs),
        rs is Ok ==> sp_result(&ds1, &ds2, rsp),
        rs is Err || rsp is Err,
    ensures
        !append_args_ok(d0),
{
    if append_args_ok(d0) {
        lemma_append_prefix(d0, d1, m, d2, d3, flags);
        lemma_append_witness(d0);
        let (w1, w2, w3, w4, w5, wns, wa) = append_witness(d0);
        lemma_dated_start(d3, d3p, da, db, w4, wa.date);
        let ds0 = if d3.stream()[0] == 34 { d3p } else { db };
        let (e1, t) = choose|d1: AsyncDecoder, t: String|
            #[trigger] string_result(&ds0, &d1, Ok(t)) && sp_result(&d1, &w4, Ok(())) && wa.date == Some(t);
        lemma_string_det(&ds0, &ds1, rs, &e1, Ok(t));
        if rs is Ok {
            lemma_sp_det(&ds1, &ds2, rsp, &w4, Ok(()));
        }
    }
}

/// When the literal cannot be read, no reading of APPEND's arguments
/// exists.
proof fn lemma_append_no_literal(
    d0: AsyncDecoder,
    d1: AsyncDecoder,
    m: String,
    d2: AsyncDecoder,
    d3: AsyncDecoder,
    flags: Option<Vec<Flag>>,
    d4: AsyncDecoder,
    date: Option<String>,
    d5: AsyncDecoder,
    rl: ImapResult<(Vec<u8>, bool)>,
)
    requires
        astring_result(&d0, &d1, Ok(m), ByteClass::AString, "expected astring"@),
        sp_result(&d1, &d2, Ok(())),
        append_flags_part(d2, d3, flags),
        append_date_part(d3, d4, date),
        literal_result(&d4, &d5, rl),
        rl is Err,
    ensures
        !append_args_ok(d0),
{
    if append_args_ok(d0) {
        lemma_append_prefix(d0, d1, m, d2, d3, flags);
        lemma_append_witness(d0);
        let (w1, w2, w3, w4, w5, wns, wa) = append_witness(d0);
        lemma_date_part_det(d3, d4, date, w4, wa.date);
        lemma_literal_det(&d4, &d5, rl, &w5, Ok((wa.data, wns)));
    }
}

/// Reads APPEND's arguments in an authenticated state: the mailbox, SP,
/// an optional flag list, an optional date string and the message literal.
#[verifier::spinoff_prover]
pub fn append_args(conn: &mut Conn) -> (r: ImapResult<AppendArgs>)
    requires
        old(conn).wf(),
    ensures
        final(conn).wf(),
        only_decoder_moved(*old(conn), *final(conn)),
        !(old(conn).state == ConnState::Authenticated || old(conn).state == ConnState::Selected) ==> r is Err
            && final(conn).decoder == old(conn).decoder,
        (old(conn).state == ConnState::Authenticated || old(conn).state == ConnState::Selected) ==> (r is Ok
            <==> append_args_ok(old(conn).decoder)),
        r matches Ok(a) ==> append_args_read(old(conn).decoder, final(conn).decoder, a),
        r is Ok ==> (r->Ok_0.flags matches Some(fs) ==> forall|i: int| 0 <= i < fs@.len() ==> is_flag_text(
            #[trigger] fs@[i].0@,
        )),
{
    conn.require_auth()?;
    let ghost d0 = conn.decoder;
    let rm = conn.decoder.read_astring();
    let ghost d1 = conn.decoder;
    let mailbox = match rm {
        Ok(x) => x,
        Err(e) => {
            proof {
                if append_args_ok(d0) {
                    lemma_append_witness(d0);
                    let (w1, w2, w3, w4, w5, wns, wa) = append_witness(d0);
                    lemma_astring_det(&d0, &d1, rm, &w1, Ok(wa.mailbox), ByteClass::AString, "expected astring"@);
                }
            }
            return Err(e);
        },
    };
    assert(astring_result(&d0, &d1, Ok(mailbox), ByteClass::AString, "expected astring"@));
    let rsp = conn.decoder.expect_sp();
    let ghost d2 = conn.decoder;
    if let Err(e) = rsp {
        proof {
            if append_args_ok(d0) {
                lemma_append_witness(d0);
                let (w1, w2, w3, w4, w5, wns, wa) = append_witness(d0);
                lemma_astring_det(&d0, &d1, Ok(mailbox), &w1, Ok(wa.mailbox), ByteClass::AString, "expected astring"@);
                lemma_sp_det(&d1, &d2, rsp, &w2, Ok(()));
            }
        }
        return Err(e);
    }
    let open_paren = match conn.decoder.peek_byte() {
        Ok(b) => b == 40u8,
        Err(_) => false,
    };
    let ghost d2p = conn.decoder;
    proof {
        if d2.stream().len() > 0 {
            d2.lemma_advanced_pub(&d2p, 0, true);
            assert(d2p.stream() =~= d2.stream());
        }
    }
    let flags = if open_paren {
        match read_flag_list(conn) {
            Ok(x) => Some(x),
            Err(e) => {
                proof {
                    lemma_append_no_flags(d0, d1, mailbox, d2, d2p);
                }
                return Err(e);
            },
        }
    } else {
        None
    };
    let ghost d3 = conn.decoder;
    proof {
        if d2.stream().len() > 0 && d2.stream()[0] == 40 {
            assert(d2.peeked_to(&d2p));
        }
        assert(append_flags_part(d2, d3, flags));
    }
    let mut date: Option<String> = None;
    let b = match conn.decoder.peek_byte() {
        Ok(b) => Some(b),
        Err(_) => None,
    };
    let ghost d3p = conn.decoder;
    let ghost mut da = d3p;
    let ghost mut db = d3p;
    proof {
        if d3.stream().len() > 0 {
            d3.lemma_advanced_pub(&d3p, 0, true);
            assert(d3p.stream() =~= d3.stream());
        }
    }
    let date_next = match b {
        Some(34u8) => true,
        Some(32u8) => {
            let _ = conn.decoder.read_byte();
            proof {
                da = conn.decoder;
                d3p.lemma_advanced_pub(&da, 1, false);
            }
            let c = match conn.decoder.peek_byte() {
                Ok(x) => x,
                Err(e) => {
                    proof {
                        lemma_append_no_date_start(d0, d1, mailbox, d2, d3, flags, d3p, da);
                    }
                    return Err(e);
                },
            };
            proof {
                db = conn.decoder;
                da.lemma_advanced_pub(&db, 0, true);
                assert(db.stream() =~= da.stream());
            }
            c == 34u8
        },
        _ => false,
    };
    let ghost ds0 = conn.decoder;
    let ghost mut ds1 = ds0;
    if date_next {
        let rstr = conn.decoder.read_string();
        proof {
            ds1 = conn.decoder;
        }
        let text = match rstr {
            Ok(x) => x,
            Err(e) => {
                proof {
                    lemma_append_no_date(d0, d1, mailbox, d2, d3, flags, d3p, da, db, ds1, rstr, ds1, Ok(()));
                }
                return Err(e);
            },
        };
        date = Some(text);
        let rsp2 = conn.decoder.expect_sp();
        let ghost ds2 = conn.decoder;
        if let Err(e) = rsp2 {
            proof {
                lemma_append_no_date(d0, d1, mailbox, d2, d3, flags, d3p, da, db, ds1, Ok(text), ds2, rsp2);
            }
            return Err(e);
        }
    }
    let ghost d4 = conn.decoder;
    proof {
        if date_next {
            assert(string_result(&ds0, &ds1, Ok(date->Some_0)));
            assert(dated(ds0, d4, date));
        }
        if d3.stream().len() > 0 && d3.stream()[0] == 34 {
            assert(d3.peeked_to(&d3p));
        } else if d3.stream().len() > 0 && d3.stream()[0] == 32 {
            assert(d3.peeked_to(&d3p));
            assert(da.peeked_to(&db));
        }
        assert(append_date_part(d3, d4, date));
    }
    let rl = conn.decoder.read_literal();
    let ghost d5 = conn.decoder;
    let (data, ns) = match rl {
        Ok(x) => x,
        Err(e) => {
            proof {
                lemma_append_no_literal(d0, d1, mailbox, d2, d3, flags, d4, date, d5, rl);
            }
            return Err(e);
        },
    };
    assert(literal_result(&d4, &conn.decoder, Ok((data, ns))));
    let r = AppendArgs { mailbox, flags, date, data };
    assert(astring_result(&d0, &d1, Ok(r.mailbox), ByteClass::AString, "expected astring"@));
    assert(sp_result(&d1, &d2, Ok(())));
    assert(append_flags_part(d2, d3, r.flags));
    assert(append_date_part(d3, d4, r.date));
    assert(literal_result(&d4, &conn.decoder, Ok((r.data, ns))));
    assert(append_args_read(d0, conn.decoder, r));
    Ok(r)
}

/// Where a date is read, the date part of any reading of APPEND's
/// arguments reads it from the same decoder.
proof fn lemma_dated_start(d3: AsyncDecoder, d3p: AsyncDecoder, da: AsyncDecoder, db: AsyncDecoder, w4: AsyncDecoder, date: Option<String>)
    requires
        d3.stream().len() > 0,
        d3.peeked_to(&d3p),
        append_date_part(d3, w4, date),
        d3.stream()[0] == 34 || (d3.stream()[0] == 32 && d3p.advanced(&da, 1, false) && da.peeked_to(&db)
            && da.stream().len() > 0 && da.stream()[0] == 34),
    ensures
        dated(if d3.stream()[0] == 34 { d3p } else { db }, w4, date),
{
    if d3.stream()[0] == 34 {
        let dp = choose|dp: AsyncDecoder| #[trigger] d3.peeked_to(&dp) && dated(dp, w4, date);
        d3.lemma_advanced_det(&dp, &d3p, 0, true);
    } else {
        let (ep, ea, eb) = choose|dp: AsyncDecoder, da: AsyncDecoder, db: AsyncDecoder|
            #![trigger d3.peeked_to(&dp), da.peeked_to(&db)]
            {
                &&& d3.peeked_to(&dp)
                &&& dp.advanced(&da, 1, false)
                &&& da.stream().len() > 0
                &&& da.peeked_to(&db)
                &&& if da.stream()[0] == 34 {
                    dated(db, w4, date)
                } else {
                    date is None && db == w4
                }
            };
        d3.lemma_advanced_det(&ep, &d3p, 0, true);
        d3p.lemma_advanced_det(&ea, &da, 1, false);
        da.lemma_advanced_det(&eb, &db, 0, true);
    }
}

/// `APPENDUID validity uid`.
pub open spec fn appenduid_bytes(validity: u32, uid: u32) -> Seq<u8> {
    lit("APPENDUID"@) + seq![32u8] + dec_digits(validity as nat) + seq![32u8] + dec_digits(uid as nat)
}

/// Ends APPEND: `tag OK [APPENDUID validity uid] APPEND completed` when the
/// mail store gave both numbers, else `tag OK APPEND completed`.
#[verifier::spinoff_prover]
#[verifier::rlimit(30)]
pub fn append_done(conn: &mut Conn, tag: &str, data: &AppendData)
    ensures
        final(conn).state == old(conn).state,
        final(conn).decoder == old(conn).decoder,
        final(conn).enabled == old(conn).enabled,
        match (data.uid_validity, data.uid) {
            (Some(v), Some(u)) => final(conn).encoder@ == old(conn).encoder@ + status_bytes(
                tag.spec_bytes(),
                encode_utf8("OK"@),
                Some(appenduid_bytes(v, u)),
                encode_utf8("APPEND completed"@),
            ),
            _ => final(conn).encoder@ == old(conn).encoder@ + completed_bytes(tag.spec_bytes(), "APPEND"@),
        },
{
    match (data.uid_validity, data.uid) {
        (Some(v), Some(u)) => {
            if tag.as_bytes().len() == 0 {
                conn.encoder.special(42u8);
            } else {
                conn.encoder.atom(tag);
            }
            conn.encoder.sp();
            conn.encoder.atom("OK");
            conn.encoder.sp();
            conn.encoder.special(91u8);
            conn.encoder.atom("APPENDUID");
            conn.encoder.sp();
            conn.encoder.number(v);
            conn.encoder.sp();
            conn.encoder.number(u);
            conn.encoder.special(93u8);
            conn.encoder.sp();
            conn.encoder.text("APPEND completed");
            conn.encoder.crlf();
            assert(conn.encoder@ =~= old(conn).encoder@ + status_bytes(
                tag.spec_bytes(),
                encode_utf8("OK"@),
                Some(appenduid_bytes(v, u)),
                encode_utf8("APPEND completed"@),
            ));
        },
        _ => {
            crate::cmd::select::write_completed(conn, tag, "APPEND");
        },
    }
}

} // verus!
