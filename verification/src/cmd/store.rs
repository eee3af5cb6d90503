//! STORE and UID STORE.
use vstd::prelude::*;
use vstd::string::StringSliceAdditionalSpecFns;
use crate::backend::StoredMessage;
use crate::codec::{
    crlf_result, flag_result, lemma_crlf_det, lemma_run_det, lemma_sp_det, lemma_span, run_result, sp_result, span,
    ByteClass, AsyncDecoder,
};
use crate::text::{latin1, string_views};
use crate::conn::Conn;
use crate::error::{ImapError, ImapResult, is_bad};
use crate::seqset::SeqSet;
use crate::store::{StoreFlags, StoreOp, store_op_of};
use crate::text::{chars_eq, chars_of, string_from_chars, upper_char_vec, upper_chars};
use crate::types::ConnState;
use crate::cmd::noop::only_decoder_moved;
use crate::cmd::copy::seq_set_read;
use crate::cmd::select::completed_bytes;
use crate::writer::message_flags_line;

verus! {

/// The STORE keywords that may precede `.SILENT`.
pub open spec fn is_store_base(u: Seq<char>) -> bool {
    u == "FLAGS"@ || u == "+FLAGS"@ || u == "-FLAGS"@
}

/// The STORE keywords that already carry `.SILENT` (an atom takes the `.`
/// and what follows it).
pub open spec fn is_store_silent(u: Seq<char>) -> bool {
    u == "FLAGS.SILENT"@ || u == "+FLAGS.SILENT"@ || u == "-FLAGS.SILENT"@
}

/// The upper-case STORE keywords, with or without `.SILENT`.
pub open spec fn is_store_keyword(u: Seq<char>) -> bool {
    is_store_base(u) || is_store_silent(u)
}

/// The full keyword: `u`, and `.SILENT` when the stream `s` after it
/// starts with `.`.
pub open spec fn keyword_with_suffix(u: Seq<char>, s: Seq<u8>) -> Seq<char> {
    if s.len() > 0 && s[0] == 46 {
        u + ".SILENT"@
    } else {
        u
    }
}

/// What follows a STORE keyword: `.`, an atom `SILENT` (any case) and SP;
/// or SP; or another byte, which is left unread.
pub open spec fn store_op_read(d0: AsyncDecoder, d1: AsyncDecoder) -> bool {
    let s = d0.stream();
    &&& s.len() > 0
    &&& if s[0] == 46 {
        exists|da: AsyncDecoder, db: AsyncDecoder, suffix: String|
            #[trigger] run_result(&da, &db, Ok(suffix), ByteClass::Atom, "expected atom"@) && d0.advanced_pub(&da, 1)
                && upper_chars(suffix@) == "SILENT"@ && sp_result(&db, &d1, Ok(()))
    } else if s[0] == 32 {
        d0.advanced_pub(&d1, 1)
    } else {
        d0.peeked_to(&d1)
    }
}

/// What follows a STORE keyword, read from one decoder: one outcome.
pub proof fn lemma_store_op_det(d0: AsyncDecoder, d1: AsyncDecoder, d2: AsyncDecoder)
    requires
        store_op_read(d0, d1),
        store_op_read(d0, d2),
    ensures
        d1 == d2,
{
    let s = d0.stream();
    if s[0] == 46 {
        let (da, db, x) = choose|da: AsyncDecoder, db: AsyncDecoder, suffix: String|
            #[trigger] run_result(&da, &db, Ok(suffix), ByteClass::Atom, "expected atom"@) && d0.advanced_pub(&da, 1)
                && upper_chars(suffix@) == "SILENT"@ && sp_result(&db, &d1, Ok(()));
        let (ea, eb, y) = choose|da: AsyncDecoder, db: AsyncDecoder, suffix: String|
            #[trigger] run_result(&da, &db, Ok(suffix), ByteClass::Atom, "expected atom"@) && d0.advanced_pub(&da, 1)
                && upper_chars(suffix@) == "SILENT"@ && sp_result(&db, &d2, Ok(()));
        d0.lemma_advanced_det(&da, &ea, 1, false);
        lemma_run_det(&da, &db, Ok(x), &eb, Ok(y), ByteClass::Atom, "expected atom"@);
        lemma_sp_det(&db, &d1, Ok(()), &d2, Ok(()));
    } else if s[0] == 32 {
        d0.lemma_advanced_det(&d1, &d2, 1, false);
    } else {
        d0.lemma_advanced_det(&d1, &d2, 0, true);
    }
}

/// An upper-case STORE keyword names an operation, and so does the keyword
/// with `.SILENT` after it.
proof fn lemma_base_ops(b: Seq<char>)
    requires
        is_store_base(b),
    ensures
        store_op_of(b) is Some,
        store_op_of(b + ".SILENT"@) is Some,
{
    reveal_strlit("FLAGS");
    reveal_strlit("+FLAGS");
    reveal_strlit("-FLAGS");
    reveal_strlit(".SILENT");
    reveal_strlit("FLAGS.SILENT");
    reveal_strlit("+FLAGS.SILENT");
    reveal_strlit("-FLAGS.SILENT");
    crate::text::lemma_upper_chars_idem(b);
    assert(upper_chars(b) =~= b) by {
        assert forall|i: int| 0 <= i < b.len() implies crate::text::upper_char(b[i]) == b[i] by {
        }
    }
    lemma_upper_silent(b);
    if b == "FLAGS"@ {
        assert(b + ".SILENT"@ =~= "FLAGS.SILENT"@);
    } else if b == "+FLAGS"@ {
        assert(b + ".SILENT"@ =~= "+FLAGS.SILENT"@);
    } else {
        assert(b + ".SILENT"@ =~= "-FLAGS.SILENT"@);
    }
}

/// A keyword that carries `.SILENT` gains no second one.
proof fn lemma_silent_ops(u: Seq<char>)
    requires
        is_store_silent(u),
    ensures
        store_op_of(u) is Some,
        store_op_of(u + ".SILENT"@) is None,
{
    reveal_strlit("FLAGS");
    reveal_strlit("+FLAGS");
    reveal_strlit("-FLAGS");
    reveal_strlit(".SILENT");
    reveal_strlit("FLAGS.SILENT");
    reveal_strlit("+FLAGS.SILENT");
    reveal_strlit("-FLAGS.SILENT");
    assert(upper_chars(u) =~= u) by {
        assert forall|i: int| 0 <= i < u.len() implies crate::text::upper_char(u[i]) == u[i] by {
        }
    }
    let w = u + ".SILENT"@;
    assert(w.len() >= 19);
    assert(upper_chars(w).len() == w.len());
}

/// Reads what follows a STORE keyword `name`: `.SILENT` and SP, SP, or
/// nothing. A keyword read with its `.SILENT` already (`+FLAGS.SILENT`)
/// is taken as it is. Gives the operation and its full keyword in upper
/// case.
pub fn parse_store_op(conn: &mut Conn, name: &str) -> (r: ImapResult<(StoreOp, String)>)
    requires
        old(conn).wf(),
    ensures
        final(conn).wf(),
        only_decoder_moved(*old(conn), *final(conn)),
        !is_store_keyword(upper_chars(name@)) ==> r is Err && is_bad(r->Err_0, None, "unknown STORE op: "@ + name@)
            && final(conn).decoder == old(conn).decoder,
        is_store_keyword(upper_chars(name@)) ==> (r is Ok <==> (exists|d1: AsyncDecoder| #[trigger] store_op_read(old(conn).decoder, d1))
            && store_op_of(keyword_with_suffix(upper_chars(name@), old(conn).decoder.stream())) is Some),
        r is Ok ==> store_op_read(old(conn).decoder, final(conn).decoder),
        r is Ok ==> is_store_keyword(upper_chars(name@)) && store_op_of(r->Ok_0.1@) == Some(r->Ok_0.0)
            && r->Ok_0.1@ == keyword_with_suffix(upper_chars(name@), old(conn).decoder.stream()),
{
    let nc = chars_of(name);
    let upper = upper_char_vec(&nc);
    let is_flags = chars_eq(&upper, &chars_of("FLAGS"));
    let is_add = chars_eq(&upper, &chars_of("+FLAGS"));
    let is_remove = chars_eq(&upper, &chars_of("-FLAGS"));
    let silent = chars_eq(&upper, &chars_of("FLAGS.SILENT")) || chars_eq(&upper, &chars_of("+FLAGS.SILENT"))
        || chars_eq(&upper, &chars_of("-FLAGS.SILENT"));
    if silent {
        proof {
            lemma_silent_ops(upper@);
            crate::text::lemma_upper_chars_idem(nc@);
        }
        let full = string_from_chars(&upper);
        let op = match StoreOp::parse(full.as_str()) {
            Ok(op) => op,
            Err(e) => {
                return Err(ImapError::Bad { code: None, text: e });
            },
        };
        let ghost d0 = conn.decoder;
        let b = conn.decoder.read_byte()?;
        let ghost da = conn.decoder;
        proof {
            d0.lemma_advanced_pub(&da, 1, false);
        }
        if b == 46u8 {
            return Err(ImapError::bad("expected SP after STORE keyword"));
        } else if b == 32u8 {
            assert(store_op_read(d0, conn.decoder));
            return Ok((op, full));
        } else {
            conn.decoder.unread_byte(b);
            proof {
                d0.lemma_read_then_unread(&da, &conn.decoder);
            }
            assert(conn.decoder.stream() =~= d0.stream());
            assert(store_op_read(d0, conn.decoder));
            return Ok((op, full));
        }
    }
    if !(is_flags || is_add || is_remove) {
        let mut text = String::from_str("unknown STORE op: ");
        text.append(name);
        return Err(ImapError::Bad { code: None, text });
    }
    let base = string_from_chars(&upper);
    proof {
        lemma_base_ops(upper@);
    }
    let ghost d0 = conn.decoder;
    let b = conn.decoder.read_byte()?;
    let ghost da = conn.decoder;
    proof {
        d0.lemma_advanced_pub(&da, 1, false);
    }
    if b == 46u8 {
        let ra = conn.decoder.read_atom();
        let ghost db = conn.decoder;
        let suffix = match ra {
            Ok(x) => x,
            Err(e) => {
                proof {
                    if exists|d1: AsyncDecoder| #[trigger] store_op_read(d0, d1) {
                        let w = choose|d1: AsyncDecoder| #[trigger] store_op_read(d0, d1);
                        let (ea, eb, y) = choose|da: AsyncDecoder, db: AsyncDecoder, suffix: String|
                            #[trigger] run_result(&da, &db, Ok(suffix), ByteClass::Atom, "expected atom"@)
                                && d0.advanced_pub(&da, 1) && upper_chars(suffix@) == "SILENT"@ && sp_result(&db, &w, Ok(()));
                        d0.lemma_advanced_det(&da, &ea, 1, false);
                        lemma_run_det(&da, &db, ra, &eb, Ok(y), ByteClass::Atom, "expected atom"@);
                    }
                }
                return Err(e);
            },
        };
        let sc = chars_of(suffix.as_str());
        let su = upper_char_vec(&sc);
        if chars_eq(&su, &chars_of("SILENT")) {
            let mut full = String::from_str(base.as_str());
            full.append(".SILENT");
            let op = match StoreOp::parse(full.as_str()) {
                Ok(op) => op,
                Err(e) => {
                    return Err(ImapError::Bad { code: None, text: e });
                },
            };
            let rs = conn.decoder.expect_sp();
            let ghost dc = conn.decoder;
            if let Err(e) = rs {
                proof {
                    if exists|d1: AsyncDecoder| #[trigger] store_op_read(d0, d1) {
                        let w = choose|d1: AsyncDecoder| #[trigger] store_op_read(d0, d1);
                        let (ea, eb, y) = choose|da: AsyncDecoder, db: AsyncDecoder, suffix: String|
                            #[trigger] run_result(&da, &db, Ok(suffix), ByteClass::Atom, "expected atom"@)
                                && d0.advanced_pub(&da, 1) && upper_chars(suffix@) == "SILENT"@ && sp_result(&db, &w, Ok(()));
                        d0.lemma_advanced_det(&da, &ea, 1, false);
                        lemma_run_det(&da, &db, Ok(suffix), &eb, Ok(y), ByteClass::Atom, "expected atom"@);
                        lemma_sp_det(&db, &dc, rs, &w, Ok(()));
                    }
                }
                return Err(e);
            }
            proof {
                crate::text::lemma_upper_chars_idem(nc@);
                lemma_upper_silent(upper@);
            }
            assert(run_result(&da, &db, Ok(suffix), ByteClass::Atom, "expected atom"@));
            assert(store_op_read(d0, conn.decoder));
            return Ok((op, full));
        }
        proof {
            if exists|d1: AsyncDecoder| #[trigger] store_op_read(d0, d1) {
                let w = choose|d1: AsyncDecoder| #[trigger] store_op_read(d0, d1);
                let (ea, eb, y) = choose|da: AsyncDecoder, db: AsyncDecoder, suffix: String|
                    #[trigger] run_result(&da, &db, Ok(suffix), ByteClass::Atom, "expected atom"@)
                        && d0.advanced_pub(&da, 1) && upper_chars(suffix@) == "SILENT"@ && sp_result(&db, &w, Ok(()));
                d0.lemma_advanced_det(&da, &ea, 1, false);
                lemma_run_det(&da, &db, Ok(suffix), &eb, Ok(y), ByteClass::Atom, "expected atom"@);
            }
        }
        return Err(ImapError::bad("expected SILENT after '.'"));
    } else if b == 32u8 {
        let op = match StoreOp::parse(base.as_str()) {
            Ok(op) => op,
            Err(e) => {
                return Err(ImapError::Bad { code: None, text: e });
            },
        };
        proof {
            crate::text::lemma_upper_chars_idem(nc@);
        }
        assert(store_op_read(d0, conn.decoder));
        return Ok((op, base));
    } else {
        conn.decoder.unread_byte(b);
        proof {
            d0.lemma_read_then_unread(&da, &conn.decoder);
        }
        assert(conn.decoder.stream() =~= d0.stream());
        let op = match StoreOp::parse(base.as_str()) {
            Ok(op) => op,
            Err(e) => {
                return Err(ImapError::Bad { code: None, text: e });
            },
        };
        proof {
            crate::text::lemma_upper_chars_idem(nc@);
        }
        assert(store_op_read(d0, conn.decoder));
        return Ok((op, base));
    }
}

/// Upper-casing leaves `.SILENT` after an upper-case keyword as it is.
proof fn lemma_upper_silent(u: Seq<char>)
    requires
        upper_chars(u) == u,
    ensures
        upper_chars(u + ".SILENT"@) == u + ".SILENT"@,
{
    reveal_strlit(".SILENT");
    assert(upper_chars(u + ".SILENT"@) =~= u + ".SILENT"@) by {
        assert forall|i: int| 0 <= i < u.len() + 7 implies crate::text::upper_char((u + ".SILENT"@)[i]) == (u + ".SILENT"@)[i] by {
            if i < u.len() {
                assert(upper_chars(u)[i] == u[i]);
            }
        }
    }
}

/// A flag as `read_flag` gives it: non-empty and not just `\`.
pub open spec fn is_flag_text(f: Seq<char>) -> bool {
    f.len() > 0 && f != seq!['\\']
}

/// The flag at the start of `t` as `read_flag` reads it (`\` and an atom,
/// or an atom) and its length; `None` when that read fails.
pub open spec fn flag_text(t: Seq<u8>) -> Option<(Seq<char>, nat)> {
    let bs = t.len() > 0 && t[0] == 92;
    let u = if bs {
        t.skip(1)
    } else {
        t
    };
    let n = span(u, ByteClass::Atom);
    let total: nat = if bs {
        n + 1
    } else {
        n
    };
    if t.len() == 0 || total >= t.len() || n == 0 {
        None
    } else {
        Some((latin1(t.take(total as int)), total))
    }
}

/// A flag list after its `(`: the flags (SP between them skipped) and how
/// many bytes the list takes up to and including its `)`; `None` when the
/// list does not end or a flag cannot be read.
pub open spec fn flag_items(t: Seq<u8>) -> Option<(Seq<Seq<char>>, nat)>
    decreases t.len(),
{
    if t.len() == 0 {
        None
    } else if t[0] == 41 {
        Some((Seq::empty(), 1nat))
    } else if t[0] == 32 {
        match flag_items(t.skip(1)) {
            Some((fs, k)) => Some((fs, k + 1)),
            None => None,
        }
    } else {
        match flag_text(t) {
            Some((f, k)) => if 0 < k < t.len() {
                match flag_items(t.skip(k as int)) {
                    Some((fs, m)) => Some((seq![f] + fs, m + k)),
                    None => None,
                }
            } else {
                None
            },
            None => None,
        }
    }
}

/// What `read_flag_list` reads from `s`: a parenthesized list, or else a
/// single flag; the flags, the bytes read, and whether the byte after them
/// was read and pushed back.
pub open spec fn flag_list_spec(s: Seq<u8>) -> Option<(Seq<Seq<char>>, nat, bool)> {
    if s.len() == 0 {
        None
    } else if s[0] != 40 {
        match flag_text(s) {
            Some((f, k)) => Some((seq![f], k, true)),
            None => None,
        }
    } else {
        match flag_items(s.skip(1)) {
            Some((fs, k)) => Some((fs, k + 1, false)),
            None => None,
        }
    }
}

/// What reading a flag list from `d0` to `d1` gives.
pub open spec fn flag_list_result(d0: AsyncDecoder, d1: AsyncDecoder, r: ImapResult<Vec<String>>) -> bool {
    match flag_list_spec(d0.stream()) {
        Some((fs, k, back)) => r is Ok && string_views(r->Ok_0@) == fs && d0.advanced(&d1, k, back),
        None => r is Err,
    }
}

/// A flag list read from one decoder: one outcome.
pub proof fn lemma_flag_list_det(
    d0: AsyncDecoder,
    d1: AsyncDecoder,
    r1: ImapResult<Vec<String>>,
    d2: AsyncDecoder,
    r2: ImapResult<Vec<String>>,
)
    requires
        flag_list_result(d0, d1, r1),
        flag_list_result(d0, d2, r2),
    ensures
        r1 is Ok <==> r2 is Ok,
        r1 is Ok ==> d1 == d2,
{
    match flag_list_spec(d0.stream()) {
        Some((fs, k, back)) => {
            d0.lemma_advanced_det(&d1, &d2, k, back);
        },
        None => {},
    }
}

/// `read_flag` on `d0` as `flag_text` describes it.
proof fn lemma_flag_text(d0: AsyncDecoder, d1: AsyncDecoder, r: ImapResult<String>)
    requires
        d0.wf(),
        flag_result(&d0, &d1, r),
    ensures
        match flag_text(d0.stream()) {
            Some((f, k)) => r is Ok && r->Ok_0@ == f && d0.advanced(&d1, k, true) && 0 < k < d0.stream().len(),
            None => r is Err,
        },
{
    let s = d0.stream();
    let bs = s.len() > 0 && s[0] == 92;
    let u = if bs {
        s.skip(1)
    } else {
        s
    };
    lemma_span(u, ByteClass::Atom);
}

/// Reads a flag list `(\Seen \Answered)` (SP between flags is skipped), or
/// a single flag.
pub fn read_flag_list(conn: &mut Conn) -> (r: ImapResult<Vec<String>>)
    requires
        old(conn).wf(),
    ensures
        final(conn).wf(),
        only_decoder_moved(*old(conn), *final(conn)),
        r is Ok ==> forall|i: int| 0 <= i < r->Ok_0@.len() ==> is_flag_text(#[trigger] r->Ok_0@[i]@),
        flag_list_result(old(conn).decoder, final(conn).decoder, r),
{
    let mut flags: Vec<String> = Vec::new();
    let ghost d0 = conn.decoder;
    let ghost s = d0.stream();
    let b = conn.decoder.peek_byte()?;
    let ghost dp0 = conn.decoder;
    proof {
        d0.lemma_advanced_pub(&dp0, 0, true);
        assert(dp0.stream() =~= s);
    }
    if b != 40u8 {
        let rf = read_one_flag(conn);
        let ghost d1 = conn.decoder;
        proof {
            lemma_flag_text(dp0, d1, rf);
        }
        let f = match rf {
            Ok(f) => f,
            Err(e) => {
                return Err(e);
            },
        };
        flags.push(f);
        proof {
            let k = flag_text(s)->Some_0.1;
            d0.lemma_chain_pub(&dp0, &d1, 0, true, k, true);
            assert(string_views(flags@) =~= seq![f@]);
        }
        return Ok(flags);
    }
    let _ = conn.decoder.read_byte();
    proof {
        d0.lemma_peek_then_read(&dp0, &conn.decoder);
        d0.lemma_advanced_pub(&conn.decoder, 1, false);
        match flag_items(s.skip(1)) {
            Some((fs, k)) => {
                assert(string_views(flags@) + fs =~= fs);
            },
            None => {},
        }
    }
    let ghost mut j: nat = 1;
    let ghost mut pb: bool = false;
    loop
        invariant_except_break
            conn.wf(),
            only_decoder_moved(*old(conn), *conn),
            d0 == old(conn).decoder,
            d0.wf(),
            s == d0.stream(),
            s.len() > 0 && s[0] == 40,
            1 <= j <= s.len(),
            d0.advanced(&conn.decoder, j, pb),
            conn.decoder.stream() == s.skip(j as int),
            forall|i: int| 0 <= i < flags@.len() ==> is_flag_text(#[trigger] flags@[i]@),
            flag_items(s.skip(1)) == match flag_items(s.skip(j as int)) {
                Some((fs, k)) => Some((string_views(flags@) + fs, (k + j - 1) as nat)),
                None => None,
            },
        ensures
            conn.wf(),
            only_decoder_moved(*old(conn), *conn),
            d0 == old(conn).decoder,
            s == d0.stream(),
            s.len() > 0 && s[0] == 40,
            j >= 1,
            forall|i: int| 0 <= i < flags@.len() ==> is_flag_text(#[trigger] flags@[i]@),
            flag_items(s.skip(1)) == Some((string_views(flags@), (j - 1) as nat)),
            d0.advanced(&conn.decoder, j, false),
        decreases conn.decoder.stream().len(),
    {
        let ghost dc = conn.decoder;
        let ghost t = s.skip(j as int);
        let pk = conn.decoder.peek_byte();
        let ghost d1 = conn.decoder;
        let b = match pk {
            Ok(x) => x,
            Err(e) => {
                assert(t.len() == 0);
                return Err(e);
            },
        };
        proof {
            d0.lemma_chain_pub(&dc, &d1, j, pb, 0, true);
            dc.lemma_advanced_pub(&d1, 0, true);
            assert(d1.stream() =~= t);
        }
        if b == 41u8 || b == 32u8 {
            let _ = conn.decoder.read_byte();
            proof {
                d0.lemma_chain_pub(&d1, &conn.decoder, j, true, 1, false);
                assert(t.skip(1) =~= s.skip(j + 1 as int));
            }
            if b == 41u8 {
                proof {
                    j = j + 1;
                    assert(string_views(flags@) + Seq::<Seq<char>>::empty() =~= string_views(flags@));
                }
                break;
            }
            proof {
                j = j + 1;
                pb = false;
            }
        } else {
            let rf = read_one_flag(conn);
            let ghost d2 = conn.decoder;
            proof {
                lemma_flag_text(d1, d2, rf);
            }
            let f = match rf {
                Ok(x) => x,
                Err(e) => {
                    return Err(e);
                },
            };
            let ghost before = string_views(flags@);
            flags.push(f);
            proof {
                let k = flag_text(t)->Some_0.1;
                d0.lemma_chain_pub(&d1, &d2, j, true, k, true);
                assert(t.skip(k as int) =~= s.skip((j + k) as int));
                assert(string_views(flags@) =~= before.push(f@));
                match flag_items(t.skip(k as int)) {
                    Some((fs, m)) => {
                        assert(before + (seq![f@] + fs) =~= string_views(flags@) + fs);
                    },
                    None => {},
                }
                j = j + k;
                pb = true;
            }
        }
    }
    Ok(flags)
}

/// Reads one flag.
fn read_one_flag(conn: &mut Conn) -> (r: ImapResult<String>)
    requires
        old(conn).wf(),
    ensures
        final(conn).wf(),
        only_decoder_moved(*old(conn), *final(conn)),
        r is Ok ==> is_flag_text(r->Ok_0@),
        flag_result(&old(conn).decoder, &final(conn).decoder, r),
{
    let ghost d0 = conn.decoder;
    let f = match conn.decoder.read_flag() {
        Ok(f) => f,
        Err(e) => {
            return Err(e);
        },
    };
    proof {
        let s = d0.stream();
        let bs = s.len() > 0 && s[0] == 92;
        let t = if bs { s.skip(1) } else { s };
        lemma_span(t, ByteClass::Atom);
        let n = span(t, ByteClass::Atom);
        let total: nat = if bs { n + 1 } else { n };
        d0.lemma_advanced_pub(&conn.decoder, total, true);
        assert(f@.len() == total);
        if f@ == seq!['\\'] {
            assert(total == 1);
            if !bs {
                assert(crate::codec::in_class(ByteClass::Atom, t[0]));
                assert(f@[0] == (s[0] as char));
            }
        }
    }
    Ok(f)
}

/// The operation named by a STORE keyword and what follows it: `.SILENT`
/// when the keyword carries it or the next byte is `.`.
pub open spec fn store_keyword(name: Seq<char>, d: AsyncDecoder, op: StoreOp) -> bool {
    &&& is_store_keyword(upper_chars(name))
    &&& store_op_of(keyword_with_suffix(upper_chars(name), d.stream())) == Some(op)
}

/// STORE's arguments read from `d0` to `d6`: the ranges `rs`, SP, the
/// keyword and what follows it, the flag list, and the end of the line.
pub open spec fn store_line_read(d0: AsyncDecoder, d6: AsyncDecoder, rs: Seq<(u32, u32)>, sf: StoreFlags) -> bool {
    exists|d1: AsyncDecoder, d2: AsyncDecoder, d3: AsyncDecoder, d4: AsyncDecoder, d5: AsyncDecoder, name: String|
        #![trigger sp_result(&d1, &d2, Ok(())), run_result(&d2, &d3, Ok(name), ByteClass::Atom, "expected atom"@), store_op_read(d3, d4), flag_list_result(d4, d5, Ok(sf.flags))]
        {
            &&& seq_set_read(d0, d1, rs)
            &&& sp_result(&d1, &d2, Ok(()))
            &&& run_result(&d2, &d3, Ok(name), ByteClass::Atom, "expected atom"@)
            &&& store_keyword(name@, d3, sf.op)
            &&& store_op_read(d3, d4)
            &&& flag_list_result(d4, d5, Ok(sf.flags))
            &&& crlf_result(&d5, &d6, Ok(()))
        }
}

/// The line at `d0` holds STORE's arguments.
pub open spec fn store_line_ok(d0: AsyncDecoder) -> bool {
    exists|d6: AsyncDecoder, rs: Seq<(u32, u32)>, sf: StoreFlags| #[trigger] store_line_read(d0, d6, rs, sf)
}

/// The decoders and keyword of one reading of STORE's arguments.
spec fn store_witness(d0: AsyncDecoder) -> (AsyncDecoder, AsyncDecoder, AsyncDecoder, AsyncDecoder, AsyncDecoder, AsyncDecoder, String, Seq<(u32, u32)>, StoreFlags) {
    let (d6, rs, sf) = choose|d6: AsyncDecoder, rs: Seq<(u32, u32)>, sf: StoreFlags| #[trigger] store_line_read(d0, d6, rs, sf);
    let (d1, d2, d3, d4, d5, name) = choose|d1: AsyncDecoder, d2: AsyncDecoder, d3: AsyncDecoder, d4: AsyncDecoder, d5: AsyncDecoder, name: String|
        {
            &&& seq_set_read(d0, d1, rs)
            &&& sp_result(&d1, &d2, Ok(()))
            &&& run_result(&d2, &d3, Ok(name), ByteClass::Atom, "expected atom"@)
            &&& store_keyword(name@, d3, sf.op)
            &&& store_op_read(d3, d4)
            &&& flag_list_result(d4, d5, Ok(sf.flags))
            &&& crlf_result(&d5, &d6, Ok(()))
        };
    (d1, d2, d3, d4, d5, d6, name, rs, sf)
}

/// One reading of STORE's arguments, when there is one.
proof fn lemma_store_witness(d0: AsyncDecoder)
    requires
        store_line_ok(d0),
    ensures
        ({
            let (d1, d2, d3, d4, d5, d6, name, rs, sf) = store_witness(d0);
            &&& seq_set_read(d0, d1, rs)
            &&& sp_result(&d1, &d2, Ok(()))
            &&& run_result(&d2, &d3, Ok(name), ByteClass::Atom, "expected atom"@)
            &&& store_keyword(name@, d3, sf.op)
            &&& store_op_read(d3, d4)
            &&& flag_list_result(d4, d5, Ok(sf.flags))
            &&& crlf_result(&d5, &d6, Ok(()))
        }),
{
}

/// Reads STORE's arguments: a sequence set, SP, the operation, the flag
/// list, and the end of the line; the Selected state is required.
pub fn store_args(conn: &mut Conn) -> (r: ImapResult<(SeqSet, StoreFlags)>)
    requires
        old(conn).wf(),
    ensures
        final(conn).wf(),
        only_decoder_moved(*old(conn), *final(conn)),
        old(conn).state != ConnState::Selected ==> r is Err && final(conn).decoder == old(conn).decoder,
        old(conn).state == ConnState::Selected ==> (r is Ok <==> store_line_ok(old(conn).decoder)),
        r is Ok ==> forall|i: int| 0 <= i < r->Ok_0.1.flags@.len() ==> is_flag_text(#[trigger] r->Ok_0.1.flags@[i]@),
        r matches Ok(v) ==> store_line_read(old(conn).decoder, final(conn).decoder, v.0@, v.1),
{
    conn.require_selected()?;
    let ghost d0 = conn.decoder;
    let ghost n = span(d0.stream(), ByteClass::NumSet);
    let set = crate::cmd::copy::read_seq_set(conn)?;
    let ghost d1 = conn.decoder;
    let rsp = conn.decoder.expect_sp();
    let ghost d2 = conn.decoder;
    if let Err(e) = rsp {
        proof {
            if store_line_ok(d0) {
                lemma_store_witness(d0);
                let (w1, w2, w3, w4, w5, w6, wn, wr, wf) = store_witness(d0);
                d0.lemma_advanced_det(&d1, &w1, n, true);
                lemma_sp_det(&d1, &d2, rsp, &w2, Ok(()));
            }
        }
        return Err(e);
    }
    let ra = conn.decoder.read_atom();
    let ghost d3 = conn.decoder;
    let op_name = match ra {
        Ok(x) => x,
        Err(e) => {
            proof {
                if store_line_ok(d0) {
                    lemma_store_witness(d0);
                    let (w1, w2, w3, w4, w5, w6, wn, wr, wf) = store_witness(d0);
                    d0.lemma_advanced_det(&d1, &w1, n, true);
                    lemma_sp_det(&d1, &d2, Ok(()), &w2, Ok(()));
                    lemma_run_det(&d2, &d3, ra, &w3, Ok(wn), ByteClass::Atom, "expected atom"@);
                }
            }
            return Err(e);
        },
    };
    let rop = parse_store_op(conn, op_name.as_str());
    let ghost d4 = conn.decoder;
    let (op, full) = match rop {
        Ok(x) => x,
        Err(e) => {
            proof {
                if store_line_ok(d0) {
                    lemma_store_witness(d0);
                    let (w1, w2, w3, w4, w5, w6, wn, wr, wf) = store_witness(d0);
                    d0.lemma_advanced_det(&d1, &w1, n, true);
                    lemma_sp_det(&d1, &d2, Ok(()), &w2, Ok(()));
                    lemma_run_det(&d2, &d3, Ok(op_name), &w3, Ok(wn), ByteClass::Atom, "expected atom"@);
                    assert(store_op_read(d3, w4));
                }
            }
            return Err(e);
        },
    };
    let rfl = read_flag_list(conn);
    let ghost d5 = conn.decoder;
    let flags = match rfl {
        Ok(x) => x,
        Err(e) => {
            proof {
                if store_line_ok(d0) {
                    lemma_store_witness(d0);
                    let (w1, w2, w3, w4, w5, w6, wn, wr, wf) = store_witness(d0);
                    d0.lemma_advanced_det(&d1, &w1, n, true);
                    lemma_sp_det(&d1, &d2, Ok(()), &w2, Ok(()));
                    lemma_run_det(&d2, &d3, Ok(op_name), &w3, Ok(wn), ByteClass::Atom, "expected atom"@);
                    lemma_store_op_det(d3, d4, w4);
                    lemma_flag_list_det(d4, d5, rfl, w5, Ok(wf.flags));
                }
            }
            return Err(e);
        },
    };
    let rc = conn.decoder.expect_crlf();
    let ghost d6 = conn.decoder;
    if let Err(e) = rc {
        proof {
            if store_line_ok(d0) {
                lemma_store_witness(d0);
                let (w1, w2, w3, w4, w5, w6, wn, wr, wf) = store_witness(d0);
                d0.lemma_advanced_det(&d1, &w1, n, true);
                lemma_sp_det(&d1, &d2, Ok(()), &w2, Ok(()));
                lemma_run_det(&d2, &d3, Ok(op_name), &w3, Ok(wn), ByteClass::Atom, "expected atom"@);
                lemma_store_op_det(d3, d4, w4);
                lemma_flag_list_det(d4, d5, Ok(flags), w5, Ok(wf.flags));
                lemma_crlf_det(&d5, &d6, rc, &w6, Ok(()));
            }
        }
        return Err(e);
    }
    let sf = StoreFlags { op, flags };
    assert(seq_set_read(d0, d1, set@));
    assert(sp_result(&d1, &d2, Ok(())));
    assert(run_result(&d2, &d3, Ok(op_name), ByteClass::Atom, "expected atom"@));
    assert(store_keyword(op_name@, d3, sf.op));
    assert(store_op_read(d3, d4));
    assert(flag_list_result(d4, d5, Ok(sf.flags)));
    assert(crlf_result(&d5, &d6, Ok(())));
    assert(store_line_read(d0, d6, set@, sf));
    Ok((set, sf))
}

/// The FETCH FLAGS lines for the stored messages, in order.
pub open spec fn stored_lines(ms: Seq<StoredMessage>) -> Seq<u8>
    decreases ms.len(),
{
    if ms.len() == 0 {
        Seq::empty()
    } else {
        stored_lines(ms.drop_last()) + message_flags_line(ms.last().seq, ms.last().flags@)
    }
}

/// Ends STORE: unless the operation is silent, `* seq FETCH (FLAGS (...))`
/// for each message; then `tag OK STORE completed`.
pub fn store_done(conn: &mut Conn, tag: &str, op: StoreOp, results: &[StoredMessage])
    ensures
        final(conn).encoder@ == old(conn).encoder@ + (if op == StoreOp::AddSilent || op == StoreOp::RemoveSilent || op == StoreOp::ReplaceSilent {
            Seq::<u8>::empty()
        } else {
            stored_lines(results@)
        }) + completed_bytes(tag.spec_bytes(), "STORE"@),
        final(conn).state == old(conn).state,
        final(conn).decoder == old(conn).decoder,
        final(conn).enabled == old(conn).enabled,
{
    if !op.is_silent() {
        let w = crate::writer::UpdateWriter::new();
        let mut i: usize = 0;
        while i < results.len()
            invariant
                i <= results.len(),
                conn.encoder@ == old(conn).encoder@ + stored_lines(results@.take(i as int)),
                conn.state == old(conn).state,
                conn.decoder == old(conn).decoder,
                conn.enabled == old(conn).enabled,
            decreases results.len() - i,
        {
            w.write_message_flags(&mut conn.encoder, results[i].seq, &results[i].flags);
            assert(results@.take(i + 1).drop_last() =~= results@.take(i as int));
            i += 1;
        }
        assert(results@.take(results@.len() as int) =~= results@);
    } else {
        assert(conn.encoder@ =~= old(conn).encoder@ + Seq::<u8>::empty());
    }
    crate::cmd::select::write_completed(conn, tag, "STORE");
}

} // verus!
