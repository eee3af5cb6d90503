//! FETCH and UID FETCH: the attributes asked for, the body sections they
//! name, and the FETCH responses.
use vstd::prelude::*;
use vstd::string::StringSliceAdditionalSpecFns;
use crate::backend::FetchedMessage;
use crate::codec::{
    crlf_result, find_byte, lemma_crlf_det, lemma_number_det, lemma_run_det, lemma_sp_det, number_result, run_result, sp_result, span, ByteClass, AsyncDecoder, quoted_bytes,
};
use crate::conn::Conn;
use crate::error::{ImapError, ImapResult};
use crate::fetch::{
    BodySection, FetchAtt, FetchOptions, SectionSpecifier, SpecifierView, field_list_spec, find_non_part, FetchAttView, fetch_att_spec, has_word_prefix, is_part_char, is_word, lemma_find_non_part_unique, parse_fetch_att, parse_field_list, specifier_view, sub_chars,
};
use crate::seqset::SeqSet;
use crate::text::{
    chars_of, dec_digits, find_char, find_char_from, has_prefix, latin1, lemma_find_char,
    parse_u32_chars, parse_u32_std, skip_leading, strip_leading, upper_char_vec, upper_chars,
};
use crate::types::ConnState;
use crate::cmd::noop::only_decoder_moved;
use crate::cmd::copy::seq_set_read;
use crate::cmd::select::completed_bytes;
use crate::writer::{data_literal_bytes, flags_bytes, join_sp, lit, section_bytes, write_flag_list_enc};

verus! {

// ── Body sections ───────────────────────────────────────────────────

/// The numbers of a part path `1.2.3`; pieces that do not parse as a
/// `u32` (empty ones too) are skipped.
pub open spec fn lenient_parts(s: Seq<char>) -> Seq<u32>
    decreases s.len(),
{
    let k = find_char(s, '.');
    let head: Seq<u32> = match parse_u32_std(s.take(k)) {
        Some(n) => seq![n],
        None => Seq::empty(),
    };
    if k < s.len() {
        proof {
            lemma_find_char(s, '.');
        }
        head + lenient_parts(s.skip(k + 1))
    } else {
        head
    }
}

/// A body section as FETCH reads it between `[` and `]`: the part path,
/// then a specifier matched in upper case (an unknown one is the whole
/// message).
pub open spec fn server_section(spec: Seq<char>) -> (Seq<u32>, SpecifierView) {
    if spec.len() == 0 {
        (Seq::empty(), SpecifierView::Whole)
    } else {
        let d = find_non_part(spec);
        if d < spec.len() {
            let u = upper_chars(strip_leading(spec.skip(d), '.'));
            (
                lenient_parts(spec.take(d)),
                if u == "HEADER"@ {
                    SpecifierView::Header
                } else if u == "TEXT"@ {
                    SpecifierView::Text
                } else if u == "MIME"@ {
                    SpecifierView::Mime
                } else if has_prefix(u, "HEADER.FIELDS "@) {
                    SpecifierView::HeaderFields(field_list_spec(u.skip(14)))
                } else if has_prefix(u, "HEADER.FIELDS.NOT "@) {
                    SpecifierView::HeaderFieldsNot(field_list_spec(u.skip(18)))
                } else {
                    SpecifierView::Whole
                },
            )
        } else {
            (lenient_parts(spec), SpecifierView::Whole)
        }
    }
}

fn lenient_part_nums(s: &[char]) -> (r: Vec<u32>)
    ensures
        r@ == lenient_parts(s@),
{
    let mut nums: Vec<u32> = Vec::new();
    let mut pos: usize = 0;
    assert(s@.skip(0) =~= s@);
    assert(nums@ + lenient_parts(s@) =~= lenient_parts(s@));
    loop
        invariant
            pos <= s.len(),
            lenient_parts(s@) == nums@ + lenient_parts(s@.skip(pos as int)),
        decreases s.len() - pos,
    {
        let ghost rest = s@.skip(pos as int);
        let k = find_char_from(s, '.', pos);
        assert(rest.take(k - pos) =~= s@.subrange(pos as int, k as int));
        let p = sub_chars(s, pos, k);
        let ghost before = nums@;
        match parse_u32_chars(&p) {
            Some(n) => nums.push(n),
            None => {},
        }
        let ghost h: Seq<u32> = match parse_u32_std(p@) {
            Some(n) => seq![n],
            None => Seq::empty(),
        };
        assert(nums@ =~= before + h);
        if k == s.len() {
            assert(lenient_parts(rest) == h);
            assert(before + h =~= nums@);
            return nums;
        }
        assert(rest.skip(k - pos + 1) =~= s@.skip(k + 1));
        assert(before + (h + lenient_parts(s@.skip(k + 1))) =~= nums@ + lenient_parts(s@.skip(k + 1)));
        pos = k + 1;
    }
}

/// The body section named by the characters between `[` and `]`.
pub fn body_section_from(spec: &[char]) -> (r: BodySection)
    ensures
        r.part@ == server_section(spec@).0,
        specifier_view(r.specifier) == server_section(spec@).1,
        !r.peek,
        r.partial is None,
{
    if spec.len() == 0 {
        let r = BodySection { part: Vec::new(), specifier: SectionSpecifier::Whole, peek: false, partial: None };
        assert(r.part@ =~= Seq::<u32>::empty());
        return r;
    }
    let mut d: usize = 0;
    while d < spec.len() && (('0' <= spec[d] && spec[d] <= '9') || spec[d] == '.')
        invariant
            d <= spec.len(),
            forall|j: int| 0 <= j < d ==> is_part_char(spec@[j]),
        decreases spec.len() - d,
    {
        d += 1;
    }
    proof {
        lemma_find_non_part_unique(spec@, d as int);
    }
    if d < spec.len() {
        let part_str = sub_chars(spec, 0, d);
        let spec_str = sub_chars(spec, d, spec.len());
        assert(part_str@ =~= spec@.take(d as int));
        assert(spec_str@ =~= spec@.skip(d as int));
        let parts = lenient_part_nums(&part_str);
        let e = skip_leading(&spec_str, '.');
        let stripped = sub_chars(&spec_str, e, spec_str.len());
        assert(stripped@ =~= spec_str@.skip(e as int));
        let u = upper_char_vec(&stripped);
        let specifier = if is_word(&u, "HEADER") {
            SectionSpecifier::Header
        } else if is_word(&u, "TEXT") {
            SectionSpecifier::Text
        } else if is_word(&u, "MIME") {
            SectionSpecifier::Mime
        } else if has_word_prefix(&u, "HEADER.FIELDS ") {
            proof {
                reveal_strlit("HEADER.FIELDS ");
            }
            SectionSpecifier::HeaderFields(parse_field_list(&u, 14))
        } else if has_word_prefix(&u, "HEADER.FIELDS.NOT ") {
            proof {
                reveal_strlit("HEADER.FIELDS.NOT ");
            }
            SectionSpecifier::HeaderFieldsNot(parse_field_list(&u, 18))
        } else {
            SectionSpecifier::Whole
        };
        BodySection { part: parts, specifier, peek: false, partial: None }
    } else {
        let parts = lenient_part_nums(spec);
        BodySection { part: parts, specifier: SectionSpecifier::Whole, peek: false, partial: None }
    }
}

/// Reads a body section after its `[`: the bytes up to `]` (consumed).
pub fn read_body_section(conn: &mut Conn) -> (r: ImapResult<BodySection>)
    requires
        old(conn).wf(),
    ensures
        final(conn).wf(),
        only_decoder_moved(*old(conn), *final(conn)),
        ({
            let s = old(conn).decoder.stream();
            let k = find_byte(s, 93);
            if k < s.len() {
                &&& r is Ok
                &&& r->Ok_0.part@ == server_section(latin1(s.take(k as int))).0
                &&& specifier_view(r->Ok_0.specifier) == server_section(latin1(s.take(k as int))).1
                &&& !r->Ok_0.peek && r->Ok_0.partial is None
                &&& old(conn).decoder.advanced(&final(conn).decoder, k + 1, false)
            } else {
                r is Err && old(conn).decoder.end_error(r->Err_0) && old(conn).decoder.exhausted(&final(conn).decoder)
            }
        }),
{
    let ghost d0 = conn.decoder;
    let ghost s = d0.stream();
    let mut spec: Vec<char> = Vec::new();
    proof {
        d0.lemma_advanced_zero_pub();
        assert(spec@ =~= latin1(s.take(0)));
    }
    loop
        invariant
            conn.wf(),
            only_decoder_moved(*old(conn), *conn),
            d0 == old(conn).decoder,
            d0.wf(),
            s == d0.stream(),
            spec@.len() <= s.len(),
            spec@ == latin1(s.take(spec@.len() as int)),
            forall|j: int| 0 <= j < spec@.len() ==> s[j] != 93,
            d0.advanced_pub(&conn.decoder, spec@.len() as nat),
        decreases s.len() - spec@.len(),
    {
        let ghost mid = conn.decoder;
        let ghost i = spec@.len();
        let b = match conn.decoder.read_byte() {
            Ok(b) => b,
            Err(e) => {
                proof {
                    d0.lemma_advance_then_end(&mid, &conn.decoder, i as nat);
                    crate::cmd::auth::lemma_find_byte_end_pub(s, 93);
                }
                return Err(e);
            },
        };
        proof {
            d0.lemma_advance_then_one(&mid, &conn.decoder, i as nat);
        }
        if b == 93u8 {
            proof {
                crate::cmd::auth::lemma_find_byte_at_pub(s, 93, i as int);
            }
            return Ok(body_section_from(&spec));
        }
        spec.push(b as char);
        assert(spec@ =~= latin1(s.take(spec@.len() as int)));
    }
}

/// What `read_partial_opt` reads: a peek only, unless the next byte is
/// `<`; then `<`, a number, `.`, a number and `>`.
pub open spec fn partial_read(d0: AsyncDecoder, d1: AsyncDecoder, p: Option<(u64, u64)>) -> bool {
    let s = d0.stream();
    &&& s.len() > 0
    &&& if s[0] != 60 {
        p is None && d0.peeked_to(&d1)
    } else {
        exists|d2: AsyncDecoder, d3: AsyncDecoder, d4: AsyncDecoder, d5: AsyncDecoder, off: u32, size: u32|
            #![trigger number_result(&d2, &d3, Ok(off)), number_result(&d4, &d5, Ok(size))]
            {
                &&& d0.advanced_pub(&d2, 1)
                &&& number_result(&d2, &d3, Ok(off))
                &&& d3.stream().len() > 0 && d3.stream()[0] == 46
                &&& d3.advanced_pub(&d4, 1)
                &&& number_result(&d4, &d5, Ok(size))
                &&& d5.stream().len() > 0 && d5.stream()[0] == 62
                &&& d5.advanced_pub(&d1, 1)
                &&& p == Some((off as u64, size as u64))
            }
    }
}

/// A partial range read from one decoder: one outcome.
pub proof fn lemma_partial_det(d0: AsyncDecoder, d1: AsyncDecoder, p1: Option<(u64, u64)>, e1: AsyncDecoder, q1: Option<(u64, u64)>)
    requires
        partial_read(d0, d1, p1),
        partial_read(d0, e1, q1),
    ensures
        d1 == e1,
{
    let s = d0.stream();
    if s[0] != 60 {
        d0.lemma_advanced_det(&d1, &e1, 0, true);
    } else {
        let (d2, d3, d4, d5, off, size) = choose|d2: AsyncDecoder, d3: AsyncDecoder, d4: AsyncDecoder, d5: AsyncDecoder, off: u32, size: u32|
            {
                &&& d0.advanced_pub(&d2, 1)
                &&& number_result(&d2, &d3, Ok(off))
                &&& d3.stream().len() > 0 && d3.stream()[0] == 46
                &&& d3.advanced_pub(&d4, 1)
                &&& number_result(&d4, &d5, Ok(size))
                &&& d5.stream().len() > 0 && d5.stream()[0] == 62
                &&& d5.advanced_pub(&d1, 1)
                &&& p1 == Some((off as u64, size as u64))
            };
        let (e2, e3, e4, e5, eoff, esize) = choose|d2: AsyncDecoder, d3: AsyncDecoder, d4: AsyncDecoder, d5: AsyncDecoder, off: u32, size: u32|
            {
                &&& d0.advanced_pub(&d2, 1)
                &&& number_result(&d2, &d3, Ok(off))
                &&& d3.stream().len() > 0 && d3.stream()[0] == 46
                &&& d3.advanced_pub(&d4, 1)
                &&& number_result(&d4, &d5, Ok(size))
                &&& d5.stream().len() > 0 && d5.stream()[0] == 62
                &&& d5.advanced_pub(&e1, 1)
                &&& q1 == Some((off as u64, size as u64))
            };
        d0.lemma_advanced_det(&d2, &e2, 1, false);
        lemma_number_det(&d2, &d3, Ok(off), &e3, Ok(eoff));
        d3.lemma_advanced_det(&d4, &e4, 1, false);
        lemma_number_det(&d4, &d5, Ok(size), &e5, Ok(esize));
        d5.lemma_advanced_det(&d1, &e1, 1, false);
    }
}

/// A partial range can be read from `d0`.
pub open spec fn partial_ok(d0: AsyncDecoder) -> bool {
    exists|d1: AsyncDecoder, p: Option<(u64, u64)>| #[trigger] partial_read(d0, d1, p)
}

/// The decoders of one reading of a partial range `<offset.size>`.
spec fn partial_witness(d0: AsyncDecoder) -> (AsyncDecoder, AsyncDecoder, AsyncDecoder, AsyncDecoder) {
    let (d1, p) = choose|d1: AsyncDecoder, p: Option<(u64, u64)>| #[trigger] partial_read(d0, d1, p);
    let (d2, d3, d4, d5, off, size) = choose|d2: AsyncDecoder, d3: AsyncDecoder, d4: AsyncDecoder, d5: AsyncDecoder, off: u32, size: u32|
        {
            &&& d0.advanced_pub(&d2, 1)
            &&& number_result(&d2, &d3, Ok(off))
            &&& d3.stream().len() > 0 && d3.stream()[0] == 46
            &&& d3.advanced_pub(&d4, 1)
            &&& number_result(&d4, &d5, Ok(size))
            &&& d5.stream().len() > 0 && d5.stream()[0] == 62
            &&& d5.advanced_pub(&d1, 1)
            &&& p == Some((off as u64, size as u64))
        };
    (d2, d3, d4, d5)
}

proof fn lemma_partial_witness(d0: AsyncDecoder)
    requires
        partial_ok(d0),
        d0.stream().len() > 0,
        d0.stream()[0] == 60,
    ensures
        ({
            let (d2, d3, d4, d5) = partial_witness(d0);
            &&& d0.advanced_pub(&d2, 1)
            &&& number_result(&d2, &d3, Ok(choose|x: u32| number_result(&d2, &d3, Ok(x))))
            &&& d3.stream().len() > 0 && d3.stream()[0] == 46
            &&& d3.advanced_pub(&d4, 1)
            &&& number_result(&d4, &d5, Ok(choose|x: u32| number_result(&d4, &d5, Ok(x))))
            &&& d5.stream().len() > 0 && d5.stream()[0] == 62
        }),
{
}

/// Reads an optional partial range `<offset.size>` after a section's `]`.
pub fn read_partial_opt(conn: &mut Conn) -> (r: ImapResult<Option<(u64, u64)>>)
    requires
        old(conn).wf(),
    ensures
        final(conn).wf(),
        only_decoder_moved(*old(conn), *final(conn)),
        r is Ok <==> partial_ok(old(conn).decoder),
        r matches Ok(p) ==> partial_read(old(conn).decoder, final(conn).decoder, p),
        old(conn).decoder.stream().len() > 0 && old(conn).decoder.stream()[0] != 60 ==> r == Ok::<Option<(u64, u64)>, ImapError>(None)
            && old(conn).decoder.advanced(&final(conn).decoder, 0, true),
        r matches Ok(Some(p)) ==> old(conn).decoder.stream().len() > 0 && old(conn).decoder.stream()[0] == 60,
        r is Ok ==> final(conn).decoder.stream().len() <= old(conn).decoder.stream().len(),
{
    let ghost d0 = conn.decoder;
    let b = conn.decoder.peek_byte()?;
    proof {
        d0.lemma_advanced_pub(&conn.decoder, 0, true);
    }
    if b != 60u8 {
        assert(partial_read(d0, conn.decoder, None));
        return Ok(None);
    }
    let ghost d1 = conn.decoder;
    let _ = conn.decoder.read_byte();
    proof {
        d1.lemma_advanced_pub(&conn.decoder, 1, false);
        d0.lemma_peek_then_read(&d1, &conn.decoder);
    }
    let ghost d2 = conn.decoder;
    let off = conn.decoder.read_number();
    let ghost d3 = conn.decoder;
    proof {
        if off is Ok {
            d2.lemma_number_shrinks(&conn.decoder, off);
        }
    }
    let offset = match off {
        Ok(x) => x as u64,
        Err(e) => {
            proof {
                if partial_ok(d0) {
                    lemma_partial_witness(d0);
                    let (w2, w3, w4, w5) = partial_witness(d0);
                    d0.lemma_advanced_det(&d2, &w2, 1, false);
                    lemma_number_det(&d2, &d3, off, &w3, Ok(choose|x: u32| number_result(&w2, &w3, Ok(x))));
                }
            }
            return Err(e);
        },
    };
    let rd = conn.decoder.read_byte();
    let ghost d3b = conn.decoder;
    if !(rd matches Ok(46u8)) {
        proof {
            if partial_ok(d0) {
                lemma_partial_witness(d0);
                let (w2, w3, w4, w5) = partial_witness(d0);
                d0.lemma_advanced_det(&d2, &w2, 1, false);
                lemma_number_det(&d2, &d3, off, &w3, Ok(choose|x: u32| number_result(&w2, &w3, Ok(x))));
            }
        }
        if let Err(e) = rd {
            return Err(e);
        }
        return Err(ImapError::bad("expected '.' in partial"));
    }
    proof {
        d3.lemma_advanced_pub(&conn.decoder, 1, false);
    }
    let ghost d4 = conn.decoder;
    let sz = conn.decoder.read_number();
    let ghost d5 = conn.decoder;
    proof {
        if sz is Ok {
            d4.lemma_number_shrinks(&conn.decoder, sz);
        }
    }
    let size = match sz {
        Ok(x) => x as u64,
        Err(e) => {
            proof {
                if partial_ok(d0) {
                    lemma_partial_witness(d0);
                    let (w2, w3, w4, w5) = partial_witness(d0);
                    d0.lemma_advanced_det(&d2, &w2, 1, false);
                    lemma_number_det(&d2, &d3, off, &w3, Ok(choose|x: u32| number_result(&w2, &w3, Ok(x))));
                    d3.lemma_advanced_det(&d4, &w4, 1, false);
                    lemma_number_det(&d4, &d5, sz, &w5, Ok(choose|x: u32| number_result(&w4, &w5, Ok(x))));
                }
            }
            return Err(e);
        },
    };
    let re = conn.decoder.read_byte();
    if !(re matches Ok(62u8)) {
        proof {
            if partial_ok(d0) {
                lemma_partial_witness(d0);
                let (w2, w3, w4, w5) = partial_witness(d0);
                d0.lemma_advanced_det(&d2, &w2, 1, false);
                lemma_number_det(&d2, &d3, off, &w3, Ok(choose|x: u32| number_result(&w2, &w3, Ok(x))));
                d3.lemma_advanced_det(&d4, &w4, 1, false);
                lemma_number_det(&d4, &d5, sz, &w5, Ok(choose|x: u32| number_result(&w4, &w5, Ok(x))));
            }
        }
        if let Err(e) = re {
            return Err(e);
        }
        return Err(ImapError::bad("expected '>' closing partial"));
    }
    proof {
        d5.lemma_advanced_pub(&conn.decoder, 1, false);
        let o = off->Ok_0;
        let z = sz->Ok_0;
        assert(number_result(&d2, &d3, Ok(o)) && number_result(&d4, &d5, Ok(z)));
        assert(partial_read(d0, conn.decoder, Some((offset, size))));
    }
    Ok(Some((offset, size)))
}


// ── Attributes ──────────────────────────────────────────────────────

/// `o1` is `o0` with the given items turned on and the same body sections.
pub open spec fn turned_on(
    o0: FetchOptions,
    o1: FetchOptions,
    flags: bool,
    uid: bool,
    internal_date: bool,
    rfc822_size: bool,
    envelope: bool,
    body_structure: bool,
    extended: bool,
) -> bool {
    &&& o1.flags == (o0.flags || flags)
    &&& o1.uid == (o0.uid || uid)
    &&& o1.internal_date == (o0.internal_date || internal_date)
    &&& o1.rfc822_size == (o0.rfc822_size || rfc822_size)
    &&& o1.envelope == (o0.envelope || envelope)
    &&& o1.body_structure == (o0.body_structure || body_structure)
    &&& o1.body_structure_extended == (o0.body_structure_extended || extended)
    &&& o1.body_sections@ == o0.body_sections@
}

/// `o1` is `o0` with one more body section, the other items the same.
pub open spec fn section_added(o0: FetchOptions, o1: FetchOptions, peek: bool) -> bool {
    &&& o1.flags == o0.flags && o1.uid == o0.uid && o1.internal_date == o0.internal_date
    &&& o1.rfc822_size == o0.rfc822_size && o1.envelope == o0.envelope
    &&& o1.body_structure == o0.body_structure && o1.body_structure_extended == o0.body_structure_extended
    &&& o1.body_sections@.len() == o0.body_sections@.len() + 1
    &&& o1.body_sections@.take(o0.body_sections@.len() as int) == o0.body_sections@
    &&& o1.body_sections@.last().peek == peek
}

/// What a FETCH attribute does to the options. Macros and simple items
/// turn items on; RFC822, RFC822.HEADER and RFC822.TEXT add a whole-message
/// section; BODY with `[` adds a section, BODY alone asks for the
/// non-extended body structure; BODY.PEEK with `[` adds a peeking section;
/// anything else changes nothing.
pub open spec fn att_applied(u: Seq<char>, next_is_bracket: bool, o0: FetchOptions, o1: FetchOptions) -> bool {
    if u == "ALL"@ {
        turned_on(o0, o1, true, false, true, true, true, false, false)
    } else if u == "FAST"@ {
        turned_on(o0, o1, true, false, true, true, false, false, false)
    } else if u == "FULL"@ {
        turned_on(o0, o1, true, false, true, true, true, true, false)
    } else if u == "FLAGS"@ {
        turned_on(o0, o1, true, false, false, false, false, false, false)
    } else if u == "UID"@ {
        turned_on(o0, o1, false, true, false, false, false, false, false)
    } else if u == "INTERNALDATE"@ {
        turned_on(o0, o1, false, false, true, false, false, false, false)
    } else if u == "RFC822.SIZE"@ {
        turned_on(o0, o1, false, false, false, true, false, false, false)
    } else if u == "ENVELOPE"@ {
        turned_on(o0, o1, false, false, false, false, true, false, false)
    } else if u == "BODYSTRUCTURE"@ {
        turned_on(o0, o1, false, false, false, false, false, true, true)
    } else if u == "RFC822"@ || u == "RFC822.HEADER"@ || u == "RFC822.TEXT"@ {
        section_added(o0, o1, false) && o1.body_sections@.last().part@.len() == 0
            && o1.body_sections@.last().specifier is Whole && o1.body_sections@.last().partial is None
    } else if u == "BODY"@ {
        if next_is_bracket {
            section_added(o0, o1, false)
        } else {
            turned_on(o0, o1, false, false, false, false, false, true, false)
        }
    } else if u == "BODY.PEEK"@ {
        if next_is_bracket {
            section_added(o0, o1, true)
        } else {
            turned_on(o0, o1, false, false, false, false, false, false, false)
        }
    } else {
        turned_on(o0, o1, false, false, false, false, false, false, false)
    }
}

/// The attribute names whose section follows a `[`.
pub open spec fn section_att(u: Seq<char>) -> bool {
    u == "BODY"@ || u == "BODY.PEEK"@
}

/// What applying a FETCH attribute reads and does: for BODY or BODY.PEEK
/// followed by `[`, the `[` and the section, which is added; for BODY or
/// BODY.PEEK otherwise, a look at the next byte; for any other name,
/// nothing is read.
pub open spec fn att_read(u: Seq<char>, d0: AsyncDecoder, d1: AsyncDecoder, o0: FetchOptions, o1: FetchOptions) -> bool {
    let bracket = d0.stream().len() > 0 && d0.stream()[0] == 91;
    &&& att_applied(u, bracket, o0, o1)
    &&& if section_att(u) {
        &&& d0.stream().len() > 0
        &&& bracket ==> exists|db: AsyncDecoder|
            #[trigger] d0.advanced_pub(&db, 1) && section_read(db, d1, u == "BODY.PEEK"@, o1.body_sections@.last())
        &&& !bracket ==> d0.peeked_to(&d1)
    } else {
        d1 == d0
    }
}

/// A FETCH attribute can be applied at `d0`.
pub open spec fn att_ok(u: Seq<char>, d0: AsyncDecoder) -> bool {
    exists|d1: AsyncDecoder, o0: FetchOptions, o1: FetchOptions| #[trigger] att_read(u, d0, d1, o0, o1)
}

/// Applying an attribute at one decoder leaves the same decoder, whatever
/// the options.
pub proof fn lemma_att_det(
    u: Seq<char>,
    d0: AsyncDecoder,
    d1: AsyncDecoder,
    o0: FetchOptions,
    o1: FetchOptions,
    e1: AsyncDecoder,
    p0: FetchOptions,
    p1: FetchOptions,
)
    requires
        att_read(u, d0, d1, o0, o1),
        att_read(u, d0, e1, p0, p1),
    ensures
        d1 == e1,
{
    if section_att(u) {
        if d0.stream()[0] == 91 {
            let db = choose|db: AsyncDecoder|
                #[trigger] d0.advanced_pub(&db, 1) && section_read(db, d1, u == "BODY.PEEK"@, o1.body_sections@.last());
            let eb = choose|db: AsyncDecoder|
                #[trigger] d0.advanced_pub(&db, 1) && section_read(db, e1, u == "BODY.PEEK"@, p1.body_sections@.last());
            d0.lemma_advanced_det(&db, &eb, 1, false);
            lemma_section_det(db, d1, u == "BODY.PEEK"@, o1.body_sections@.last(), e1, u == "BODY.PEEK"@, p1.body_sections@.last());
        } else {
            d0.lemma_advanced_det(&d1, &e1, 0, true);
        }
    }
}

/// The attribute names other than BODY and BODY.PEEK are not followed by a
/// section, and BODY is not BODY.PEEK.
proof fn lemma_fetch_names()
    ensures
        !section_att("ALL"@) && !section_att("FAST"@) && !section_att("FULL"@) && !section_att("FLAGS"@) && !section_att("UID"@) && !section_att("INTERNALDATE"@) && !section_att("RFC822.SIZE"@) && !section_att("ENVELOPE"@) && !section_att("BODYSTRUCTURE"@) && !section_att("RFC822"@) && !section_att("RFC822.HEADER"@) && !section_att("RFC822.TEXT"@),
        "BODY"@ != "BODY.PEEK"@,
{
    reveal_strlit("ALL");
    reveal_strlit("FAST");
    reveal_strlit("FULL");
    reveal_strlit("FLAGS");
    reveal_strlit("UID");
    reveal_strlit("INTERNALDATE");
    reveal_strlit("RFC822.SIZE");
    reveal_strlit("ENVELOPE");
    reveal_strlit("BODYSTRUCTURE");
    reveal_strlit("RFC822");
    reveal_strlit("RFC822.HEADER");
    reveal_strlit("RFC822.TEXT");
    reveal_strlit("BODY");
    reveal_strlit("BODY.PEEK");
    assert("ALL"@.len() == 3);
    assert("FAST"@.len() == 4);
    assert("FULL"@.len() == 4);
    assert("FLAGS"@.len() == 5);
    assert("UID"@.len() == 3);
    assert("INTERNALDATE"@.len() == 12);
    assert("RFC822.SIZE"@.len() == 11);
    assert("ENVELOPE"@.len() == 8);
    assert("BODYSTRUCTURE"@.len() == 13);
    assert("RFC822"@.len() == 6);
    assert("RFC822.HEADER"@.len() == 13);
    assert("RFC822.TEXT"@.len() == 11);
    assert("BODY"@.len() == 4);
    assert("BODY.PEEK"@.len() == 9);
    assert("FAST"@[0] != "BODY"@[0]);
    assert("FULL"@[0] != "BODY"@[0]);
}

fn word_is(u: &[char], w: &str) -> (r: bool)
    ensures
        r == (u@ == w@),
{
    is_word(u, w)
}

/// A body section read after its `[`: the bytes up to `]` name the part
/// path and specifier, and an optional partial range follows.
pub open spec fn section_read(d0: AsyncDecoder, d1: AsyncDecoder, peek: bool, bs: BodySection) -> bool {
    let s = d0.stream();
    let k = find_byte(s, 93);
    &&& k < s.len()
    &&& bs.part@ == server_section(latin1(s.take(k as int))).0
    &&& specifier_view(bs.specifier) == server_section(latin1(s.take(k as int))).1
    &&& bs.peek == peek
    &&& exists|dm: AsyncDecoder| #[trigger] partial_read(dm, d1, bs.partial) && d0.advanced_pub(&dm, k + 1)
}

/// A body section can be read from `d0` (after its `[`).
pub open spec fn section_ok(d0: AsyncDecoder) -> bool {
    exists|d1: AsyncDecoder, peek: bool, bs: BodySection| #[trigger] section_read(d0, d1, peek, bs)
}

/// A body section read from one decoder: one outcome.
pub proof fn lemma_section_det(d0: AsyncDecoder, d1: AsyncDecoder, p1: bool, b1: BodySection, e1: AsyncDecoder, p2: bool, b2: BodySection)
    requires
        section_read(d0, d1, p1, b1),
        section_read(d0, e1, p2, b2),
    ensures
        d1 == e1,
{
    let k = find_byte(d0.stream(), 93);
    let dm = choose|dm: AsyncDecoder| #[trigger] partial_read(dm, d1, b1.partial) && d0.advanced_pub(&dm, k + 1);
    let em = choose|dm: AsyncDecoder| #[trigger] partial_read(dm, e1, b2.partial) && d0.advanced_pub(&dm, k + 1);
    d0.lemma_advanced_det(&dm, &em, k + 1, false);
    lemma_partial_det(dm, d1, b1.partial, e1, b2.partial);
}

/// Reads `[section]` and an optional partial range after BODY or
/// BODY.PEEK, and adds the section.
fn add_section(conn: &mut Conn, options: &mut FetchOptions, peek: bool) -> (r: ImapResult<()>)
    requires
        old(conn).wf(),
    ensures
        final(conn).wf(),
        only_decoder_moved(*old(conn), *final(conn)),
        r is Ok <==> section_ok(old(conn).decoder),
        r is Ok ==> section_added(*old(options), *final(options), peek),
        r is Ok ==> section_read(old(conn).decoder, final(conn).decoder, peek, final(options).body_sections@.last()),
        r is Err ==> *final(options) == *old(options),
        r is Ok ==> final(conn).decoder.stream().len() < old(conn).decoder.stream().len(),
{
    let ghost d0 = conn.decoder;
    let ghost k = find_byte(d0.stream(), 93);
    proof {
        crate::cmd::auth::lemma_find_byte_le_pub(d0.stream(), 93);
    }
    let mut bs = read_body_section(conn)?;
    let ghost dm = conn.decoder;
    proof {
        d0.lemma_advanced_pub(&conn.decoder, k + 1, false);
    }
    bs.peek = peek;
    bs.partial = match read_partial_opt(conn) {
        Ok(p) => p,
        Err(e) => {
            proof {
                if section_ok(d0) {
                    let (w1, wp, wb) = choose|d1: AsyncDecoder, peek: bool, bs: BodySection| #[trigger] section_read(d0, d1, peek, bs);
                    let wm = choose|dm: AsyncDecoder| #[trigger] partial_read(dm, w1, wb.partial) && d0.advanced_pub(&dm, k + 1);
                    d0.lemma_advanced_det(&dm, &wm, k + 1, false);
                    assert(partial_read(dm, w1, wb.partial));
                }
            }
            return Err(e);
        },
    };
    assert(partial_read(dm, conn.decoder, bs.partial));
    options.body_sections.push(bs);
    assert(options.body_sections@.take(old(options).body_sections@.len() as int) =~= old(options).body_sections@);
    assert(section_read(d0, conn.decoder, peek, bs));
    Ok(())
}

/// Applies one FETCH attribute name to the options, reading a section that
/// follows BODY or BODY.PEEK.
#[verifier::rlimit(100)]
pub fn apply_fetch_att(name: &str, conn: &mut Conn, options: &mut FetchOptions) -> (r: ImapResult<()>)
    requires
        old(conn).wf(),
    ensures
        final(conn).wf(),
        only_decoder_moved(*old(conn), *final(conn)),
        r is Ok <==> att_ok(upper_chars(name@), old(conn).decoder),
        r is Ok ==> att_read(upper_chars(name@), old(conn).decoder, final(conn).decoder, *old(options), *final(options)),
        r is Ok ==> final(conn).decoder.stream().len() <= old(conn).decoder.stream().len(),
{
    let nc = chars_of(name);
    let u = upper_char_vec(&nc);
    let ghost nb = old(conn).decoder.stream().len() > 0 && old(conn).decoder.stream()[0] == 91;
    proof {
        lemma_fetch_names();
    }
    if word_is(&u, "ALL") {
        options.flags = true;
        options.internal_date = true;
        options.rfc822_size = true;
        options.envelope = true;
    } else if word_is(&u, "FAST") {
        options.flags = true;
        options.internal_date = true;
        options.rfc822_size = true;
    } else if word_is(&u, "FULL") {
        options.flags = true;
        options.internal_date = true;
        options.rfc822_size = true;
        options.envelope = true;
        options.body_structure = true;
    } else if word_is(&u, "FLAGS") {
        options.flags = true;
    } else if word_is(&u, "UID") {
        options.uid = true;
    } else if word_is(&u, "INTERNALDATE") {
        options.internal_date = true;
    } else if word_is(&u, "RFC822.SIZE") {
        options.rfc822_size = true;
    } else if word_is(&u, "ENVELOPE") {
        options.envelope = true;
    } else if word_is(&u, "BODYSTRUCTURE") {
        options.body_structure = true;
        options.body_structure_extended = true;
    } else if word_is(&u, "RFC822") || word_is(&u, "RFC822.HEADER") || word_is(&u, "RFC822.TEXT") {
        let bs = BodySection { part: Vec::new(), specifier: SectionSpecifier::Whole, peek: false, partial: None };
        assert(bs.part@ =~= Seq::<u32>::empty());
        options.body_sections.push(bs);
        assert(options.body_sections@.take(old(options).body_sections@.len() as int) =~= old(options).body_sections@);
    } else if word_is(&u, "BODY") {
        let ghost d0 = conn.decoder;
        let b = conn.decoder.read_byte()?;
        let ghost d1 = conn.decoder;
        proof {
            d0.lemma_advanced_pub(&d1, 1, false);
        }
        if b == 91u8 {
            match add_section(conn, options, false) {
                Ok(()) => {},
                Err(e) => {
                    proof {
                        if att_ok(u@, d0) {
                            let (w1, wo0, wo1) = choose|d1: AsyncDecoder, o0: FetchOptions, o1: FetchOptions|
                                #[trigger] att_read(u@, d0, d1, o0, o1);
                            let wb = choose|db: AsyncDecoder|
                                #[trigger] d0.advanced_pub(&db, 1) && section_read(db, w1, u@ == "BODY.PEEK"@, wo1.body_sections@.last());
                            d0.lemma_advanced_det(&d1, &wb, 1, false);
                            assert(section_read(d1, w1, u@ == "BODY.PEEK"@, wo1.body_sections@.last()));
                        }
                    }
                    return Err(e);
                },
            }
            assert(d0.advanced_pub(&d1, 1));
        } else {
            conn.decoder.unread_byte(b);
            proof {
                d0.lemma_read_then_unread(&d1, &conn.decoder);
            }
            assert(conn.decoder.stream() =~= d0.stream());
            options.body_structure = true;
        }
    } else if word_is(&u, "BODY.PEEK") {
        let ghost d0 = conn.decoder;
        let b = conn.decoder.read_byte()?;
        let ghost d1 = conn.decoder;
        proof {
            d0.lemma_advanced_pub(&d1, 1, false);
        }
        if b == 91u8 {
            match add_section(conn, options, true) {
                Ok(()) => {},
                Err(e) => {
                    proof {
                        if att_ok(u@, d0) {
                            let (w1, wo0, wo1) = choose|d1: AsyncDecoder, o0: FetchOptions, o1: FetchOptions|
                                #[trigger] att_read(u@, d0, d1, o0, o1);
                            let wb = choose|db: AsyncDecoder|
                                #[trigger] d0.advanced_pub(&db, 1) && section_read(db, w1, u@ == "BODY.PEEK"@, wo1.body_sections@.last());
                            d0.lemma_advanced_det(&d1, &wb, 1, false);
                            assert(section_read(d1, w1, u@ == "BODY.PEEK"@, wo1.body_sections@.last()));
                        }
                    }
                    return Err(e);
                },
            }
            assert(d0.advanced_pub(&d1, 1));
        } else {
            conn.decoder.unread_byte(b);
            proof {
                d0.lemma_read_then_unread(&d1, &conn.decoder);
            }
            assert(conn.decoder.stream() =~= d0.stream());
        }
    } else {
        let att = parse_fetch_att(name, "");
        proof {
            assert(upper_chars(name@) == u@);
            assert(!(fetch_att_spec(name@, ""@) matches Ok(FetchAttView::BodySection(_, _, _, _))));
        }
        match att {
            Ok(FetchAtt::BodySection(bs)) => {
                options.body_sections.push(bs);
            },
            _ => {},
        }
    }
    proof {
        assert(att_read(u@, old(conn).decoder, conn.decoder, *old(options), *options));
    }
    Ok(())
}


/// One attribute of a parenthesized FETCH list: its name, read up to
/// `named`; its effect, read up to `applied`, giving `opts`; and the byte
/// after it, read up to `sep`.
pub struct FetchStep {
    pub named: AsyncDecoder,
    pub name: String,
    pub applied: AsyncDecoder,
    pub opts: FetchOptions,
    pub sep: AsyncDecoder,
}

/// An attribute read from `d` with options `o`: its name, its effect and
/// the byte after it.
pub open spec fn att_step(d: AsyncDecoder, o: FetchOptions, st: FetchStep) -> bool {
    &&& run_result(&d, &st.named, Ok(st.name), ByteClass::FetchName, "expected fetch attribute"@)
    &&& att_read(upper_chars(st.name@), st.named, st.applied, o, st.opts)
    &&& st.applied.stream().len() > 0
    &&& st.applied.advanced_pub(&st.sep, 1)
}

/// Attributes of a list, each followed by SP, read from `d` with options
/// `o`, ending at `dc` with options `oc`.
pub open spec fn list_prefix(d: AsyncDecoder, o: FetchOptions, t: Seq<FetchStep>, dc: AsyncDecoder, oc: FetchOptions) -> bool
    decreases t.len(),
{
    if t.len() == 0 {
        dc == d && oc == o
    } else {
        &&& att_step(d, o, t[0])
        &&& t[0].applied.stream()[0] == 32
        &&& list_prefix(t[0].sep, t[0].opts, t.skip(1), dc, oc)
    }
}

/// A parenthesized list read after its `(` from `d` with options `o`: the
/// attributes up to one followed by something other than SP; at `)` that
/// byte is read, any other is left unread.
pub open spec fn list_read(d: AsyncDecoder, o: FetchOptions, d1: AsyncDecoder, o1: FetchOptions) -> bool {
    exists|t: Seq<FetchStep>, dc: AsyncDecoder, oc: FetchOptions, last: FetchStep|
        #![trigger list_prefix(d, o, t, dc, oc), att_step(dc, oc, last)]
        {
            &&& list_prefix(d, o, t, dc, oc)
            &&& att_step(dc, oc, last)
            &&& last.applied.stream()[0] != 32
            &&& o1 == last.opts
            &&& if last.applied.stream()[0] == 41 {
                d1 == last.sep
            } else {
                last.applied.peeked_to(&d1)
            }
        }
}

/// Options that ask for nothing.
pub open spec fn blank_options(o: FetchOptions) -> bool {
    &&& !o.uid && !o.flags && !o.internal_date && !o.rfc822_size && !o.envelope
    &&& !o.body_structure && !o.mod_seq && !o.body_structure_extended
    &&& o.body_sections@.len() == 0 && o.binary_sections@.len() == 0 && o.binary_section_sizes@.len() == 0
    &&& o.changed_since is None
}

/// One attribute read from `du` with options `o0`.
pub open spec fn single_att_read(du: AsyncDecoder, d1: AsyncDecoder, o0: FetchOptions, o1: FetchOptions) -> bool {
    exists|dn: AsyncDecoder, name: String|
        #[trigger] run_result(&du, &dn, Ok(name), ByteClass::FetchName, "expected fetch attribute"@)
            && att_read(upper_chars(name@), dn, d1, o0, o1)
}

/// The attributes read from `d0`, starting from options `o0`: after a `(`
/// (read up to `dl`) a list, or else (with the first byte left unread in
/// `dl`) one attribute.
pub open spec fn atts_from(d0: AsyncDecoder, dl: AsyncDecoder, o0: FetchOptions, d1: AsyncDecoder, o1: FetchOptions) -> bool {
    let s = d0.stream();
    &&& s.len() > 0
    &&& if s[0] == 40 {
        d0.advanced_pub(&dl, 1) && list_read(dl, o0, d1, o1)
    } else {
        d0.peeked_to(&dl) && single_att_read(dl, d1, o0, o1)
    }
}

/// What `parse_fetch_args` reads and gives, from options that ask for
/// nothing.
pub open spec fn fetch_atts_read(d0: AsyncDecoder, d1: AsyncDecoder, o1: FetchOptions) -> bool {
    exists|o0: FetchOptions, dl: AsyncDecoder| #[trigger] atts_from(d0, dl, o0, d1, o1) && blank_options(o0)
}

proof fn lemma_list_prefix_push(
    d: AsyncDecoder,
    o: FetchOptions,
    t: Seq<FetchStep>,
    dc: AsyncDecoder,
    oc: FetchOptions,
    st: FetchStep,
)
    requires
        list_prefix(d, o, t, dc, oc),
        att_step(dc, oc, st),
        st.applied.stream()[0] == 32,
    ensures
        list_prefix(d, o, t.push(st), st.sep, st.opts),
    decreases t.len(),
{
    if t.len() == 0 {
        assert(t.push(st).skip(1) =~= Seq::<FetchStep>::empty());
        assert(t.push(st)[0] == st);
        assert(list_prefix(st.sep, st.opts, Seq::<FetchStep>::empty(), st.sep, st.opts));
    } else {
        lemma_list_prefix_push(t[0].sep, t[0].opts, t.skip(1), dc, oc, st);
        assert(t.push(st).skip(1) =~= t.skip(1).push(st));
        assert(t.push(st)[0] == t[0]);
    }
}

/// The attributes FETCH asks for can be read from `d0`.
pub open spec fn fetch_atts_ok(d0: AsyncDecoder) -> bool {
    exists|d1: AsyncDecoder, o1: FetchOptions| #[trigger] fetch_atts_read(d0, d1, o1)
}

/// An attribute read from one decoder passes through the same decoders,
/// whatever the options.
proof fn lemma_att_step_det(d: AsyncDecoder, o: FetchOptions, st: FetchStep, p: FetchOptions, su: FetchStep)
    requires
        att_step(d, o, st),
        att_step(d, p, su),
    ensures
        st.named == su.named,
        st.name@ == su.name@,
        st.applied == su.applied,
        st.sep == su.sep,
{
    lemma_run_det(&d, &st.named, Ok(st.name), &su.named, Ok(su.name), ByteClass::FetchName, "expected fetch attribute"@);
    lemma_att_det(upper_chars(st.name@), st.named, st.applied, o, st.opts, su.applied, p, su.opts);
    st.applied.lemma_advanced_det(&st.sep, &su.sep, 1, false);
}

/// Two readings of a list's attributes from one decoder agree on the
/// shorter one: the longer goes on from where the shorter ends.
proof fn lemma_list_prefix_agree(
    d: AsyncDecoder,
    o: FetchOptions,
    t1: Seq<FetchStep>,
    c1: AsyncDecoder,
    x1: FetchOptions,
    p: FetchOptions,
    t2: Seq<FetchStep>,
    c2: AsyncDecoder,
    x2: FetchOptions,
) -> (y: FetchOptions)
    requires
        list_prefix(d, o, t1, c1, x1),
        list_prefix(d, p, t2, c2, x2),
        t1.len() <= t2.len(),
    ensures
        list_prefix(c1, y, t2.skip(t1.len() as int), c2, x2),
    decreases t1.len(),
{
    if t1.len() == 0 {
        assert(t2.skip(0) =~= t2);
        p
    } else {
        lemma_att_step_det(d, o, t1[0], p, t2[0]);
        let y = lemma_list_prefix_agree(t1[0].sep, t1[0].opts, t1.skip(1), c1, x1, t2[0].opts, t2.skip(1), c2, x2);
        assert(t2.skip(1).skip(t1.len() - 1) =~= t2.skip(t1.len() as int));
        y
    }
}

/// Where a list is being read at `dc` after the steps `t`, any reading of
/// the whole list reads an attribute from `dc`.
proof fn lemma_list_step_at(
    dl: AsyncDecoder,
    o0: FetchOptions,
    t: Seq<FetchStep>,
    dc: AsyncDecoder,
    oc: FetchOptions,
    d1: AsyncDecoder,
    p0: FetchOptions,
    o1: FetchOptions,
) -> (r: (FetchOptions, FetchStep))
    requires
        list_prefix(dl, o0, t, dc, oc),
        list_read(dl, p0, d1, o1),
    ensures
        att_step(dc, r.0, r.1),
{
    let (tw, dcw, ocw, last) = choose|t: Seq<FetchStep>, dc: AsyncDecoder, oc: FetchOptions, last: FetchStep|
        {
            &&& list_prefix(dl, p0, t, dc, oc)
            &&& att_step(dc, oc, last)
            &&& last.applied.stream()[0] != 32
            &&& o1 == last.opts
            &&& if last.applied.stream()[0] == 41 {
                d1 == last.sep
            } else {
                last.applied.peeked_to(&d1)
            }
        };
    if tw.len() >= t.len() {
        let y = lemma_list_prefix_agree(dl, o0, t, dc, oc, p0, tw, dcw, ocw);
        if tw.len() == t.len() {
            assert(tw.skip(t.len() as int) =~= Seq::<FetchStep>::empty());
            (ocw, last)
        } else {
            (y, tw.skip(t.len() as int)[0])
        }
    } else {
        let y = lemma_list_prefix_agree(dl, p0, tw, dcw, ocw, o0, t, dc, oc);
        let rest = t.skip(tw.len() as int);
        lemma_att_step_det(dcw, y, rest[0], ocw, last);
        (ocw, last)
    }
}

/// Reads FETCH's attributes: one attribute, or a parenthesized list of
/// attributes separated by SP (the list also ends at any byte other than
/// SP after an attribute, which is left unread).
pub fn parse_fetch_args(conn: &mut Conn) -> (r: ImapResult<FetchOptions>)
    requires
        old(conn).wf(),
    ensures
        final(conn).wf(),
        only_decoder_moved(*old(conn), *final(conn)),
        r is Ok <==> fetch_atts_ok(old(conn).decoder),
        r matches Ok(o) ==> fetch_atts_read(old(conn).decoder, final(conn).decoder, o),
{
    let mut options = FetchOptions::new();
    let ghost o0 = options;
    let ghost d0 = conn.decoder;
    let b = conn.decoder.read_byte()?;
    let ghost dl = conn.decoder;
    proof {
        d0.lemma_advanced_pub(&dl, 1, false);
    }
    if b == 40u8 {
        let ghost mut t: Seq<FetchStep> = Seq::empty();
        loop
            invariant_except_break
                list_prefix(dl, o0, t, conn.decoder, options),
            invariant
                conn.wf(),
                only_decoder_moved(*old(conn), *conn),
                d0 == old(conn).decoder,
                d0.stream().len() > 0 && d0.stream()[0] == 40,
                d0.advanced_pub(&dl, 1),
            ensures
                conn.wf(),
                only_decoder_moved(*old(conn), *conn),
                d0 == old(conn).decoder,
                d0.advanced_pub(&dl, 1),
                list_read(dl, o0, conn.decoder, options),
            decreases conn.decoder.stream().len(),
        {
            let ghost dc = conn.decoder;
            let ghost oc = options;
            let ra = conn.decoder.read_fetch_att_name();
            let ghost dn = conn.decoder;
            let atom = match ra {
                Ok(a) => a,
                Err(e) => {
                    proof {
                        if fetch_atts_ok(d0) {
                            let (w1, wo1) = choose|d1: AsyncDecoder, o1: FetchOptions| #[trigger] fetch_atts_read(d0, d1, o1);
                            let (wo0, wl) = choose|o0: FetchOptions, dl: AsyncDecoder| #[trigger] atts_from(d0, dl, o0, w1, wo1) && blank_options(o0);
                            d0.lemma_advanced_det(&dl, &wl, 1, false);
                            let (y, st) = lemma_list_step_at(dl, o0, t, dc, oc, w1, wo0, wo1);
                            lemma_run_det(&dc, &dn, ra, &st.named, Ok(st.name), ByteClass::FetchName, "expected fetch attribute"@);
                        }
                    }
                    return Err(e);
                },
            };
            proof {
                let s = dc.stream();
                crate::codec::lemma_span(s, ByteClass::FetchName);
                dc.lemma_advanced_pub(&conn.decoder, span(s, ByteClass::FetchName), true);
            }
            match apply_fetch_att(atom.as_str(), conn, &mut options) {
                Ok(()) => {},
                Err(e) => {
                    proof {
                        if fetch_atts_ok(d0) {
                            let (w1, wo1) = choose|d1: AsyncDecoder, o1: FetchOptions| #[trigger] fetch_atts_read(d0, d1, o1);
                            let (wo0, wl) = choose|o0: FetchOptions, dl: AsyncDecoder| #[trigger] atts_from(d0, dl, o0, w1, wo1) && blank_options(o0);
                            d0.lemma_advanced_det(&dl, &wl, 1, false);
                            let (y, st) = lemma_list_step_at(dl, o0, t, dc, oc, w1, wo0, wo1);
                            lemma_run_det(&dc, &dn, Ok(atom), &st.named, Ok(st.name), ByteClass::FetchName, "expected fetch attribute"@);
                            assert(att_read(upper_chars(atom@), dn, st.applied, y, st.opts));
                        }
                    }
                    return Err(e);
                },
            }
            let ghost d2 = conn.decoder;
            let rb = conn.decoder.read_byte();
            let b = match rb {
                Ok(x) => x,
                Err(e) => {
                    proof {
                        if fetch_atts_ok(d0) {
                            let (w1, wo1) = choose|d1: AsyncDecoder, o1: FetchOptions| #[trigger] fetch_atts_read(d0, d1, o1);
                            let (wo0, wl) = choose|o0: FetchOptions, dl: AsyncDecoder| #[trigger] atts_from(d0, dl, o0, w1, wo1) && blank_options(o0);
                            d0.lemma_advanced_det(&dl, &wl, 1, false);
                            let (y, st) = lemma_list_step_at(dl, o0, t, dc, oc, w1, wo0, wo1);
                            lemma_run_det(&dc, &dn, Ok(atom), &st.named, Ok(st.name), ByteClass::FetchName, "expected fetch attribute"@);
                            lemma_att_det(upper_chars(atom@), dn, d2, oc, options, st.applied, y, st.opts);
                        }
                    }
                    return Err(e);
                },
            };
            proof {
                d2.lemma_advanced_pub(&conn.decoder, 1, false);
            }
            let ghost st = FetchStep { named: dn, name: atom, applied: d2, opts: options, sep: conn.decoder };
            assert(att_step(dc, oc, st));
            if b == 41u8 {
                assert(list_prefix(dl, o0, t, dc, oc));
                break;
            }
            if b != 32u8 {
                let ghost sep = conn.decoder;
                conn.decoder.unread_byte(b);
                proof {
                    d2.lemma_read_then_unread(&sep, &conn.decoder);
                }
                assert(list_prefix(dl, o0, t, dc, oc));
                break;
            }
            proof {
                lemma_list_prefix_push(dl, o0, t, dc, oc, st);
                t = t.push(st);
            }
        }
        assert(atts_from(d0, dl, o0, conn.decoder, options));
    } else {
        conn.decoder.unread_byte(b);
        let ghost du = conn.decoder;
        proof {
            d0.lemma_read_then_unread(&dl, &du);
        }
        assert(du.stream() =~= d0.stream());
        let ra = conn.decoder.read_fetch_att_name();
        let ghost dn = conn.decoder;
        let atom = match ra {
            Ok(a) => a,
            Err(e) => {
                proof {
                    if fetch_atts_ok(d0) {
                        let (w1, wo1) = choose|d1: AsyncDecoder, o1: FetchOptions| #[trigger] fetch_atts_read(d0, d1, o1);
                        let (wo0, wl) = choose|o0: FetchOptions, dl: AsyncDecoder| #[trigger] atts_from(d0, dl, o0, w1, wo1) && blank_options(o0);
                        d0.lemma_advanced_det(&du, &wl, 0, true);
                        let (wn, wname) = choose|dn: AsyncDecoder, name: String|
                            #[trigger] run_result(&du, &dn, Ok(name), ByteClass::FetchName, "expected fetch attribute"@)
                                && att_read(upper_chars(name@), dn, w1, wo0, wo1);
                        lemma_run_det(&du, &dn, ra, &wn, Ok(wname), ByteClass::FetchName, "expected fetch attribute"@);
                    }
                }
                return Err(e);
            },
        };
        match apply_fetch_att(atom.as_str(), conn, &mut options) {
            Ok(()) => {},
            Err(e) => {
                proof {
                    if fetch_atts_ok(d0) {
                        let (w1, wo1) = choose|d1: AsyncDecoder, o1: FetchOptions| #[trigger] fetch_atts_read(d0, d1, o1);
                        let (wo0, wl) = choose|o0: FetchOptions, dl: AsyncDecoder| #[trigger] atts_from(d0, dl, o0, w1, wo1) && blank_options(o0);
                        d0.lemma_advanced_det(&du, &wl, 0, true);
                        let (wn, wname) = choose|dn: AsyncDecoder, name: String|
                            #[trigger] run_result(&du, &dn, Ok(name), ByteClass::FetchName, "expected fetch attribute"@)
                                && att_read(upper_chars(name@), dn, w1, wo0, wo1);
                        lemma_run_det(&du, &dn, Ok(atom), &wn, Ok(wname), ByteClass::FetchName, "expected fetch attribute"@);
                        assert(att_read(upper_chars(atom@), dn, w1, wo0, wo1));
                    }
                }
                return Err(e);
            },
        }
        assert(run_result(&du, &dn, Ok(atom), ByteClass::FetchName, "expected fetch attribute"@));
        assert(atts_from(d0, du, o0, conn.decoder, options));
    }
    assert(blank_options(o0));
    assert(fetch_atts_read(d0, conn.decoder, options));
    Ok(options)
}

/// A list read from one decoder ends at one decoder, whatever the options.
proof fn lemma_list_read_det(dl: AsyncDecoder, o0: FetchOptions, d1: AsyncDecoder, o1: FetchOptions, p0: FetchOptions, e1: AsyncDecoder, p1: FetchOptions)
    requires
        list_read(dl, o0, d1, o1),
        list_read(dl, p0, e1, p1),
    ensures
        d1 == e1,
{
    let (t, dc, oc, last) = choose|t: Seq<FetchStep>, dc: AsyncDecoder, oc: FetchOptions, last: FetchStep|
        {
            &&& list_prefix(dl, o0, t, dc, oc)
            &&& att_step(dc, oc, last)
            &&& last.applied.stream()[0] != 32
            &&& o1 == last.opts
            &&& if last.applied.stream()[0] == 41 {
                d1 == last.sep
            } else {
                last.applied.peeked_to(&d1)
            }
        };
    let (u, ec, pc, elast) = choose|t: Seq<FetchStep>, dc: AsyncDecoder, oc: FetchOptions, last: FetchStep|
        {
            &&& list_prefix(dl, p0, t, dc, oc)
            &&& att_step(dc, oc, last)
            &&& last.applied.stream()[0] != 32
            &&& p1 == last.opts
            &&& if last.applied.stream()[0] == 41 {
                e1 == last.sep
            } else {
                last.applied.peeked_to(&e1)
            }
        };
    if t.len() < u.len() {
        let y = lemma_list_prefix_agree(dl, o0, t, dc, oc, p0, u, ec, pc);
        lemma_att_step_det(dc, oc, last, y, u.skip(t.len() as int)[0]);
    } else if u.len() < t.len() {
        let y = lemma_list_prefix_agree(dl, p0, u, ec, pc, o0, t, dc, oc);
        lemma_att_step_det(ec, pc, elast, y, t.skip(u.len() as int)[0]);
    } else {
        let y = lemma_list_prefix_agree(dl, o0, t, dc, oc, p0, u, ec, pc);
        assert(u.skip(t.len() as int) =~= Seq::<FetchStep>::empty());
        lemma_att_step_det(dc, oc, last, pc, elast);
        if last.applied.stream()[0] != 41 {
            last.applied.lemma_advanced_det(&d1, &e1, 0, true);
        }
    }
}

/// FETCH's attributes read from one decoder end at one decoder.
proof fn lemma_fetch_atts_det(d0: AsyncDecoder, d1: AsyncDecoder, o1: FetchOptions, e1: AsyncDecoder, p1: FetchOptions)
    requires
        fetch_atts_read(d0, d1, o1),
        fetch_atts_read(d0, e1, p1),
    ensures
        d1 == e1,
{
    let (o0, dl) = choose|o0: FetchOptions, dl: AsyncDecoder| #[trigger] atts_from(d0, dl, o0, d1, o1) && blank_options(o0);
    let (p0, el) = choose|o0: FetchOptions, dl: AsyncDecoder| #[trigger] atts_from(d0, dl, o0, e1, p1) && blank_options(o0);
    if d0.stream()[0] == 40 {
        d0.lemma_advanced_det(&dl, &el, 1, false);
        lemma_list_read_det(dl, o0, d1, o1, p0, e1, p1);
    } else {
        d0.lemma_advanced_det(&dl, &el, 0, true);
        let (dn, name) = choose|dn: AsyncDecoder, name: String|
            #[trigger] run_result(&dl, &dn, Ok(name), ByteClass::FetchName, "expected fetch attribute"@)
                && att_read(upper_chars(name@), dn, d1, o0, o1);
        let (en, ename) = choose|dn: AsyncDecoder, name: String|
            #[trigger] run_result(&dl, &dn, Ok(name), ByteClass::FetchName, "expected fetch attribute"@)
                && att_read(upper_chars(name@), dn, e1, p0, p1);
        lemma_run_det(&dl, &dn, Ok(name), &en, Ok(ename), ByteClass::FetchName, "expected fetch attribute"@);
        lemma_att_det(upper_chars(name@), dn, d1, o0, o1, e1, p0, p1);
    }
}

/// FETCH's arguments read from `d0` to `d4`: the ranges `rs`, SP, the
/// attributes, and the end of the line.
pub open spec fn fetch_line_read(d0: AsyncDecoder, d4: AsyncDecoder, rs: Seq<(u32, u32)>, o: FetchOptions) -> bool {
    exists|d1: AsyncDecoder, d2: AsyncDecoder, d3: AsyncDecoder|
        #![trigger sp_result(&d1, &d2, Ok(())), fetch_atts_read(d2, d3, o)]
        {
            &&& seq_set_read(d0, d1, rs)
            &&& sp_result(&d1, &d2, Ok(()))
            &&& fetch_atts_read(d2, d3, o)
            &&& crlf_result(&d3, &d4, Ok(()))
        }
}

/// The line at `d0` holds FETCH's arguments.
pub open spec fn fetch_line_ok(d0: AsyncDecoder) -> bool {
    exists|d4: AsyncDecoder, rs: Seq<(u32, u32)>, o: FetchOptions| #[trigger] fetch_line_read(d0, d4, rs, o)
}

/// The decoders of one reading of FETCH's arguments.
spec fn fetch_witness(d0: AsyncDecoder) -> (AsyncDecoder, AsyncDecoder, AsyncDecoder, AsyncDecoder, FetchOptions) {
    let (d4, rs, o) = choose|d4: AsyncDecoder, rs: Seq<(u32, u32)>, o: FetchOptions| #[trigger] fetch_line_read(d0, d4, rs, o);
    let (d1, d2, d3) = choose|d1: AsyncDecoder, d2: AsyncDecoder, d3: AsyncDecoder|
        {
            &&& seq_set_read(d0, d1, rs)
            &&& sp_result(&d1, &d2, Ok(()))
            &&& fetch_atts_read(d2, d3, o)
            &&& crlf_result(&d3, &d4, Ok(()))
        };
    (d1, d2, d3, d4, o)
}

proof fn lemma_fetch_witness(d0: AsyncDecoder)
    requires
        fetch_line_ok(d0),
    ensures
        ({
            let (d1, d2, d3, d4, o) = fetch_witness(d0);
            &&& d0.advanced(&d1, span(d0.stream(), ByteClass::NumSet), true)
            &&& sp_result(&d1, &d2, Ok(()))
            &&& fetch_atts_read(d2, d3, o)
            &&& crlf_result(&d3, &d4, Ok(()))
        }),
{
}

/// Reads FETCH's arguments: a sequence set, SP, the attributes, and the end
/// of the line; the Selected state is required.
pub fn fetch_args(conn: &mut Conn) -> (r: ImapResult<(SeqSet, FetchOptions)>)
    requires
        old(conn).wf(),
    ensures
        final(conn).wf(),
        only_decoder_moved(*old(conn), *final(conn)),
        old(conn).state != ConnState::Selected ==> r is Err && final(conn).decoder == old(conn).decoder,
        old(conn).state == ConnState::Selected ==> (r is Ok <==> fetch_line_ok(old(conn).decoder)),
        r matches Ok(v) ==> fetch_line_read(old(conn).decoder, final(conn).decoder, v.0@, v.1),
{
    conn.require_selected()?;
    let ghost d0 = conn.decoder;
    let ghost n = span(d0.stream(), ByteClass::NumSet);
    let set = crate::cmd::copy::read_seq_set(conn)?;
    let ghost d1 = conn.decoder;
    let rsp = conn.decoder.expect_sp();
    let ghost d2 = conn.decoder;
    if let Err(e) = rsp {
        proof {
            if fetch_line_ok(d0) {
                lemma_fetch_witness(d0);
                let (w1, w2, w3, w4, wo) = fetch_witness(d0);
                d0.lemma_advanced_det(&d1, &w1, n, true);
                lemma_sp_det(&d1, &d2, rsp, &w2, Ok(()));
            }
        }
        return Err(e);
    }
    let options = match parse_fetch_args(conn) {
        Ok(o) => o,
        Err(e) => {
            proof {
                if fetch_line_ok(d0) {
                    lemma_fetch_witness(d0);
                    let (w1, w2, w3, w4, wo) = fetch_witness(d0);
                    d0.lemma_advanced_det(&d1, &w1, n, true);
                    lemma_sp_det(&d1, &d2, Ok(()), &w2, Ok(()));
                    assert(fetch_atts_read(d2, w3, wo));
                }
            }
            return Err(e);
        },
    };
    let ghost d3 = conn.decoder;
    let rc = conn.decoder.expect_crlf();
    let ghost d4 = conn.decoder;
    if let Err(e) = rc {
        proof {
            if fetch_line_ok(d0) {
                lemma_fetch_witness(d0);
                let (w1, w2, w3, w4, wo) = fetch_witness(d0);
                d0.lemma_advanced_det(&d1, &w1, n, true);
                lemma_sp_det(&d1, &d2, Ok(()), &w2, Ok(()));
                lemma_fetch_atts_det(d2, d3, options, w3, wo);
                lemma_crlf_det(&d3, &d4, rc, &w4, Ok(()));
            }
        }
        return Err(e);
    }
    assert(seq_set_read(d0, d1, set@));
    assert(sp_result(&d1, &d2, Ok(())) && fetch_atts_read(d2, d3, options) && crlf_result(&d3, &d4, Ok(())));
    assert(fetch_line_read(d0, d4, set@, options));
    Ok((set, options))
}

/// A body section in a FETCH response: always `BODY[...]` (`.PEEK` is only
/// asked for), the partial range, and the data as a literal.
pub open spec fn response_section_bytes(section: BodySection, data: Seq<u8>) -> Seq<u8> {
    lit("BODY"@) + seq![91u8] + section_bytes(section) + seq![93u8] + match section.partial {
        Some((off, size)) => seq![60u8] + crate::text::dec_signed((off as i64) as int) + seq![46u8]
            + crate::text::dec_signed((size as i64) as int) + seq![62u8],
        None => Seq::empty(),
    } + seq![32u8] + data_literal_bytes(data)
}

/// Writes a body section of a FETCH response.
pub fn write_body_section_response(conn: &mut Conn, bs: &BodySection, body: &[u8])
    ensures
        final(conn).encoder@ == old(conn).encoder@ + response_section_bytes(*bs, body@),
        final(conn).state == old(conn).state,
        final(conn).decoder == old(conn).decoder,
        final(conn).enabled == old(conn).enabled,
{
    conn.encoder.atom("BODY");
    conn.encoder.special(91u8);
    crate::writer::FetchResponseWriter::section(&mut conn.encoder, bs);
    conn.encoder.special(93u8);
    match bs.partial {
        Some((offset, size)) => {
            conn.encoder.special(60u8);
            conn.encoder.number64(offset as i64);
            conn.encoder.special(46u8);
            conn.encoder.number64(size as i64);
            conn.encoder.special(62u8);
        },
        None => {},
    }
    conn.encoder.sp();
    crate::writer::FetchResponseWriter::data_literal(&mut conn.encoder, body);
    assert(conn.encoder@ =~= old(conn).encoder@ + response_section_bytes(*bs, body@));
}

/// `items`, and `x` after them when `cond`.
pub open spec fn push_if(items: Seq<Seq<u8>>, cond: bool, x: Seq<u8>) -> Seq<Seq<u8>> {
    if cond {
        items.push(x)
    } else {
        items
    }
}

/// `FLAGS (...)`.
pub open spec fn flags_item(m: FetchedMessage) -> Seq<u8> {
    lit("FLAGS"@) + seq![32u8] + flags_bytes(m.flags@)
}

/// `UID n`.
pub open spec fn uid_item(m: FetchedMessage) -> Seq<u8> {
    lit("UID"@) + seq![32u8] + dec_digits(m.uid as nat)
}

/// `INTERNALDATE "date"`.
pub open spec fn date_item(m: FetchedMessage) -> Seq<u8> {
    lit("INTERNALDATE"@) + seq![32u8] + quoted_bytes(crate::writer::utf8(m.internal_date))
}

/// `RFC822.SIZE n`.
pub open spec fn size_item(m: FetchedMessage) -> Seq<u8> {
    lit("RFC822.SIZE"@) + seq![32u8] + dec_digits(m.rfc822_size as nat)
}

/// The items other than body sections: FLAGS, UID (asked for, or a UID
/// FETCH), INTERNALDATE and RFC822.SIZE.
#[verifier::opaque]
pub open spec fn simple_items(uid_cmd: bool, o: FetchOptions, m: FetchedMessage) -> Seq<Seq<u8>> {
    push_if(
        push_if(
            push_if(push_if(Seq::empty(), o.flags, flags_item(m)), o.uid || uid_cmd, uid_item(m)),
            o.internal_date,
            date_item(m),
        ),
        o.rfc822_size,
        size_item(m),
    )
}

/// The body sections of a FETCH response, each after SP but for the first
/// when `sep` is false.
pub open spec fn sections_tail(sep: bool, ss: Seq<BodySection>, body: Seq<u8>) -> Seq<u8>
    decreases ss.len(),
{
    if ss.len() == 0 {
        Seq::empty()
    } else {
        sections_tail(sep, ss.drop_last(), body) + (if ss.len() > 1 || sep {
            seq![32u8]
        } else {
            Seq::<u8>::empty()
        }) + response_section_bytes(ss.last(), body)
    }
}

/// One message's FETCH response: `* seq FETCH (items)` CRLF.
pub open spec fn fetch_line(uid_cmd: bool, o: FetchOptions, m: FetchedMessage) -> Seq<u8> {
    let simple = simple_items(uid_cmd, o, m);
    seq![42u8, 32] + dec_digits(m.seq as nat) + seq![32u8] + lit("FETCH"@) + seq![32u8] + crate::writer::paren(
        join_sp(simple) + sections_tail(simple.len() > 0, o.body_sections@, m.body@),
    ) + seq![13u8, 10]
}

/// The FETCH responses of the messages, in order.
pub open spec fn fetch_lines(uid_cmd: bool, o: FetchOptions, ms: Seq<FetchedMessage>) -> Seq<u8>
    decreases ms.len(),
{
    if ms.len() == 0 {
        Seq::empty()
    } else {
        fetch_lines(uid_cmd, o, ms.drop_last()) + fetch_line(uid_cmd, o, ms.last())
    }
}

proof fn lemma_join_sp_append(items: Seq<Seq<u8>>, x: Seq<u8>)
    ensures
        join_sp(items.push(x)) == join_sp(items) + (if items.len() > 0 { seq![32u8] } else { Seq::<u8>::empty() }) + x,
{
    assert(items.push(x).drop_last() =~= items);
    if items.len() == 0 {
        assert(join_sp(items.push(x)) == x);
        assert(Seq::<u8>::empty() + Seq::<u8>::empty() + x =~= x);
    }
}

fn write_item_sep(conn: &mut Conn, has_item: bool)
    ensures
        final(conn).encoder@ == old(conn).encoder@ + (if has_item { seq![32u8] } else { Seq::<u8>::empty() }),
        final(conn).state == old(conn).state,
        final(conn).decoder == old(conn).decoder,
        final(conn).enabled == old(conn).enabled,
{
    if has_item {
        conn.encoder.sp();
    } else {
        assert(conn.encoder@ =~= old(conn).encoder@ + Seq::<u8>::empty());
    }
}

fn write_flags_item(conn: &mut Conn, Ghost(base): Ghost<Seq<u8>>, Ghost(items): Ghost<Seq<Seq<u8>>>, has_item: bool, m: &FetchedMessage)
    requires
        old(conn).encoder@ == base + join_sp(items),
        has_item == (items.len() > 0),
    ensures
        final(conn).encoder@ == base + join_sp(items.push(flags_item(*m))),
        final(conn).state == old(conn).state,
        final(conn).decoder == old(conn).decoder,
        final(conn).enabled == old(conn).enabled,
{
    write_item_sep(conn, has_item);
    conn.encoder.atom("FLAGS");
    conn.encoder.sp();
    write_flag_list_enc(&mut conn.encoder, &m.flags);
    proof {
        lemma_join_sp_append(items, flags_item(*m));
    }
    assert(conn.encoder@ =~= base + join_sp(items.push(flags_item(*m))));
}

fn write_uid_item(conn: &mut Conn, Ghost(base): Ghost<Seq<u8>>, Ghost(items): Ghost<Seq<Seq<u8>>>, has_item: bool, m: &FetchedMessage)
    requires
        old(conn).encoder@ == base + join_sp(items),
        has_item == (items.len() > 0),
    ensures
        final(conn).encoder@ == base + join_sp(items.push(uid_item(*m))),
        final(conn).state == old(conn).state,
        final(conn).decoder == old(conn).decoder,
        final(conn).enabled == old(conn).enabled,
{
    write_item_sep(conn, has_item);
    conn.encoder.atom("UID");
    conn.encoder.sp();
    conn.encoder.number(m.uid);
    proof {
        lemma_join_sp_append(items, uid_item(*m));
    }
    assert(conn.encoder@ =~= base + join_sp(items.push(uid_item(*m))));
}

fn write_date_item(conn: &mut Conn, Ghost(base): Ghost<Seq<u8>>, Ghost(items): Ghost<Seq<Seq<u8>>>, has_item: bool, m: &FetchedMessage)
    requires
        old(conn).encoder@ == base + join_sp(items),
        has_item == (items.len() > 0),
    ensures
        final(conn).encoder@ == base + join_sp(items.push(date_item(*m))),
        final(conn).state == old(conn).state,
        final(conn).decoder == old(conn).decoder,
        final(conn).enabled == old(conn).enabled,
{
    write_item_sep(conn, has_item);
    conn.encoder.atom("INTERNALDATE");
    conn.encoder.sp();
    conn.encoder.quoted(m.internal_date.as_str());
    proof {
        lemma_join_sp_append(items, date_item(*m));
    }
    assert(conn.encoder@ =~= base + join_sp(items.push(date_item(*m))));
}

fn write_size_item(conn: &mut Conn, Ghost(base): Ghost<Seq<u8>>, Ghost(items): Ghost<Seq<Seq<u8>>>, has_item: bool, m: &FetchedMessage)
    requires
        old(conn).encoder@ == base + join_sp(items),
        has_item == (items.len() > 0),
    ensures
        final(conn).encoder@ == base + join_sp(items.push(size_item(*m))),
        final(conn).state == old(conn).state,
        final(conn).decoder == old(conn).decoder,
        final(conn).enabled == old(conn).enabled,
{
    write_item_sep(conn, has_item);
    conn.encoder.atom("RFC822.SIZE");
    conn.encoder.sp();
    conn.encoder.number(m.rfc822_size);
    proof {
        lemma_join_sp_append(items, size_item(*m));
    }
    assert(conn.encoder@ =~= base + join_sp(items.push(size_item(*m))));
}

/// Writes the simple items of one message (all but the body sections).
fn write_simple_items(conn: &mut Conn, uid_cmd: bool, o: &FetchOptions, m: &FetchedMessage) -> (has_item: bool)
    ensures
        final(conn).encoder@ == old(conn).encoder@ + join_sp(simple_items(uid_cmd, *o, *m)),
        has_item == (simple_items(uid_cmd, *o, *m).len() > 0),
        final(conn).state == old(conn).state,
        final(conn).decoder == old(conn).decoder,
        final(conn).enabled == old(conn).enabled,
{
    let ghost base = conn.encoder@;
    let ghost i0: Seq<Seq<u8>> = Seq::empty();
    assert(conn.encoder@ =~= base + join_sp(i0));
    let mut has_item = false;
    if o.flags {
        write_flags_item(conn, Ghost(base), Ghost(i0), has_item, m);
        has_item = true;
    }
    let ghost i1 = push_if(i0, o.flags, flags_item(*m));
    if o.uid || uid_cmd {
        write_uid_item(conn, Ghost(base), Ghost(i1), has_item, m);
        has_item = true;
    }
    let ghost i2 = push_if(i1, o.uid || uid_cmd, uid_item(*m));
    if o.internal_date {
        write_date_item(conn, Ghost(base), Ghost(i2), has_item, m);
        has_item = true;
    }
    let ghost i3 = push_if(i2, o.internal_date, date_item(*m));
    if o.rfc822_size {
        write_size_item(conn, Ghost(base), Ghost(i3), has_item, m);
        has_item = true;
    }
    proof {
        reveal(simple_items);
    }
    has_item
}

fn write_sections(conn: &mut Conn, has_item: bool, sections: &[BodySection], body: &[u8])
    ensures
        final(conn).encoder@ == old(conn).encoder@ + sections_tail(has_item, sections@, body@),
        final(conn).state == old(conn).state,
        final(conn).decoder == old(conn).decoder,
        final(conn).enabled == old(conn).enabled,
{
    let ghost mid = conn.encoder@;
    assert(sections@.take(0) =~= Seq::<BodySection>::empty());
    let mut bi: usize = 0;
    while bi < sections.len()
        invariant
            bi <= sections.len(),
            conn.encoder@ == mid + sections_tail(has_item, sections@.take(bi as int), body@),
            conn.state == old(conn).state,
            conn.decoder == old(conn).decoder,
            conn.enabled == old(conn).enabled,
        decreases sections.len() - bi,
    {
        proof {
            assert(sections@.take(bi + 1).drop_last() =~= sections@.take(bi as int));
        }
        write_item_sep(conn, bi > 0 || has_item);
        write_body_section_response(conn, &sections[bi], body);
        bi += 1;
        assert(conn.encoder@ =~= mid + sections_tail(has_item, sections@.take(bi as int), body@));
    }
    assert(sections@.take(sections@.len() as int) =~= sections@);
}

/// Writes one message's FETCH response.
#[verifier::spinoff_prover]
#[verifier::rlimit(30)]
fn write_fetch_line(conn: &mut Conn, uid_cmd: bool, o: &FetchOptions, m: &FetchedMessage)
    ensures
        final(conn).encoder@ == old(conn).encoder@ + fetch_line(uid_cmd, *o, *m),
        final(conn).state == old(conn).state,
        final(conn).decoder == old(conn).decoder,
        final(conn).enabled == old(conn).enabled,
{
    conn.encoder.special(42u8);
    conn.encoder.sp();
    conn.encoder.number(m.seq);
    conn.encoder.sp();
    conn.encoder.atom("FETCH");
    conn.encoder.sp();
    conn.encoder.special(40u8);
    let ghost base = conn.encoder@;
    let has_item = write_simple_items(conn, uid_cmd, o, m);
    write_sections(conn, has_item, &o.body_sections, &m.body);
    conn.encoder.special(41u8);
    conn.encoder.crlf();
    assert(conn.encoder@ =~= old(conn).encoder@ + fetch_line(uid_cmd, *o, *m));
}

/// Ends FETCH: the response of each message, then `tag OK FETCH completed`.
pub fn fetch_done(conn: &mut Conn, tag: &str, uid_cmd: bool, options: &FetchOptions, messages: &[FetchedMessage])
    ensures
        final(conn).encoder@ == old(conn).encoder@ + fetch_lines(uid_cmd, *options, messages@)
            + completed_bytes(tag.spec_bytes(), "FETCH"@),
        final(conn).state == old(conn).state,
        final(conn).decoder == old(conn).decoder,
        final(conn).enabled == old(conn).enabled,
{
    let mut i: usize = 0;
    while i < messages.len()
        invariant
            i <= messages.len(),
            conn.encoder@ == old(conn).encoder@ + fetch_lines(uid_cmd, *options, messages@.take(i as int)),
            conn.state == old(conn).state,
            conn.decoder == old(conn).decoder,
            conn.enabled == old(conn).enabled,
        decreases messages.len() - i,
    {
        write_fetch_line(conn, uid_cmd, options, &messages[i]);
        assert(messages@.take(i + 1).drop_last() =~= messages@.take(i as int));
        i += 1;
    }
    assert(messages@.take(messages@.len() as int) =~= messages@);
    crate::cmd::select::write_completed(conn, tag, "FETCH");
}

} // verus!
