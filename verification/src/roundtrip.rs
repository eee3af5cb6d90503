//! What the decoder reads back of what the encoder writes.
use vstd::prelude::*;
use vstd::string::StringSliceAdditionalSpecFns;
use vstd::utf8::{
    encode_scalar, encode_utf8, has_width_1_encoding, has_width_2_encoding, has_width_3_encoding,
    is_ascii_chars,
};
use crate::codec::{
    escape_quoted, in_class, literal_bytes, literal_header, literal_result, number_result, quoted_body,
    quoted_bytes, quoted_result, quotable, run_result, span, string_bytes, string_result, lemma_span_unique,
    AsyncDecoder, ByteClass,
};
use crate::error::ImapResult;
use crate::text::{all_digits, dec_digits, is_digit, latin1, lemma_ascii_spec_bytes, lemma_dec_digits};

verus! {

/// Escaping a concatenation escapes each part.
pub proof fn lemma_escape_concat(a: Seq<u8>, b: Seq<u8>)
    ensures
        escape_quoted(a + b) == escape_quoted(a) + escape_quoted(b),
    decreases b.len(),
{
    if b.len() == 0 {
        assert(a + b =~= a);
        assert(escape_quoted(a) + escape_quoted(b) =~= escape_quoted(a));
    } else {
        lemma_escape_concat(a, b.drop_last());
        assert((a + b).drop_last() =~= a + b.drop_last());
        assert((a + b).last() == b.last());
        assert(escape_quoted(a) + escape_quoted(b.drop_last()) + (if b.last() == 34 || b.last() == 92 {
            seq![92u8, b.last()]
        } else {
            seq![b.last()]
        }) =~= escape_quoted(a) + escape_quoted(b));
    }
}

/// The body of an escaped string closed by `"` is the string, and it takes
/// up the escaped bytes and the `"`.
pub proof fn lemma_quoted_body_escape(s: Seq<u8>, rest: Seq<u8>)
    ensures
        quoted_body(escape_quoted(s) + seq![34u8] + rest) == Some((s, escape_quoted(s).len() + 1)),
    decreases s.len(),
{
    let t = escape_quoted(s) + seq![34u8] + rest;
    if s.len() == 0 {
        assert(escape_quoted(s) =~= Seq::<u8>::empty());
        assert(t[0] == 34);
        assert(s =~= Seq::<u8>::empty());
    } else {
        let b = s[0];
        let s2 = s.skip(1);
        assert(seq![b] + s2 =~= s);
        lemma_escape_concat(seq![b], s2);
        assert(seq![b].drop_last() =~= Seq::<u8>::empty());
        assert(escape_quoted(Seq::<u8>::empty()) =~= Seq::<u8>::empty());
        lemma_quoted_body_escape(s2, rest);
        let e2 = escape_quoted(s2);
        if b == 34 || b == 92 {
            assert(escape_quoted(seq![b]) =~= seq![92u8, b]);
            assert(t =~= seq![92u8, b] + (e2 + seq![34u8] + rest));
            assert(t.skip(2) =~= e2 + seq![34u8] + rest);
        } else {
            assert(escape_quoted(seq![b]) =~= seq![b]);
            assert(t =~= seq![b] + (e2 + seq![34u8] + rest));
            assert(t.skip(1) =~= e2 + seq![34u8] + rest);
        }
    }
}

/// Law: a quoted string as the encoder writes it (`Encoder::quoted`) is
/// read back by `read_quoted` as the same bytes, one character per byte,
/// and what follows it is left to read.
pub proof fn law_quoted_round_trip(
    d0: &AsyncDecoder,
    d1: &AsyncDecoder,
    r: ImapResult<String>,
    s: Seq<u8>,
    rest: Seq<u8>,
)
    requires
        d0.wf(),
        d0.stream() == quoted_bytes(s) + rest,
        quoted_result(d0, d1, r),
    ensures
        r is Ok,
        r->Ok_0@ == latin1(s),
        d1.wf(),
        d1.stream() == rest,
        d1.pushed() is None,
        d0.pushed() is None ==> d1.raw() == d0.raw().skip(quoted_bytes(s).len() as int),
{
    let st = d0.stream();
    lemma_quoted_body_escape(s, rest);
    assert(st.skip(1) =~= escape_quoted(s) + seq![34u8] + rest);
    let k = escape_quoted(s).len() + 1;
    d0.lemma_advanced_pub(d1, k + 1, false);
    assert(st.skip((k + 1) as int) =~= rest);
}

/// Law: an ASCII string written quoted is read back by `read_quoted` as the
/// same string.
pub proof fn law_quoted_str_round_trip(
    d0: &AsyncDecoder,
    d1: &AsyncDecoder,
    r: ImapResult<String>,
    s: &str,
    rest: Seq<u8>,
)
    requires
        d0.wf(),
        is_ascii_chars(s@),
        d0.stream() == quoted_bytes(s.spec_bytes()) + rest,
        quoted_result(d0, d1, r),
    ensures
        r is Ok,
        r->Ok_0@ == s@,
        d1.wf(),
        d1.stream() == rest,
        d1.pushed() is None,
        d0.pushed() is None ==> d1.raw() == d0.raw().skip(quoted_bytes(s.spec_bytes()).len() as int),
{
    lemma_ascii_spec_bytes(s);
    law_quoted_round_trip(d0, d1, r, s.spec_bytes(), rest);
}

/// The digits of a number end where the next byte is not a digit.
pub proof fn lemma_digits_span(n: nat, rest: Seq<u8>)
    requires
        rest.len() > 0 ==> !is_digit(rest[0]),
    ensures
        span(dec_digits(n) + rest, ByteClass::Digit) == dec_digits(n).len(),
{
    lemma_dec_digits(n);
    let d = dec_digits(n);
    let s = d + rest;
    assert forall|j: int| 0 <= j < d.len() implies in_class(ByteClass::Digit, #[trigger] s[j]) by {
        assert(s[j] == d[j]);
        assert(all_digits(d));
    }
    if d.len() < s.len() {
        assert(s[d.len() as int] == rest[0]);
    }
    lemma_span_unique(s, ByteClass::Digit, d.len() as int);
}

/// Law: a number as the encoder writes it (`Encoder::number`), followed by
/// a byte that is not a digit, is read back by `read_number` as the same
/// number, and the bytes after the digits are left to read.
pub proof fn law_number_round_trip(
    d0: &AsyncDecoder,
    d1: &AsyncDecoder,
    r: ImapResult<u32>,
    n: u32,
    rest: Seq<u8>,
)
    requires
        d0.wf(),
        d0.stream() == dec_digits(n as nat) + rest,
        rest.len() > 0,
        !is_digit(rest[0]),
        number_result(d0, d1, r),
    ensures
        r == Ok::<u32, crate::error::ImapError>(n),
        d1.wf(),
        d1.stream() == rest,
{
    let d = dec_digits(n as nat);
    let st = d0.stream();
    lemma_dec_digits(n as nat);
    lemma_digits_span(n as nat, rest);
    assert(st.take(d.len() as int) =~= d);
    d0.lemma_advanced_pub(d1, d.len(), true);
    assert(st.skip(d.len() as int) =~= rest);
}

/// Law: an atom as the encoder writes it (`Encoder::atom`), followed by a
/// byte that is not an atom character, is read back by `read_atom` as the
/// same bytes, one character per byte; the byte after it is left to read.
pub proof fn law_atom_round_trip(
    d0: &AsyncDecoder,
    d1: &AsyncDecoder,
    r: ImapResult<String>,
    a: Seq<u8>,
    rest: Seq<u8>,
)
    requires
        d0.wf(),
        a.len() > 0,
        forall|i: int| 0 <= i < a.len() ==> in_class(ByteClass::Atom, #[trigger] a[i]),
        rest.len() > 0,
        !in_class(ByteClass::Atom, rest[0]),
        d0.stream() == a + rest,
        run_result(d0, d1, r, ByteClass::Atom, "expected atom"@),
    ensures
        r is Ok,
        r->Ok_0@ == latin1(a),
        d1.wf(),
        d1.stream() == rest,
{
    let st = d0.stream();
    assert forall|j: int| 0 <= j < a.len() implies in_class(ByteClass::Atom, #[trigger] st[j]) by {
        assert(st[j] == a[j]);
    }
    assert(st[a.len() as int] == rest[0]);
    lemma_span_unique(st, ByteClass::Atom, a.len() as int);
    assert(st.take(a.len() as int) =~= a);
    d0.lemma_advanced_pub(d1, a.len(), true);
    assert(st.skip(a.len() as int) =~= rest);
}

/// Law: a synchronizing literal as the encoder writes it
/// (`Encoder::literal`) is read back by `read_literal` as the same data,
/// marked synchronizing, and the bytes after the data are left to read.
/// The whole literal must have been received within the size budget, with
/// nothing pushed back.
pub proof fn law_literal_round_trip(
    d0: &AsyncDecoder,
    d1: &AsyncDecoder,
    r: ImapResult<(Vec<u8>, bool)>,
    data: Seq<u8>,
    rest: Seq<u8>,
)
    requires
        d0.wf(),
        d0.pushed() is None,
        d0.stream() == d0.raw(),
        d0.raw() == literal_bytes(data) + rest,
        data.len() <= 0x7fff_ffff_ffff_ffff,
        literal_result(d0, d1, r),
    ensures
        r is Ok,
        r->Ok_0.0@ == data,
        !r->Ok_0.1,
        d1.wf(),
        d1.pushed() is None,
        d1.raw() == rest,
{
    let s = d0.stream();
    let dd = dec_digits(data.len());
    lemma_dec_digits(data.len());
    let after = seq![125u8, 13, 10] + data + rest;
    assert(s =~= seq![123u8] + (dd + after));
    let t = s.skip(1);
    assert(t =~= dd + after);
    assert(dd[0] != 45) by {
        assert(all_digits(dd));
    }
    lemma_digits_span(data.len(), after);
    let n = dd.len();
    assert(t.take(n as int) =~= dd);
    let w = t.skip(n as int);
    assert(w =~= after);
    let h: nat = 1 + n + 3;
    assert(literal_header(s) == Some((data.len() as i64, false, h)));
    d0.lemma_raw_after_unpushed(h);
    assert(d0.raw().skip(h as int) =~= data + rest);
    assert((data + rest).take(data.len() as int) =~= data);
    d0.lemma_literal_done_pub(d1, h, data.len());
    assert((data + rest).skip(data.len() as int) =~= rest);
}

/// A character sequence whose UTF-8 encoding is all 7-bit bytes is ASCII.
pub proof fn lemma_seven_bit_encoding_is_ascii(cs: Seq<char>)
    requires
        forall|i: int| 0 <= i < encode_utf8(cs).len() ==> #[trigger] encode_utf8(cs)[i] <= 127,
    ensures
        is_ascii_chars(cs),
    decreases cs.len(),
{
    if cs.len() > 0 {
        let c = cs[0] as u32;
        let e = encode_scalar(c);
        let tail = cs.drop_first();
        let rest = encode_utf8(tail);
        assert(encode_utf8(cs) == e + rest);
        assert forall|i: int| 0 <= i < rest.len() implies #[trigger] rest[i] <= 127 by {
            assert(encode_utf8(cs)[e.len() + i] == rest[i]);
        }
        lemma_seven_bit_encoding_is_ascii(tail);
        assert(e.len() >= 1);
        assert(encode_utf8(cs)[0] == e[0]);
        assert(e[0] <= 127);
        assert(has_width_1_encoding(c)) by {
            if !has_width_1_encoding(c) {
                if has_width_2_encoding(c) {
                    let y: u8 = ((c >> 6) & 0x1F) as u8;
                    assert((0xC0u8 | y) >= 0xC0u8) by (bit_vector);
                    assert(e[0] == (0xC0u8 | y));
                } else if has_width_3_encoding(c) {
                    let y: u8 = ((c >> 12) & 0x0F) as u8;
                    assert((0xE0u8 | y) >= 0xC0u8) by (bit_vector);
                    assert(e[0] == (0xE0u8 | y));
                } else {
                    let y: u8 = ((c >> 18) & 0x7) as u8;
                    assert((0xF0u8 | y) >= 0xC0u8) by (bit_vector);
                    assert(e[0] == (0xF0u8 | y));
                }
            }
        }
        vstd::utf8::char_u32_cast(cs[0], c);
        assert(cs[0] <= '\u{7f}');
        assert forall|i: int| 0 <= i < cs.len() implies '\0' <= #[trigger] cs[i] <= '\u{7f}' by {
            if i > 0 {
                assert(cs[i] == tail[i - 1]);
            }
        }
    }
}

/// The literal form of a string is read back by `read_string` as the
/// string.
#[verifier::spinoff_prover]
#[verifier::rlimit(40)]
proof fn lemma_string_literal_read(
    d0: &AsyncDecoder,
    d1: &AsyncDecoder,
    r: ImapResult<String>,
    s: &str,
    rest: Seq<u8>,
)
    requires
        d0.wf(),
        d0.pushed() is None,
        d0.stream() == d0.raw(),
        d0.raw() == literal_bytes(s.spec_bytes()) + rest,
        s.spec_bytes().len() <= 0x7fff_ffff_ffff_ffff,
        string_result(d0, d1, r),
    ensures
        r is Ok,
        r->Ok_0@ == s@,
        d1.wf(),
        d1.pushed() is None,
        d1.raw() == rest,
{
    let b = s.spec_bytes();
    let dd = dec_digits(b.len());
    lemma_dec_digits(b.len());
    let after = seq![125u8, 13, 10] + b + rest;
    let st = d0.stream();
    assert(st =~= seq![123u8] + (dd + after));
    let t = st.skip(1);
    assert(t =~= dd + after);
    assert(dd[0] != 45) by {
        assert(all_digits(dd));
    }
    lemma_digits_span(b.len(), after);
    let n = dd.len();
    assert(t.take(n as int) =~= dd);
    assert(t.skip(n as int) =~= after);
    let h: nat = 1 + n + 3;
    assert(literal_header(st) == Some((b.len() as i64, false, h)));
    d0.lemma_raw_after_unpushed(h);
    assert(d0.raw().skip(h as int) =~= b + rest);
    assert((b + rest).take(b.len() as int) =~= b);
    vstd::utf8::encode_utf8_valid_utf8(s@);
    vstd::utf8::encode_utf8_decode_utf8(s@);
    d0.lemma_literal_done_pub(d1, h, b.len());
    assert((b + rest).skip(b.len() as int) =~= rest);
}

/// Law: any string as the encoder writes it (`Encoder::string`: quoted when
/// it may be, else a literal) is read back by `read_string` as the same
/// string, and the bytes after it are left to read. The whole string must
/// have been received within the size budget, with nothing pushed back.
pub proof fn law_string_round_trip(
    d0: &AsyncDecoder,
    d1: &AsyncDecoder,
    r: ImapResult<String>,
    s: &str,
    rest: Seq<u8>,
)
    requires
        d0.wf(),
        d0.pushed() is None,
        d0.stream() == d0.raw(),
        d0.raw() == string_bytes(s.spec_bytes()) + rest,
        s.spec_bytes().len() <= 0x7fff_ffff_ffff_ffff,
        string_result(d0, d1, r),
    ensures
        r is Ok,
        r->Ok_0@ == s@,
        d1.wf(),
        d1.pushed() is None,
        d1.raw() == rest,
{
    let b = s.spec_bytes();
    if quotable(b) {
        assert(forall|i: int| 0 <= i < b.len() ==> #[trigger] b[i] <= 127);
        lemma_seven_bit_encoding_is_ascii(s@);
        assert(d0.stream()[0] == 34);
        law_quoted_str_round_trip(d0, d1, r, s, rest);
        assert(d0.raw().skip(quoted_bytes(b).len() as int) =~= rest);
    } else {
        assert(d0.stream()[0] == 123);
        lemma_string_literal_read(d0, d1, r, s, rest);
    }
}

} // verus!
