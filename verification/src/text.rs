//! Characters, bytes and decimal numbers: the small vocabulary that the
//! protocol types and the wire codec are written in.
use vstd::prelude::*;
use vstd::utf8::{is_ascii_chars, valid_utf8, decode_utf8};
use vstd::string::StringSliceAdditionalSpecFns;

verus! {

// ── Bytes read as characters ────────────────────────────────────────

/// The characters that a byte sequence reads as when each byte stands for
/// the character with the same code point (how the decoder turns wire bytes
/// into text).
pub open spec fn latin1(bs: Seq<u8>) -> Seq<char> {
    Seq::new(bs.len(), |i: int| bs[i] as char)
}

/// The bytes of an ASCII character sequence, one byte per character.
pub open spec fn ascii_bytes(cs: Seq<char>) -> Seq<u8> {
    Seq::new(cs.len(), |i: int| cs[i] as u8)
}

/// Appends one character to a `String` (`String::push`).
#[verifier::external_body]
pub(crate) fn string_push(s: &mut String, c: char)
    ensures
        final(s)@ == old(s)@.push(c),
{
    s.push(c);
}

/// The bytes as a `String` when they are valid UTF-8 (`String::from_utf8`,
/// whose documentation says it fails exactly on bytes that are not UTF-8;
/// on success the string holds the characters that the bytes encode).
#[verifier::external_body]
pub(crate) fn utf8_string(bytes: Vec<u8>) -> (r: Option<String>)
    ensures
        r is Some <==> valid_utf8(bytes@),
        r matches Some(s) ==> s@ == decode_utf8(bytes@),
{
    match String::from_utf8(bytes) {
        Ok(s) => Some(s),
        Err(_) => None,
    }
}

/// A `String` holding the given bytes, one character per byte.
pub fn string_from_latin1(bs: &[u8]) -> (s: String)
    ensures
        s@ == latin1(bs@),
{
    let mut s = String::new();
    let mut i: usize = 0;
    while i < bs.len()
        invariant
            i <= bs.len(),
            s@ == latin1(bs@.take(i as int)),
        decreases bs.len() - i,
    {
        let c = bs[i] as char;
        string_push(&mut s, c);
        i += 1;
        assert(latin1(bs@.take(i as int)) =~= latin1(bs@.take(i - 1)).push(c));
    }
    assert(bs@.take(bs@.len() as int) =~= bs@);
    s
}

/// A `String` holding the given characters.
pub fn string_from_chars(cs: &[char]) -> (s: String)
    ensures
        s@ == cs@,
{
    let mut s = String::new();
    let mut i: usize = 0;
    while i < cs.len()
        invariant
            i <= cs.len(),
            s@ == cs@.take(i as int),
        decreases cs.len() - i,
    {
        string_push(&mut s, cs[i]);
        i += 1;
        assert(cs@.take(i as int) =~= cs@.take(i - 1).push(cs@[i - 1]));
    }
    assert(cs@.take(cs@.len() as int) =~= cs@);
    s
}

/// The characters of a string slice, in order.
pub fn chars_of(s: &str) -> (v: Vec<char>)
    ensures
        v@ == s@,
{
    let mut v: Vec<char> = Vec::new();
    for c in it: s.chars()
        invariant
            v@ == it.seq().take(it.index() as int),
            it.seq() == s@,
    {
        v.push(c);
    }
    v
}

/// The bytes of a string slice (its UTF-8 encoding).
pub fn bytes_of(s: &str) -> (v: Vec<u8>)
    ensures
        v@ == s.spec_bytes(),
{
    let b = s.as_bytes();
    let mut v: Vec<u8> = Vec::new();
    let mut i: usize = 0;
    while i < b.len()
        invariant
            i <= b.len(),
            v@ == b@.take(i as int),
        decreases b.len() - i,
    {
        v.push(b[i]);
        i += 1;
        assert(b@.take(i as int) =~= b@.take(i - 1).push(b@[i - 1]));
    }
    assert(b@.take(b@.len() as int) =~= b@);
    v
}

/// An ASCII string is encoded byte for byte.
pub proof fn lemma_ascii_spec_bytes(s: &str)
    requires
        is_ascii_chars(s@),
    ensures
        s.spec_bytes() == ascii_bytes(s@),
        latin1(s.spec_bytes()) == s@,
{
    vstd::utf8::is_ascii_chars_encode_utf8(s@);
    assert(s.spec_bytes() =~= ascii_bytes(s@));
    assert forall|i: int| 0 <= i < s@.len() implies (s@[i] as u8) as char == s@[i] by {
        vstd::utf8::is_ascii_chars_nat_bound(s@);
    }
    assert(latin1(s.spec_bytes()) =~= s@);
}

// ── ASCII letter case ───────────────────────────────────────────────

/// ASCII upper-casing of one byte (`u8::to_ascii_uppercase`).
pub open spec fn upper_byte(b: u8) -> u8 {
    if 97 <= b <= 122 {
        (b - 32) as u8
    } else {
        b
    }
}

/// ASCII upper-casing of one character (`char::to_ascii_uppercase`).
pub open spec fn upper_char(c: char) -> char {
    if 'a' <= c <= 'z' {
        ((c as u32) - 32) as char
    } else {
        c
    }
}

/// ASCII lower-casing of one byte (`u8::to_ascii_lowercase`).
pub open spec fn lower_byte(b: u8) -> u8 {
    if 65 <= b <= 90 {
        (b + 32) as u8
    } else {
        b
    }
}

/// ASCII upper-casing of a byte sequence.
pub open spec fn upper_bytes(bs: Seq<u8>) -> Seq<u8> {
    Seq::new(bs.len(), |i: int| upper_byte(bs[i]))
}

/// ASCII upper-casing of a character sequence (`str::to_ascii_uppercase`).
pub open spec fn upper_chars(cs: Seq<char>) -> Seq<char> {
    Seq::new(cs.len(), |i: int| upper_char(cs[i]))
}

/// The texts of strings, in order.
pub open spec fn string_views(v: Seq<String>) -> Seq<Seq<char>> {
    v.map_values(|x: String| x@)
}

/// Upper-casing twice is upper-casing once.
pub proof fn lemma_upper_chars_idem(cs: Seq<char>)
    ensures
        upper_chars(upper_chars(cs)) == upper_chars(cs),
        upper_chars(cs).len() == cs.len(),
{
    assert forall|i: int| 0 <= i < cs.len() implies upper_char(upper_char(cs[i])) == upper_char(cs[i]) by {
        let c = cs[i];
        if 'a' <= c <= 'z' {
            assert(((c as u32) - 32) as char == upper_char(c));
        }
    }
    assert(upper_chars(upper_chars(cs)) =~= upper_chars(cs));
}

/// Two byte sequences are equal up to ASCII letter case
/// (`eq_ignore_ascii_case`).
pub open spec fn eq_ignore_case(a: Seq<u8>, b: Seq<u8>) -> bool {
    upper_bytes(a) == upper_bytes(b)
}

pub fn to_upper_byte(b: u8) -> (r: u8)
    ensures
        r == upper_byte(b),
{
    if 97 <= b && b <= 122 {
        b - 32
    } else {
        b
    }
}

pub fn to_upper_char(c: char) -> (r: char)
    ensures
        r == upper_char(c),
{
    if 'a' <= c && c <= 'z' {
        let b = (c as u32 - 32) as u8;
        assert((b as char) == ((c as u32) - 32) as char);
        b as char
    } else {
        c
    }
}

/// ASCII upper-casing of a byte string.
pub fn upper_vec(bs: &[u8]) -> (r: Vec<u8>)
    ensures
        r@ == upper_bytes(bs@),
{
    let mut r: Vec<u8> = Vec::new();
    let mut i: usize = 0;
    while i < bs.len()
        invariant
            i <= bs.len(),
            r@ == upper_bytes(bs@.take(i as int)),
        decreases bs.len() - i,
    {
        r.push(to_upper_byte(bs[i]));
        i += 1;
        assert(upper_bytes(bs@.take(i as int)) =~= upper_bytes(bs@.take(i - 1)).push(
            upper_byte(bs@[i - 1]),
        ));
    }
    assert(bs@.take(bs@.len() as int) =~= bs@);
    r
}

/// ASCII upper-casing of a character string.
pub fn upper_char_vec(cs: &[char]) -> (r: Vec<char>)
    ensures
        r@ == upper_chars(cs@),
{
    let mut r: Vec<char> = Vec::new();
    let mut i: usize = 0;
    while i < cs.len()
        invariant
            i <= cs.len(),
            r@ == upper_chars(cs@.take(i as int)),
        decreases cs.len() - i,
    {
        r.push(to_upper_char(cs[i]));
        i += 1;
        assert(upper_chars(cs@.take(i as int)) =~= upper_chars(cs@.take(i - 1)).push(
            upper_char(cs@[i - 1]),
        ));
    }
    assert(cs@.take(cs@.len() as int) =~= cs@);
    r
}

/// Byte-for-byte equality of two byte strings.
pub fn bytes_eq(a: &[u8], b: &[u8]) -> (r: bool)
    ensures
        r == (a@ == b@),
{
    if a.len() != b.len() {
        return false;
    }
    let mut i: usize = 0;
    while i < a.len()
        invariant
            i <= a.len(),
            a.len() == b.len(),
            forall|j: int| 0 <= j < i ==> a@[j] == b@[j],
        decreases a.len() - i,
    {
        if a[i] != b[i] {
            return false;
        }
        i += 1;
    }
    assert(a@ =~= b@);
    true
}

/// Character-for-character equality of two character strings.
pub fn chars_eq(a: &[char], b: &[char]) -> (r: bool)
    ensures
        r == (a@ == b@),
{
    if a.len() != b.len() {
        return false;
    }
    let mut i: usize = 0;
    while i < a.len()
        invariant
            i <= a.len(),
            a.len() == b.len(),
            forall|j: int| 0 <= j < i ==> a@[j] == b@[j],
        decreases a.len() - i,
    {
        if a[i] != b[i] {
            return false;
        }
        i += 1;
    }
    assert(a@ =~= b@);
    true
}

/// Equality up to ASCII letter case.
pub fn bytes_eq_ignore_case(a: &[u8], b: &[u8]) -> (r: bool)
    ensures
        r == eq_ignore_case(a@, b@),
{
    let ua = upper_vec(a);
    let ub = upper_vec(b);
    bytes_eq(&ua, &ub)
}

// ── Decimal numbers ─────────────────────────────────────────────────

/// The ASCII digit byte for a value below ten.
pub open spec fn digit_byte(d: nat) -> u8 {
    (48 + d) as u8
}

/// A byte is an ASCII decimal digit.
pub open spec fn is_digit(b: u8) -> bool {
    48 <= b <= 57
}

/// The decimal representation of a natural number, most significant digit
/// first, with no leading zeros.
pub open spec fn dec_digits(n: nat) -> Seq<u8>
    decreases n,
{
    if n < 10 {
        seq![digit_byte(n)]
    } else {
        dec_digits(n / 10).push(digit_byte(n % 10))
    }
}

/// The value of a sequence of decimal digits.
pub open spec fn digits_value(d: Seq<u8>) -> nat
    decreases d.len(),
{
    if d.len() == 0 {
        0
    } else {
        digits_value(d.drop_last()) * 10 + (d.last() - 48) as nat
    }
}

/// Every byte is a decimal digit.
pub open spec fn all_digits(d: Seq<u8>) -> bool {
    forall|i: int| 0 <= i < d.len() ==> is_digit(#[trigger] d[i])
}

pub proof fn lemma_dec_digits(n: nat)
    ensures
        dec_digits(n).len() >= 1,
        all_digits(dec_digits(n)),
        digits_value(dec_digits(n)) == n,
        dec_digits(n)[0] != 48 || n == 0,
    decreases n,
{
    if n >= 10 {
        lemma_dec_digits(n / 10);
        let d = dec_digits(n);
        assert(d.drop_last() =~= dec_digits(n / 10));
        assert(d.last() == digit_byte(n % 10));
        assert(digits_value(d) == digits_value(dec_digits(n / 10)) * 10 + (n % 10));
        assert(n == (n / 10) * 10 + n % 10) by (nonlinear_arith);
    } else {
        assert(dec_digits(n).drop_last() =~= Seq::<u8>::empty());
        assert(digits_value(Seq::<u8>::empty()) == 0);
    }
}

/// Appends the decimal representation of `n` to `out`.
pub fn push_dec(out: &mut Vec<u8>, n: u64)
    ensures
        final(out)@ == old(out)@ + dec_digits(n as nat),
    decreases n,
{
    if n >= 10 {
        push_dec(out, n / 10);
    }
    let d = (n % 10) as u8;
    out.push(48 + d);
    assert(dec_digits(n as nat) == if n < 10 {
        seq![digit_byte(n as nat)]
    } else {
        dec_digits((n / 10) as nat).push(digit_byte((n % 10) as nat))
    });
}

/// The decimal representation of a signed number (`i64::to_string`).
pub open spec fn dec_signed(n: int) -> Seq<u8> {
    if n < 0 {
        seq![45u8] + dec_digits((-n) as nat)
    } else {
        dec_digits(n as nat)
    }
}

/// Appends the decimal representation of a signed number to `out`.
pub fn push_dec_signed(out: &mut Vec<u8>, n: i64)
    ensures
        final(out)@ == old(out)@ + dec_signed(n as int),
{
    if n < 0 {
        out.push(45);
        let m: u64 = if n == i64::MIN {
            9223372036854775808u64
        } else {
            (-n) as u64
        };
        push_dec(out, m);
        assert(final(out)@ =~= old(out)@ + dec_signed(n as int));
    } else {
        push_dec(out, n as u64);
    }
}

/// The decimal representation of `n` (`u32::to_string`).
pub fn dec_string(n: u32) -> (s: String)
    ensures
        s@ == latin1(dec_digits(n as nat)),
{
    let mut v: Vec<u8> = Vec::new();
    push_dec(&mut v, n as u64);
    assert(v@ =~= dec_digits(n as nat));
    string_from_latin1(&v)
}

pub proof fn lemma_digits_value_push(d: Seq<u8>, b: u8)
    ensures
        digits_value(d.push(b)) == digits_value(d) * 10 + (b - 48) as nat,
{
    assert(d.push(b).drop_last() =~= d);
}

/// A longer digit string is worth at least as much as its prefix.
pub proof fn lemma_digits_value_prefix(d: Seq<u8>, k: int)
    requires
        0 <= k <= d.len(),
        all_digits(d),
    ensures
        digits_value(d.take(k)) <= digits_value(d),
    decreases d.len() - k,
{
    if k < d.len() {
        lemma_digits_value_prefix(d, k + 1);
        lemma_digits_value_push(d.take(k), d[k]);
        assert(d.take(k + 1) =~= d.take(k).push(d[k]));
    } else {
        assert(d.take(k) =~= d);
    }
}

/// The value of a run of decimal digits, or `None` when it does not fit in
/// `max` (the checked part of `str::parse` for unsigned numbers).
pub fn digits_to_u64(d: &[u8], max: u64) -> (r: Option<u64>)
    requires
        all_digits(d@),
    ensures
        r == (if digits_value(d@) <= max {
            Some(digits_value(d@) as u64)
        } else {
            None::<u64>
        }),
{
    let mut v: u128 = 0;
    let mut i: usize = 0;
    while i < d.len()
        invariant
            i <= d.len(),
            all_digits(d@),
            v == digits_value(d@.take(i as int)),
            v <= max,
        decreases d.len() - i,
    {
        let b = d[i];
        assert(is_digit(d@[i as int]));
        proof {
            lemma_digits_value_push(d@.take(i as int), b);
            assert(d@.take(i + 1) =~= d@.take(i as int).push(b));
        }
        assert(v * 10 <= 0xffff_ffff_ffff_ffff_0u128) by (nonlinear_arith)
            requires
                v <= max,
                max <= 0xffff_ffff_ffff_ffffu64,
        ;
        v = v * 10 + (b - 48) as u128;
        i += 1;
        if v > max as u128 {
            proof {
                lemma_digits_value_prefix(d@, i as int);
            }
            return None;
        }
    }
    assert(d@.take(d@.len() as int) =~= d@);
    Some(v as u64)
}

/// `str::parse::<u32>` on a character string: an optional `+`, then one or
/// more ASCII digits whose value fits in 32 bits.
pub open spec fn parse_u32_std(s: Seq<char>) -> Option<u32> {
    let d = if s.len() > 0 && s[0] == '+' {
        s.drop_first()
    } else {
        s
    };
    if d.len() == 0 || !is_ascii_digits(d) {
        None
    } else if digits_value(ascii_bytes(d)) > u32::MAX {
        None
    } else {
        Some(digits_value(ascii_bytes(d)) as u32)
    }
}

/// Every character is an ASCII decimal digit.
pub open spec fn is_ascii_digits(cs: Seq<char>) -> bool {
    forall|i: int| 0 <= i < cs.len() ==> '0' <= #[trigger] cs[i] <= '9'
}

pub fn parse_u32_chars(s: &[char]) -> (r: Option<u32>)
    ensures
        r == parse_u32_std(s@),
{
    let start: usize = if s.len() > 0 && s[0] == '+' {
        1
    } else {
        0
    };
    let ghost d = if s@.len() > 0 && s@[0] == '+' {
        s@.drop_first()
    } else {
        s@
    };
    assert(d =~= s@.skip(start as int));
    if start == s.len() {
        return None;
    }
    let mut bs: Vec<u8> = Vec::new();
    let mut i = start;
    while i < s.len()
        invariant
            start <= i <= s.len(),
            start == (if s@.len() > 0 && s@[0] == '+' {
                1int
            } else {
                0int
            }),
            d == s@.skip(start as int),
            bs@ == ascii_bytes(s@.subrange(start as int, i as int)),
            is_ascii_digits(s@.subrange(start as int, i as int)),
        decreases s.len() - i,
    {
        let c = s[i];
        if !('0' <= c && c <= '9') {
            assert(d[i - start] == c);
            assert(!('0' <= d[i - start] <= '9'));
            assert(!is_ascii_digits(d));
            assert(parse_u32_std(s@) is None);
            return None;
        }
        bs.push(c as u8);
        i += 1;
        assert(ascii_bytes(s@.subrange(start as int, i as int)) =~= ascii_bytes(
            s@.subrange(start as int, i - 1),
        ).push(c as u8));
        assert(is_ascii_digits(s@.subrange(start as int, i as int)));
    }
    assert(s@.subrange(start as int, s@.len() as int) =~= d);
    assert(all_digits(bs@));
    match digits_to_u64(&bs, 4294967295) {
        Some(v) => Some(v as u32),
        None => None,
    }
}

// ── Searching and trimming characters ───────────────────────────────

/// The index of the first `c` in `s`, or the length of `s` when there is
/// none.
pub open spec fn find_char(s: Seq<char>, c: char) -> int
    decreases s.len(),
{
    if s.len() == 0 {
        0
    } else if s[0] == c {
        0
    } else {
        1 + find_char(s.drop_first(), c)
    }
}

pub proof fn lemma_find_char(s: Seq<char>, c: char)
    ensures
        0 <= find_char(s, c) <= s.len(),
        forall|j: int| 0 <= j < find_char(s, c) ==> s[j] != c,
        find_char(s, c) < s.len() ==> s[find_char(s, c)] == c,
    decreases s.len(),
{
    if s.len() > 0 && s[0] != c {
        lemma_find_char(s.drop_first(), c);
        assert forall|j: int| 0 <= j < find_char(s, c) implies s[j] != c by {
            if j > 0 {
                assert(s[j] == s.drop_first()[j - 1]);
            }
        }
    }
}

/// `find_char` is the one index before which `c` does not occur and at
/// which it does (or the end).
pub proof fn lemma_find_char_unique(s: Seq<char>, c: char, i: int)
    requires
        0 <= i <= s.len(),
        forall|j: int| 0 <= j < i ==> s[j] != c,
        i < s.len() ==> s[i] == c,
    ensures
        find_char(s, c) == i,
{
    lemma_find_char(s, c);
    if find_char(s, c) < i {
        assert(s[find_char(s, c)] == c);
    }
    if find_char(s, c) > i {
        assert(s[i] != c);
    }
}

/// Finds the first `c` in `s` at or after `from`.
pub fn find_char_from(s: &[char], c: char, from: usize) -> (r: usize)
    requires
        from <= s.len(),
    ensures
        r == from + find_char(s@.skip(from as int), c),
        from <= r <= s.len(),
{
    let mut i = from;
    while i < s.len() && s[i] != c
        invariant
            from <= i <= s.len(),
            forall|j: int| from <= j < i ==> s@[j] != c,
        decreases s.len() - i,
    {
        i += 1;
    }
    proof {
        let t = s@.skip(from as int);
        lemma_find_char_unique(t, c, i - from);
    }
    i
}

/// A Unicode `White_Space` character (`char::is_whitespace`).
pub open spec fn is_ws(c: char) -> bool {
    ||| '\u{9}' <= c <= '\u{d}'
    ||| c == ' '
    ||| c == '\u{85}'
    ||| c == '\u{a0}'
    ||| c == '\u{1680}'
    ||| '\u{2000}' <= c <= '\u{200a}'
    ||| c == '\u{2028}'
    ||| c == '\u{2029}'
    ||| c == '\u{202f}'
    ||| c == '\u{205f}'
    ||| c == '\u{3000}'
}

pub fn is_whitespace(c: char) -> (r: bool)
    ensures
        r == is_ws(c),
{
    ('\u{9}' <= c && c <= '\u{d}') || c == ' ' || c == '\u{85}' || c == '\u{a0}' || c
        == '\u{1680}' || ('\u{2000}' <= c && c <= '\u{200a}') || c == '\u{2028}' || c
        == '\u{2029}' || c == '\u{202f}' || c == '\u{205f}' || c == '\u{3000}'
}

/// `s` without its leading whitespace.
pub open spec fn trim_start(s: Seq<char>) -> Seq<char>
    decreases s.len(),
{
    if s.len() > 0 && is_ws(s[0]) {
        trim_start(s.drop_first())
    } else {
        s
    }
}

/// `s` without its trailing whitespace.
pub open spec fn trim_end(s: Seq<char>) -> Seq<char>
    decreases s.len(),
{
    if s.len() > 0 && is_ws(s.last()) {
        trim_end(s.drop_last())
    } else {
        s
    }
}

/// `s` without leading and trailing whitespace (`str::trim`).
pub open spec fn trim(s: Seq<char>) -> Seq<char> {
    trim_end(trim_start(s))
}

pub proof fn lemma_trim_start_skip(s: Seq<char>, i: int)
    requires
        0 <= i <= s.len(),
        forall|j: int| 0 <= j < i ==> is_ws(s[j]),
        i < s.len() ==> !is_ws(s[i]),
    ensures
        trim_start(s) == s.skip(i),
    decreases i,
{
    if i > 0 {
        lemma_trim_start_skip(s.drop_first(), i - 1);
        assert(s.drop_first().skip(i - 1) =~= s.skip(i));
    } else {
        assert(s.skip(0) =~= s);
    }
}

pub proof fn lemma_trim_end_take(s: Seq<char>, k: int)
    requires
        0 <= k <= s.len(),
        forall|j: int| k <= j < s.len() ==> is_ws(s[j]),
        k > 0 ==> !is_ws(s[k - 1]),
    ensures
        trim_end(s) == s.take(k),
    decreases s.len() - k,
{
    if k < s.len() {
        lemma_trim_end_take(s.drop_last(), k);
        assert(s.drop_last().take(k) =~= s.take(k));
    } else {
        assert(s.take(k) =~= s);
    }
}

/// The bounds `(a, b)` of `trim(s[from..to])` within `s`.
pub fn trim_bounds(s: &[char], from: usize, to: usize) -> (r: (usize, usize))
    requires
        from <= to <= s.len(),
    ensures
        from <= r.0 <= r.1 <= to,
        s@.subrange(r.0 as int, r.1 as int) == trim(s@.subrange(from as int, to as int)),
{
    let ghost t = s@.subrange(from as int, to as int);
    let mut a = from;
    while a < to && is_whitespace(s[a])
        invariant
            from <= a <= to,
            to <= s.len(),
            forall|j: int| from <= j < a ==> is_ws(s@[j]),
        decreases to - a,
    {
        a += 1;
    }
    proof {
        lemma_trim_start_skip(t, a - from);
        assert(t.skip(a - from) =~= s@.subrange(a as int, to as int));
    }
    let mut b = to;
    while b > a && is_whitespace(s[b - 1])
        invariant
            a <= b <= to,
            to <= s.len(),
            forall|j: int| b <= j < to ==> is_ws(s@[j]),
        decreases b - a,
    {
        b -= 1;
    }
    proof {
        let u = s@.subrange(a as int, to as int);
        lemma_trim_end_take(u, b - a);
        assert(u.take(b - a) =~= s@.subrange(a as int, b as int));
    }
    (a, b)
}

// ── Stripping, prefixes and splitting ───────────────────────────────

/// `s` without every leading `c` (`str::trim_start_matches`).
pub open spec fn strip_leading(s: Seq<char>, c: char) -> Seq<char>
    decreases s.len(),
{
    if s.len() > 0 && s[0] == c {
        strip_leading(s.drop_first(), c)
    } else {
        s
    }
}

/// `s` without every trailing `c` (`str::trim_end_matches`).
pub open spec fn strip_trailing(s: Seq<char>, c: char) -> Seq<char>
    decreases s.len(),
{
    if s.len() > 0 && s.last() == c {
        strip_trailing(s.drop_last(), c)
    } else {
        s
    }
}

proof fn lemma_strip_leading_skip(s: Seq<char>, c: char, i: int)
    requires
        0 <= i <= s.len(),
        forall|j: int| 0 <= j < i ==> s[j] == c,
        i < s.len() ==> s[i] != c,
    ensures
        strip_leading(s, c) == s.skip(i),
    decreases i,
{
    if i > 0 {
        lemma_strip_leading_skip(s.drop_first(), c, i - 1);
        assert(s.drop_first().skip(i - 1) =~= s.skip(i));
    } else {
        assert(s.skip(0) =~= s);
    }
}

proof fn lemma_strip_trailing_take(s: Seq<char>, c: char, k: int)
    requires
        0 <= k <= s.len(),
        forall|j: int| k <= j < s.len() ==> s[j] == c,
        k > 0 ==> s[k - 1] != c,
    ensures
        strip_trailing(s, c) == s.take(k),
    decreases s.len() - k,
{
    if k < s.len() {
        lemma_strip_trailing_take(s.drop_last(), c, k);
        assert(s.drop_last().take(k) =~= s.take(k));
    } else {
        assert(s.take(k) =~= s);
    }
}

/// The bounds `(a, b)` within `s` of `s[from..to]` with every leading `l`
/// and then every trailing `t` stripped.
pub fn strip_bounds(s: &[char], from: usize, to: usize, l: char, t: char) -> (r: (usize, usize))
    requires
        from <= to <= s.len(),
    ensures
        from <= r.0 <= r.1 <= to,
        s@.subrange(r.0 as int, r.1 as int) == strip_trailing(
            strip_leading(s@.subrange(from as int, to as int), l),
            t,
        ),
{
    let ghost u = s@.subrange(from as int, to as int);
    let mut a = from;
    while a < to && s[a] == l
        invariant
            from <= a <= to,
            to <= s.len(),
            forall|j: int| from <= j < a ==> s@[j] == l,
        decreases to - a,
    {
        a += 1;
    }
    proof {
        lemma_strip_leading_skip(u, l, a - from);
        assert(u.skip(a - from) =~= s@.subrange(a as int, to as int));
    }
    let mut b = to;
    while b > a && s[b - 1] == t
        invariant
            a <= b <= to,
            to <= s.len(),
            forall|j: int| b <= j < to ==> s@[j] == t,
        decreases b - a,
    {
        b -= 1;
    }
    proof {
        let v = s@.subrange(a as int, to as int);
        lemma_strip_trailing_take(v, t, b - a);
        assert(v.take(b - a) =~= s@.subrange(a as int, b as int));
    }
    (a, b)
}

/// The index after the leading `c`s of `s`.
pub fn skip_leading(s: &[char], c: char) -> (a: usize)
    ensures
        a <= s.len(),
        s@.skip(a as int) == strip_leading(s@, c),
{
    let mut a: usize = 0;
    while a < s.len() && s[a] == c
        invariant
            a <= s.len(),
            forall|j: int| 0 <= j < a ==> s@[j] == c,
        decreases s.len() - a,
    {
        a += 1;
    }
    proof {
        lemma_strip_leading_skip(s@, c, a as int);
    }
    a
}

/// `p` is a prefix of `s` (`str::starts_with`).
pub open spec fn has_prefix(s: Seq<char>, p: Seq<char>) -> bool {
    p.len() <= s.len() && s.take(p.len() as int) == p
}

/// Whether `s` begins with `p`.
pub fn starts_with_chars(s: &[char], p: &[char]) -> (r: bool)
    ensures
        r == has_prefix(s@, p@),
{
    if p.len() > s.len() {
        return false;
    }
    let mut i: usize = 0;
    while i < p.len()
        invariant
            i <= p.len() <= s.len(),
            forall|j: int| 0 <= j < i ==> s@[j] == p@[j],
        decreases p.len() - i,
    {
        if s[i] != p[i] {
            assert(s@.take(p@.len() as int)[i as int] != p@[i as int]);
            return false;
        }
        i += 1;
    }
    assert(s@.take(p@.len() as int) =~= p@);
    true
}

/// The index of the first whitespace character, or the length.
pub open spec fn find_ws(s: Seq<char>) -> int
    decreases s.len(),
{
    if s.len() == 0 {
        0
    } else if is_ws(s[0]) {
        0
    } else {
        1 + find_ws(s.drop_first())
    }
}

pub proof fn lemma_find_ws(s: Seq<char>)
    ensures
        0 <= find_ws(s) <= s.len(),
        forall|j: int| 0 <= j < find_ws(s) ==> !is_ws(s[j]),
        find_ws(s) < s.len() ==> is_ws(s[find_ws(s)]),
    decreases s.len(),
{
    if s.len() > 0 && !is_ws(s[0]) {
        lemma_find_ws(s.drop_first());
        assert forall|j: int| 0 <= j < find_ws(s) implies !is_ws(s[j]) by {
            if j > 0 {
                assert(s[j] == s.drop_first()[j - 1]);
            }
        }
    }
}

proof fn lemma_find_ws_unique(s: Seq<char>, i: int)
    requires
        0 <= i <= s.len(),
        forall|j: int| 0 <= j < i ==> !is_ws(s[j]),
        i < s.len() ==> is_ws(s[i]),
    ensures
        find_ws(s) == i,
{
    lemma_find_ws(s);
    if find_ws(s) < i {
        assert(is_ws(s[find_ws(s)]));
    }
    if find_ws(s) > i {
        assert(!is_ws(s[i]));
    }
}

/// The whitespace-separated words of `s` (`str::split_whitespace`).
pub open spec fn split_ws(s: Seq<char>) -> Seq<Seq<char>>
    decreases s.len(),
{
    let t = trim_start(s);
    if t.len() == 0 {
        Seq::empty()
    } else {
        let k = find_ws(t);
        proof {
            lemma_trim_start_len(s);
            lemma_find_ws(t);
        }
        seq![t.take(k)] + split_ws(t.skip(k))
    }
}

pub proof fn lemma_trim_start_len(s: Seq<char>)
    ensures
        trim_start(s).len() <= s.len(),
        trim_start(s).len() > 0 ==> !is_ws(trim_start(s)[0]),
    decreases s.len(),
{
    if s.len() > 0 && is_ws(s[0]) {
        lemma_trim_start_len(s.drop_first());
    }
}

/// The whitespace-separated words of `s[from..to]`, each as a `String`.
pub fn split_whitespace_chars(s: &[char], from: usize, to: usize) -> (r: Vec<String>)
    requires
        from <= to <= s.len(),
    ensures
        r@.len() == split_ws(s@.subrange(from as int, to as int)).len(),
        forall|i: int|
            0 <= i < r@.len() ==> #[trigger] r@[i]@ == split_ws(
                s@.subrange(from as int, to as int),
            )[i],
{
    let mut out: Vec<String> = Vec::new();
    let mut pos = from;
    loop
        invariant
            from <= pos <= to <= s.len(),
            split_ws(s@.subrange(from as int, to as int)).len() == out@.len() + split_ws(
                s@.subrange(pos as int, to as int),
            ).len(),
            forall|i: int|
                0 <= i < out@.len() ==> #[trigger] out@[i]@ == split_ws(
                    s@.subrange(from as int, to as int),
                )[i],
            forall|i: int|
                0 <= i < split_ws(s@.subrange(pos as int, to as int)).len() ==> split_ws(
                    s@.subrange(from as int, to as int),
                )[out@.len() + i] == #[trigger] split_ws(s@.subrange(pos as int, to as int))[i],
        decreases to - pos,
    {
        let ghost u = s@.subrange(pos as int, to as int);
        let mut a = pos;
        while a < to && is_whitespace(s[a])
            invariant
                pos <= a <= to,
                to <= s.len(),
                forall|j: int| pos <= j < a ==> is_ws(s@[j]),
            decreases to - a,
        {
            a += 1;
        }
        proof {
            lemma_trim_start_skip(u, a - pos);
            assert(u.skip(a - pos) =~= s@.subrange(a as int, to as int));
        }
        if a == to {
            assert(split_ws(u).len() == 0);
            return out;
        }
        let mut b = a;
        while b < to && !is_whitespace(s[b])
            invariant
                a <= b <= to,
                to <= s.len(),
                forall|j: int| a <= j < b ==> !is_ws(s@[j]),
            decreases to - b,
        {
            b += 1;
        }
        let ghost t = s@.subrange(a as int, to as int);
        proof {
            lemma_find_ws_unique(t, b - a);
            assert(t.take(b - a) =~= s@.subrange(a as int, b as int));
            assert(t.skip(b - a) =~= s@.subrange(b as int, to as int));
            assert(split_ws(u) =~= seq![s@.subrange(a as int, b as int)] + split_ws(
                s@.subrange(b as int, to as int),
            ));
        }
        let mut w: Vec<char> = Vec::new();
        let mut k = a;
        while k < b
            invariant
                a <= k <= b <= s.len(),
                w@ == s@.subrange(a as int, k as int),
            decreases b - k,
        {
            w.push(s[k]);
            k += 1;
            assert(w@ =~= s@.subrange(a as int, k as int));
        }
        let ws = string_from_chars(&w);
        let ghost n = out@.len();
        out.push(ws);
        proof {
            let v = split_ws(s@.subrange(b as int, to as int));
            assert forall|i: int| 0 <= i < v.len() implies split_ws(
                s@.subrange(from as int, to as int),
            )[out@.len() + i] == #[trigger] v[i] by {
                assert(split_ws(u)[i + 1] == v[i]);
            }
            assert(split_ws(u)[0] == w@);
        }
        pos = b;
    }
}

/// The non-empty parts of `s` between occurrences of `c`.
pub open spec fn split_nonempty(s: Seq<char>, c: char) -> Seq<Seq<char>>
    decreases s.len(),
{
    let k = find_char(s, c);
    let head: Seq<Seq<char>> = if k == 0 {
        Seq::empty()
    } else {
        seq![s.take(k)]
    };
    if k < s.len() {
        proof {
            lemma_find_char(s, c);
        }
        head + split_nonempty(s.skip(k + 1), c)
    } else {
        head
    }
}

} // verus!
