//! CAPABILITY, ID, LOGIN, LOGOUT, STARTTLS, AUTHENTICATE (SASL PLAIN) and
//! UNAUTHENTICATE.
use vstd::prelude::*;
use vstd::string::StringSliceAdditionalSpecFns;
use vstd::utf8::{encode_utf8, valid_utf8, decode_utf8};
use crate::codec::{
    crlf_ok, crlf_result, run_result, span, lemma_span, find_byte, status_bytes, capability_status_bytes, caps_bytes, ByteClass, AsyncDecoder, quoted_bytes,
};
use crate::conn::{Conn, strings_utf8};
use crate::error::{ImapError, ImapResult, is_bad, is_no};
use crate::text::{latin1, chars_of, chars_eq, utf8_string};
use crate::types::{ConnState, caps_sorted};
use crate::cmd::noop::only_decoder_moved;
use crate::cmd::select::{pair_line_ok, pair_line_read, read_astring_pair};
use crate::writer::lit;

verus! {

// ── SASL PLAIN ──────────────────────────────────────────────────────

/// The value of a base64 character (standard alphabet).
pub open spec fn b64_value(b: u8) -> Option<nat> {
    if 65 <= b <= 90 {
        Some((b - 65) as nat)
    } else if 97 <= b <= 122 {
        Some((b - 97 + 26) as nat)
    } else if 48 <= b <= 57 {
        Some((b - 48 + 52) as nat)
    } else if b == 43 {
        Some(62)
    } else if b == 47 {
        Some(63)
    } else {
        None
    }
}

/// Two to the power `n`.
pub open spec fn p2(n: nat) -> nat
    decreases n,
{
    if n == 0 {
        1
    } else {
        2 * p2((n - 1) as nat)
    }
}

/// Decoding state after some characters: the bytes so far and the bits
/// not yet made into a byte (their value and how many).
pub open spec fn b64_step(st: (Seq<u8>, nat, nat), v: nat) -> (Seq<u8>, nat, nat) {
    let buf = st.1 * 64 + v;
    let bits = st.2 + 6;
    if bits >= 8 {
        let nb = (bits - 8) as nat;
        (st.0.push((buf / p2(nb)) as u8), buf % p2(nb), nb)
    } else {
        (st.0, buf, bits)
    }
}

/// The decoding state after the characters of `s`; `None` when one of them
/// is not a base64 character.
pub open spec fn b64_run(s: Seq<u8>) -> Option<(Seq<u8>, nat, nat)>
    decreases s.len(),
{
    if s.len() == 0 {
        Some((Seq::empty(), 0, 0))
    } else {
        match b64_run(s.drop_last()) {
            None => None,
            Some(st) => match b64_value(s.last()) {
                None => None,
                Some(v) => Some(b64_step(st, v)),
            },
        }
    }
}

/// Base64 decoding (standard alphabet, padding not required): the
/// characters before the first `=` are decoded, the bits left over are
/// dropped; `None` when one of them is not a base64 character.
pub open spec fn base64_spec(s: Seq<u8>) -> Option<Seq<u8>> {
    match b64_run(s.take(find_byte(s, 61) as int)) {
        Some(st) => Some(st.0),
        None => None,
    }
}

fn b64_val(b: u8) -> (r: Option<u32>)
    ensures
        match b64_value(b) {
            Some(v) => r == Some(v as u32),
            None => r is None,
        },
{
    if 65 <= b && b <= 90 {
        Some((b - 65) as u32)
    } else if 97 <= b && b <= 122 {
        Some((b - 97 + 26) as u32)
    } else if 48 <= b && b <= 57 {
        Some((b - 48 + 52) as u32)
    } else if b == 43u8 {
        Some(62)
    } else if b == 47u8 {
        Some(63)
    } else {
        None
    }
}

fn pow2_small(n: u32) -> (r: u32)
    requires
        n < 8,
    ensures
        r == p2(n as nat),
{
    proof {
        reveal_with_fuel(p2, 8);
    }
    if n == 0 {
        1
    } else if n == 1 {
        2
    } else if n == 2 {
        4
    } else if n == 3 {
        8
    } else if n == 4 {
        16
    } else if n == 5 {
        32
    } else if n == 6 {
        64
    } else {
        128
    }
}

proof fn lemma_p2_small(n: nat)
    requires
        n < 8,
    ensures
        1 <= p2(n) <= 128,
{
    reveal_with_fuel(p2, 8);
}

/// Decodes base64 (standard alphabet, no padding required); `Err` on a
/// character outside the alphabet before the first `=`.
pub fn base64_decode(s: &str) -> (r: Result<Vec<u8>, ()>)
    ensures
        match base64_spec(s.spec_bytes()) {
            Some(out) => r is Ok && r->Ok_0@ == out,
            None => r is Err,
        },
{
    let bytes = s.as_bytes();
    let ghost e = bytes@.take(find_byte(bytes@, 61) as int);
    let mut out: Vec<u8> = Vec::new();
    let mut buf: u32 = 0;
    let mut bits: u32 = 0;
    let mut i: usize = 0;
    proof {
        assert(bytes@.take(0) =~= Seq::<u8>::empty());
    }
    while i < bytes.len()
        invariant
            i <= bytes.len(),
            bytes@ == s.spec_bytes(),
            i <= find_byte(bytes@, 61),
            e == bytes@.take(find_byte(bytes@, 61) as int),
            forall|j: int| 0 <= j < i ==> bytes@[j] != 61,
            b64_run(bytes@.take(i as int)) == Some((out@, buf as nat, bits as nat)),
            bits < 8,
            buf < p2(bits as nat),
        decreases bytes.len() - i,
    {
        let b = bytes[i];
        if b == 61u8 {
            proof {
                lemma_find_byte_at_pub(bytes@, 61, i as int);
                assert(e =~= bytes@.take(i as int));
            }
            return Ok(out);
        }
        proof {
            lemma_find_byte_past(bytes@, 61, i as int);
        }
        let v = match b64_val(b) {
            Some(v) => v,
            None => {
                proof {
                    assert(bytes@.take(i + 1).drop_last() =~= bytes@.take(i as int));
                    lemma_find_byte_le_pub(bytes@, 61);
                    assert(e.take(i + 1) =~= bytes@.take(i + 1));
                    lemma_b64_run_prefix(e, i + 1);
                }
                return Err(());
            },
        };
        proof {
            lemma_p2_small(bits as nat);
            assert(bytes@.take(i + 1).drop_last() =~= bytes@.take(i as int));
        }
        let nbuf = buf * 64 + v;
        let nbits = bits + 6;
        if nbits >= 8 {
            let nb = nbits - 8;
            let d = pow2_small(nb);
            proof {
                lemma_p2_small(nb as nat);
                reveal_with_fuel(p2, 3);
                assert(p2(bits as nat) == 2 * p2((bits - 1) as nat));
                assert(p2((bits - 1) as nat) == 2 * p2(nb as nat));
            }
            let byte = nbuf / d;
            assert(byte < 256) by (nonlinear_arith)
                requires
                    nbuf < 128 * 64 + 64,
                    d == p2(nb as nat),
                    nb == bits - 2,
                    bits >= 2,
                    bits < 8,
                    buf < p2(bits as nat),
                    nbuf == buf * 64 + v,
                    v < 64,
                    p2(bits as nat) == 4 * p2(nb as nat),
                    d >= 1,
                    byte == nbuf / d,
            {
                assert(buf + 1 <= 4 * d);
                assert(nbuf < (buf + 1) * 64);
                assert(nbuf < 256 * d);
            }
            out.push(byte as u8);
            buf = nbuf % d;
            bits = nb;
        } else {
            buf = nbuf;
            bits = nbits;
            proof {
                reveal_with_fuel(p2, 8);
            }
        }
        i += 1;
    }
    proof {
        lemma_find_byte_end_pub(bytes@, 61);
        assert(e =~= bytes@.take(i as int));
    }
    Ok(out)
}

pub proof fn lemma_find_byte_at_pub(s: Seq<u8>, b: u8, i: int)
    requires
        0 <= i < s.len(),
        s[i] == b,
        forall|j: int| 0 <= j < i ==> s[j] != b,
    ensures
        find_byte(s, b) == i,
    decreases i,
{
    if i > 0 {
        lemma_find_byte_at_pub(s.drop_first(), b, i - 1);
    }
}

proof fn lemma_find_byte_past(s: Seq<u8>, b: u8, i: int)
    requires
        0 <= i < s.len(),
        s[i] != b,
        forall|j: int| 0 <= j < i ==> s[j] != b,
    ensures
        find_byte(s, b) > i,
    decreases i,
{
    if i > 0 {
        lemma_find_byte_past(s.drop_first(), b, i - 1);
    }
}

pub proof fn lemma_find_byte_end_pub(s: Seq<u8>, b: u8)
    requires
        forall|j: int| 0 <= j < s.len() ==> s[j] != b,
    ensures
        find_byte(s, b) == s.len(),
    decreases s.len(),
{
    if s.len() > 0 {
        lemma_find_byte_end_pub(s.drop_first(), b);
    }
}

pub proof fn lemma_find_byte_le_pub(s: Seq<u8>, b: u8)
    ensures
        find_byte(s, b) <= s.len(),
    decreases s.len(),
{
    if s.len() > 0 {
        lemma_find_byte_le_pub(s.drop_first(), b);
    }
}

/// A failed character stays failed in every longer prefix.
proof fn lemma_b64_run_prefix(s: Seq<u8>, k: int)
    requires
        0 <= k <= s.len(),
        b64_run(s.take(k)) is None,
    ensures
        b64_run(s) is None,
    decreases s.len() - k,
{
    if k < s.len() {
        assert(s.take(k + 1).drop_last() =~= s.take(k));
        lemma_b64_run_prefix(s, k + 1);
    } else {
        assert(s.take(k) =~= s);
    }
}


/// The decoding fails exactly when one of the characters is not a base64
/// character.
proof fn lemma_b64_run_none(s: Seq<u8>)
    ensures
        b64_run(s) is None <==> exists|j: int| 0 <= j < s.len() && #[trigger] b64_value(s[j]) is None,
    decreases s.len(),
{
    if s.len() > 0 {
        let p = s.drop_last();
        lemma_b64_run_none(p);
        if exists|j: int| 0 <= j < p.len() && #[trigger] b64_value(p[j]) is None {
            let j = choose|j: int| 0 <= j < p.len() && #[trigger] b64_value(p[j]) is None;
            assert(s[j] == p[j]);
        }
        if exists|j: int| 0 <= j < s.len() && #[trigger] b64_value(s[j]) is None {
            let j = choose|j: int| 0 <= j < s.len() && #[trigger] b64_value(s[j]) is None;
            if j < p.len() {
                assert(s[j] == p[j]);
            }
        }
    }
}

/// Law: `base64_decode` fails exactly when a byte before the first `=`
/// is not a base64 character (A-Z, a-z, 0-9, `+`, `/`).
pub proof fn law_base64_fails(s: Seq<u8>)
    ensures
        base64_spec(s) is None <==> exists|j: int| 0 <= j < find_byte(s, 61) && #[trigger] b64_value(s[j]) is None,
{
    let k = find_byte(s, 61) as int;
    lemma_find_byte_le_pub(s, 61);
    let t = s.take(k);
    lemma_b64_run_none(t);
    if exists|j: int| 0 <= j < k && #[trigger] b64_value(s[j]) is None {
        let j = choose|j: int| 0 <= j < k && #[trigger] b64_value(s[j]) is None;
        assert(t[j] == s[j]);
    }
    if exists|j: int| 0 <= j < t.len() && #[trigger] b64_value(t[j]) is None {
        let j = choose|j: int| 0 <= j < t.len() && #[trigger] b64_value(t[j]) is None;
        assert(t[j] == s[j]);
    }
}

// ── Standard base64 encoding, for the round trip ────────────────────

/// The base64 character of a 6-bit value (standard alphabet).
pub open spec fn b64_char(v: nat) -> u8 {
    if v < 26 {
        (65 + v) as u8
    } else if v < 52 {
        (97 + v - 26) as u8
    } else if v < 62 {
        (48 + v - 52) as u8
    } else if v == 62 {
        43
    } else {
        47
    }
}

/// Three bytes as four characters.
pub open spec fn b64_group(x: u8, y: u8, z: u8) -> Seq<u8> {
    seq![
        b64_char(x as nat / 4),
        b64_char((x as nat % 4) * 16 + y as nat / 16),
        b64_char((y as nat % 16) * 4 + z as nat / 64),
        b64_char(z as nat % 64),
    ]
}

/// The characters of the whole groups of three bytes at the start of `b`.
pub open spec fn b64_groups(b: Seq<u8>) -> Seq<u8>
    decreases b.len(),
{
    if b.len() < 3 {
        Seq::empty()
    } else {
        let n = b.len() - 3;
        b64_groups(b.take(n)) + b64_group(b[n], b[n + 1], b[n + 2])
    }
}

/// The last one or two bytes as two or three characters (no padding).
pub open spec fn b64_tail(t: Seq<u8>) -> Seq<u8> {
    if t.len() == 1 {
        seq![b64_char(t[0] as nat / 4), b64_char((t[0] as nat % 4) * 16)]
    } else if t.len() == 2 {
        seq![
            b64_char(t[0] as nat / 4),
            b64_char((t[0] as nat % 4) * 16 + t[1] as nat / 16),
            b64_char((t[1] as nat % 16) * 4),
        ]
    } else {
        Seq::empty()
    }
}

/// Standard base64 encoding of `b` without `=` padding.
pub open spec fn b64_encode_unpadded(b: Seq<u8>) -> Seq<u8> {
    let full = b.len() - b.len() % 3;
    b64_groups(b.take(full)) + b64_tail(b.skip(full))
}

/// Standard base64 encoding of `b`, padded with `=` to a multiple of four
/// characters.
pub open spec fn b64_encode(b: Seq<u8>) -> Seq<u8> {
    b64_encode_unpadded(b) + if b.len() % 3 == 1 {
        seq![61u8, 61u8]
    } else if b.len() % 3 == 2 {
        seq![61u8]
    } else {
        Seq::<u8>::empty()
    }
}

proof fn lemma_b64_char(v: nat)
    requires
        v < 64,
    ensures
        b64_value(b64_char(v)) == Some(v),
        b64_char(v) != 61,
{
}

/// One more character is one more decoding step.
proof fn lemma_b64_run_push(s: Seq<u8>, c: u8)
    ensures
        b64_run(s.push(c)) == match b64_run(s) {
            None => None,
            Some(st) => match b64_value(c) {
                None => None,
                Some(v) => Some(b64_step(st, v)),
            },
        },
{
    assert(s.push(c).drop_last() =~= s);
}

/// Four characters of a group after whole groups decode its three bytes.
proof fn lemma_b64_run_group(p: Seq<u8>, out: Seq<u8>, x: u8, y: u8, z: u8)
    requires
        b64_run(p) == Some((out, 0nat, 0nat)),
    ensures
        b64_run(p + b64_group(x, y, z)) == Some((out.push(x).push(y).push(z), 0nat, 0nat)),
{
    reveal_with_fuel(p2, 5);
    let g = b64_group(x, y, z);
    let v1 = x as nat / 4;
    let v2 = (x as nat % 4) * 16 + y as nat / 16;
    let v3 = (y as nat % 16) * 4 + z as nat / 64;
    let v4 = z as nat % 64;
    lemma_b64_char(v1);
    lemma_b64_char(v2);
    lemma_b64_char(v3);
    lemma_b64_char(v4);
    let p1 = p.push(g[0]);
    let p2_ = p1.push(g[1]);
    let p3 = p2_.push(g[2]);
    assert(p + g =~= p3.push(g[3]));
    lemma_b64_run_push(p, g[0]);
    lemma_b64_run_push(p1, g[1]);
    lemma_b64_run_push(p2_, g[2]);
    lemma_b64_run_push(p3, g[3]);
    assert(v1 * 64 + v2 == x as nat * 16 + y as nat / 16);
    assert((x as nat * 16 + y as nat / 16) / 16 == x as nat);
    assert((x as nat * 16 + y as nat / 16) % 16 == y as nat / 16);
    assert((y as nat / 16) * 64 + v3 == y as nat * 4 + z as nat / 64);
    assert((y as nat * 4 + z as nat / 64) / 4 == y as nat);
    assert((y as nat * 4 + z as nat / 64) % 4 == z as nat / 64);
    assert((z as nat / 64) * 64 + v4 == z as nat);
    assert(p2(4) == 16 && p2(2) == 4 && p2(0) == 1);
    let st1 = b64_step((out, 0nat, 0nat), v1);
    assert(st1 == (out, v1, 6nat));
    let st2 = b64_step(st1, v2);
    assert(st2 == (out.push(x), y as nat / 16, 4nat));
    let st3 = b64_step(st2, v3);
    assert(st3 == (out.push(x).push(y), z as nat / 64, 2nat));
    let st4 = b64_step(st3, v4);
    assert(st4 == (out.push(x).push(y).push(z), 0nat, 0nat));
}

/// The whole groups decode to their bytes, with no bits left over.
proof fn lemma_b64_run_groups(b: Seq<u8>)
    requires
        b.len() % 3 == 0,
    ensures
        b64_run(b64_groups(b)) == Some((b, 0nat, 0nat)),
    decreases b.len(),
{
    if b.len() < 3 {
        assert(b =~= Seq::<u8>::empty());
        assert(b64_groups(b) =~= Seq::<u8>::empty());
    } else {
        let n = (b.len() - 3) as int;
        let q = b.take(n);
        lemma_b64_run_groups(q);
        lemma_b64_run_group(b64_groups(q), q, b[n], b[n + 1], b[n + 2]);
        assert(q.push(b[n]).push(b[n + 1]).push(b[n + 2]) =~= b);
    }
}

/// The last one or two bytes decode from their characters.
proof fn lemma_b64_run_tail(p: Seq<u8>, out: Seq<u8>, t: Seq<u8>)
    requires
        b64_run(p) == Some((out, 0nat, 0nat)),
        t.len() < 3,
    ensures
        b64_run(p + b64_tail(t)) matches Some(st) && st.0 == out + t,
{
    reveal_with_fuel(p2, 5);
    if t.len() == 0 {
        assert(p + b64_tail(t) =~= p);
        assert(out + t =~= out);
    } else if t.len() == 1 {
        let x = t[0];
        let g = b64_tail(t);
        lemma_b64_char(x as nat / 4);
        lemma_b64_char((x as nat % 4) * 16);
        assert(p + g =~= p.push(g[0]).push(g[1]));
        lemma_b64_run_push(p, g[0]);
        lemma_b64_run_push(p.push(g[0]), g[1]);
        assert((x as nat / 4) * 64 + (x as nat % 4) * 16 == x as nat * 16);
        assert((x as nat * 16) / 16 == x as nat);
        assert(out.push(x) =~= out + t);
    } else {
        let x = t[0];
        let y = t[1];
        let g = b64_tail(t);
        lemma_b64_char(x as nat / 4);
        lemma_b64_char((x as nat % 4) * 16 + y as nat / 16);
        lemma_b64_char((y as nat % 16) * 4);
        assert(p + g =~= p.push(g[0]).push(g[1]).push(g[2]));
        lemma_b64_run_push(p, g[0]);
        lemma_b64_run_push(p.push(g[0]), g[1]);
        lemma_b64_run_push(p.push(g[0]).push(g[1]), g[2]);
        assert((x as nat / 4) * 64 + (x as nat % 4) * 16 + y as nat / 16 == x as nat * 16 + y as nat / 16);
        assert((x as nat * 16 + y as nat / 16) / 16 == x as nat);
        assert((x as nat * 16 + y as nat / 16) % 16 == y as nat / 16);
        assert((y as nat / 16) * 64 + (y as nat % 16) * 4 == y as nat * 4);
        assert((y as nat * 4) / 4 == y as nat);
        assert(out.push(x).push(y) =~= out + t);
    }
}

/// No character of an encoding is `=`.
proof fn lemma_b64_no_pad(b: Seq<u8>)
    ensures
        forall|j: int| 0 <= j < b64_encode_unpadded(b).len() ==> #[trigger] b64_encode_unpadded(b)[j] != 61,
{
    lemma_b64_groups_no_pad(b.take(b.len() - b.len() % 3));
    let t = b.skip(b.len() - b.len() % 3);
    if t.len() == 1 {
        lemma_b64_char(t[0] as nat / 4);
        lemma_b64_char((t[0] as nat % 4) * 16);
    } else if t.len() == 2 {
        lemma_b64_char(t[0] as nat / 4);
        lemma_b64_char((t[0] as nat % 4) * 16 + t[1] as nat / 16);
        lemma_b64_char((t[1] as nat % 16) * 4);
    }
    let g = b64_groups(b.take(b.len() - b.len() % 3));
    let e = b64_encode_unpadded(b);
    assert forall|j: int| 0 <= j < e.len() implies #[trigger] e[j] != 61 by {
        if j < g.len() {
            assert(e[j] == g[j]);
        } else {
            assert(e[j] == b64_tail(t)[j - g.len()]);
        }
    }
}

/// No character of the whole groups is `=`.
proof fn lemma_b64_groups_no_pad(b: Seq<u8>)
    ensures
        forall|j: int| 0 <= j < b64_groups(b).len() ==> #[trigger] b64_groups(b)[j] != 61,
    decreases b.len(),
{
    if b.len() >= 3 {
        let n = (b.len() - 3) as int;
        let q = b.take(n);
        lemma_b64_groups_no_pad(q);
        let h = b64_groups(q);
        let g = b64_group(b[n], b[n + 1], b[n + 2]);
        lemma_b64_char(b[n] as nat / 4);
        lemma_b64_char((b[n] as nat % 4) * 16 + b[n + 1] as nat / 16);
        lemma_b64_char((b[n + 1] as nat % 16) * 4 + b[n + 2] as nat / 64);
        lemma_b64_char(b[n + 2] as nat % 64);
        let e = b64_groups(b);
        assert forall|j: int| 0 <= j < e.len() implies #[trigger] e[j] != 61 by {
            if j < h.len() {
                assert(e[j] == h[j]);
            } else {
                assert(e[j] == g[j - h.len()]);
            }
        }
    }
}

/// Law: base64 decoding gives back the bytes of a standard encoding, with
/// or without its `=` padding.
pub proof fn law_base64_round_trip(b: Seq<u8>)
    ensures
        base64_spec(b64_encode(b)) == Some(b),
        base64_spec(b64_encode_unpadded(b)) == Some(b),
{
    let full = (b.len() - b.len() % 3) as int;
    let q = b.take(full);
    let t = b.skip(full);
    lemma_b64_run_groups(q);
    lemma_b64_run_tail(b64_groups(q), q, t);
    assert(q + t =~= b);
    let u = b64_encode_unpadded(b);
    lemma_b64_no_pad(b);
    lemma_find_byte_end_pub(u, 61);
    assert(u.take(u.len() as int) =~= u);
    let e = b64_encode(b);
    if b.len() % 3 == 0 {
        assert(e =~= u);
    } else {
        assert(e[u.len() as int] == 61);
        assert forall|j: int| 0 <= j < u.len() implies e[j] != 61 by {
            assert(e[j] == u[j]);
        }
        lemma_find_byte_at_pub(e, 61, u.len() as int);
        assert(e.take(u.len() as int) =~= u);
    }
}

/// The fields of `s` between NUL bytes (`[u8]::split` on NUL).
pub open spec fn nul_split(s: Seq<u8>) -> Seq<Seq<u8>>
    decreases s.len(),
{
    let k = find_byte(s, 0);
    if k < s.len() {
        seq![s.take(k as int)] + nul_split(s.skip((k + 1) as int))
    } else {
        seq![s]
    }
}

/// The credentials of a SASL PLAIN response line: `*` cancels; the line is
/// base64 of `identity NUL username NUL password`; the username and the
/// password must be UTF-8; an identity (read as empty when it is not UTF-8)
/// must be empty or equal the username.
pub open spec fn sasl_plain_ok(line: Seq<char>, user: Seq<char>, pass: Seq<char>) -> bool {
    line != "*"@ && match base64_spec(encode_utf8(line)) {
        None => false,
        Some(d) => {
            let p = nul_split(d);
            &&& p.len() >= 3
            &&& valid_utf8(p[1]) && valid_utf8(p[2])
            &&& user == decode_utf8(p[1]) && pass == decode_utf8(p[2])
            &&& (!valid_utf8(p[0]) || decode_utf8(p[0]).len() == 0 || decode_utf8(p[0]) == user)
        },
    }
}

/// The error of a SASL PLAIN response line that is refused.
pub open spec fn sasl_plain_error(line: Seq<char>, e: ImapError) -> bool {
    if line == "*"@ {
        is_bad(e, None, "AUTHENTICATE cancelled"@)
    } else {
        match base64_spec(encode_utf8(line)) {
            None => is_bad(e, None, "Malformed SASL response"@),
            Some(d) => {
                let p = nul_split(d);
                if p.len() < 3 {
                    is_bad(e, None, "Malformed SASL PLAIN response"@)
                } else if !valid_utf8(p[1]) {
                    is_bad(e, None, "Invalid UTF-8 in username"@)
                } else if !valid_utf8(p[2]) {
                    is_bad(e, None, "Invalid UTF-8 in password"@)
                } else {
                    is_no(e, Some("AUTHORIZATIONFAILED"@), "SASL identity not supported"@)
                }
            },
        }
    }
}

fn find_nul(s: &[u8], from: usize) -> (r: usize)
    requires
        from <= s.len(),
    ensures
        r == from + find_byte(s@.skip(from as int), 0),
        r <= s.len(),
{
    let mut i = from;
    proof {
        assert(s@.skip(from as int).skip(0) =~= s@.skip(from as int));
    }
    while i < s.len() && s[i] != 0u8
        invariant
            from <= i <= s.len(),
            find_byte(s@.skip(from as int), 0) == (i - from) + find_byte(s@.skip(i as int), 0),
        decreases s.len() - i,
    {
        assert(s@.skip(i as int).drop_first() =~= s@.skip(i + 1));
        i += 1;
    }
    proof {
        if i == s.len() {
            assert(s@.skip(i as int).len() == 0);
        }
    }
    i
}

fn sub_bytes(s: &[u8], a: usize, b: usize) -> (r: Vec<u8>)
    requires
        a <= b <= s.len(),
    ensures
        r@ == s@.subrange(a as int, b as int),
{
    let mut r: Vec<u8> = Vec::new();
    let mut i = a;
    while i < b
        invariant
            a <= i <= b,
            b <= s.len(),
            r@ == s@.subrange(a as int, i as int),
        decreases b - i,
    {
        r.push(s[i]);
        i += 1;
        assert(r@ =~= s@.subrange(a as int, i as int));
    }
    r
}

/// The username and password of a SASL PLAIN response line.
pub fn authenticate_credentials(line: &str) -> (r: ImapResult<(String, String)>)
    ensures
        r is Ok ==> sasl_plain_ok(line@, r->Ok_0.0@, r->Ok_0.1@),
        r is Err ==> sasl_plain_error(line@, r->Err_0),
        (exists|u: Seq<char>, p: Seq<char>| sasl_plain_ok(line@, u, p)) ==> r is Ok,
{
    let lc = chars_of(line);
    let star = chars_of("*");
    if chars_eq(&lc, &star) {
        return Err(ImapError::bad("AUTHENTICATE cancelled"));
    }
    let decoded = match base64_decode(line) {
        Ok(d) => d,
        Err(_) => {
            return Err(ImapError::bad("Malformed SASL response"));
        },
    };
    let ghost d = decoded@;
    let n = decoded.len();
    let i1 = find_nul(&decoded, 0);
    proof {
        assert(d.skip(0) =~= d);
        lemma_nul_split_step(d);
    }
    if i1 >= n {
        return Err(ImapError::bad("Malformed SASL PLAIN response"));
    }
    let i2 = find_nul(&decoded, i1 + 1);
    let ghost rest1 = d.skip(i1 + 1);
    proof {
        lemma_nul_split_step(rest1);
        assert(rest1.take(i2 - (i1 + 1)) =~= d.subrange(i1 + 1, i2 as int));
    }
    if i2 >= n {
        proof {
            assert(nul_split(rest1).len() == 1);
        }
        return Err(ImapError::bad("Malformed SASL PLAIN response"));
    }
    proof {
        assert(rest1.skip((i2 - (i1 + 1)) + 1) =~= d.skip(i2 + 1));
    }
    let i3 = find_nul(&decoded, i2 + 1);
    let ghost rest2 = d.skip(i2 + 1);
    proof {
        lemma_nul_split_step(rest2);
        assert(rest2.take(i3 - (i2 + 1)) =~= d.subrange(i2 + 1, i3 as int));
        if i3 == n {
            assert(rest2 =~= d.subrange(i2 + 1, i3 as int));
        }
        let p = nul_split(d);
        assert(p[0] == d.take(i1 as int));
        assert(d.take(i1 as int) =~= d.subrange(0, i1 as int));
        assert(p[1] == d.subrange(i1 + 1, i2 as int));
        assert(p[2] == d.subrange(i2 + 1, i3 as int));
    }
    let id_bytes = sub_bytes(&decoded, 0, i1);
    let user_bytes = sub_bytes(&decoded, i1 + 1, i2);
    let pass_bytes = sub_bytes(&decoded, i2 + 1, i3);
    let identity = match utf8_string(id_bytes) {
        Some(x) => x,
        None => String::new(),
    };
    let username = match utf8_string(user_bytes) {
        Some(x) => x,
        None => {
            return Err(ImapError::bad("Invalid UTF-8 in username"));
        },
    };
    let password = match utf8_string(pass_bytes) {
        Some(x) => x,
        None => {
            return Err(ImapError::bad("Invalid UTF-8 in password"));
        },
    };
    let ic = chars_of(identity.as_str());
    let uc = chars_of(username.as_str());
    if ic.len() > 0 && !chars_eq(&ic, &uc) {
        return Err(ImapError::no_code("AUTHORIZATIONFAILED", "SASL identity not supported"));
    }
    Ok((username, password))
}

proof fn lemma_nul_split_step(s: Seq<u8>)
    ensures
        find_byte(s, 0) <= s.len(),
        find_byte(s, 0) < s.len() ==> s[find_byte(s, 0) as int] == 0 && nul_split(s) == seq![s.take(find_byte(s, 0) as int)] + nul_split(s.skip((find_byte(s, 0) + 1) as int)),
        find_byte(s, 0) == s.len() ==> nul_split(s) == seq![s],
        nul_split(s).len() >= 1,
    decreases s.len(),
{
    lemma_find_byte_le_pub(s, 0);
    if s.len() > 0 && s[0] != 0 {
        lemma_nul_split_step(s.drop_first());
        if find_byte(s, 0) < s.len() {
            assert(s[find_byte(s, 0) as int] == s.drop_first()[find_byte(s.drop_first(), 0) as int]);
        }
    }
    if find_byte(s, 0) < s.len() {
        lemma_nul_split_step(s.skip((find_byte(s, 0) + 1) as int));
    }
}


// ── Handlers ────────────────────────────────────────────────────────

/// `* CAPABILITY` and each capability after SP, CRLF.
pub open spec fn capability_line(caps: Seq<Seq<u8>>) -> Seq<u8> {
    seq![42u8, 32] + lit("CAPABILITY"@) + caps_bytes(caps) + seq![13u8, 10]
}

/// Handles CAPABILITY: `* CAPABILITY ...` (the advertised capabilities in
/// order), then `tag OK CAPABILITY completed`.
pub fn handle_capability(conn: &mut Conn, tag: &str) -> (r: ImapResult<()>)
    requires
        old(conn).wf(),
    ensures
        r is Ok,
        final(conn).wf(),
        final(conn).state == old(conn).state,
        final(conn).decoder == old(conn).decoder,
        final(conn).enabled == old(conn).enabled,
        exists|cs: Seq<Seq<char>>|
            #[trigger] caps_sorted(cs) && cs.to_set() == old(conn).caps() && final(conn).encoder@
                == old(conn).encoder@ + capability_line(strings_utf8(cs)) + status_bytes(
                tag.spec_bytes(),
                encode_utf8("OK"@),
                None,
                encode_utf8("CAPABILITY completed"@),
            ),
{
    let caps = conn.cap_strings_pub();
    let ghost cs = caps@.map_values(|s: String| s@);
    conn.encoder.special(42u8);
    conn.encoder.sp();
    conn.encoder.atom("CAPABILITY");
    let ghost mid = conn.encoder@;
    let mut i: usize = 0;
    while i < caps.len()
        invariant
            i <= caps.len(),
            cs == caps@.map_values(|s: String| s@),
            conn.encoder@ == mid + caps_bytes(strings_utf8(cs).take(i as int)),
            conn.state == old(conn).state,
            conn.decoder == old(conn).decoder,
            conn.enabled == old(conn).enabled,
        decreases caps.len() - i,
    {
        conn.encoder.sp();
        conn.encoder.atom(caps[i].as_str());
        i += 1;
        assert(strings_utf8(cs).take(i as int).drop_last() =~= strings_utf8(cs).take(i - 1));
    }
    assert(strings_utf8(cs).take(caps@.len() as int) =~= strings_utf8(cs));
    conn.encoder.crlf();
    assert(conn.encoder@ =~= old(conn).encoder@ + capability_line(strings_utf8(cs)));
    conn.write_ok(tag, "CAPABILITY completed");
    Ok(())
}

/// `* ID ("name" "yggmail")` CRLF.
pub open spec fn id_line() -> Seq<u8> {
    seq![42u8, 32] + lit("ID"@) + seq![32u8, 40] + quoted_bytes(lit("name"@)) + seq![32u8]
        + quoted_bytes(lit("yggmail"@)) + seq![41u8, 13, 10]
}

/// `k` is the first `)` of `s` after its first byte.
pub open spec fn first_close(s: Seq<u8>, k: int) -> bool {
    &&& 0 < k < s.len()
    &&& s[k] == 41
    &&& forall|j: int| 0 < j < k ==> s[j] != 41
}

/// ID's arguments as the server accepts them: a `(` and everything up to
/// the next `)`, or an atom; then the end of the line.
pub open spec fn id_args_ok(s: Seq<u8>) -> bool {
    &&& s.len() > 0
    &&& if s[0] == 40 {
        exists|k: int| #[trigger] first_close(s, k) && crlf_ok(s.skip(k + 1))
    } else {
        let n = crate::codec::span(s, ByteClass::Atom);
        0 < n < s.len() && crlf_ok(s.skip(n as int))
    }
}

/// Handles ID: the client's parameters (a parenthesized list, read up to
/// its `)`, or an atom such as NIL) are read and dropped; the server
/// answers `* ID ("name" "yggmail")` and `tag OK ID completed`.
pub fn handle_id(conn: &mut Conn, tag: &str) -> (r: ImapResult<()>)
    requires
        old(conn).wf(),
    ensures
        final(conn).wf(),
        final(conn).state == old(conn).state,
        final(conn).enabled == old(conn).enabled,
        r is Ok <==> id_args_ok(old(conn).decoder.stream()),
        r is Ok ==> final(conn).encoder@ == old(conn).encoder@ + id_line() + status_bytes(
            tag.spec_bytes(),
            encode_utf8("OK"@),
            None,
            encode_utf8("ID completed"@),
        ),
        r is Err ==> final(conn).encoder == old(conn).encoder,
{
    let ghost d0 = conn.decoder;
    let ghost s = d0.stream();
    let b = conn.decoder.read_byte()?;
    let ghost d1 = conn.decoder;
    proof {
        d0.lemma_advanced_pub(&d1, 1, false);
    }
    if b == 40u8 {
        let ghost mut i: int = 1;
        loop
            invariant_except_break
                conn.wf(),
                only_decoder_moved(*old(conn), *conn),
                d0 == old(conn).decoder,
                d0.wf(),
                s == d0.stream(),
                s.len() > 0 && s[0] == 40,
                1 <= i <= s.len(),
                d0.advanced(&conn.decoder, i as nat, false),
                conn.decoder.stream() == s.skip(i),
                forall|j: int| 0 < j < i ==> s[j] != 41,
            ensures
                conn.wf(),
                only_decoder_moved(*old(conn), *conn),
                first_close(s, i),
                d0.advanced(&conn.decoder, (i + 1) as nat, false),
            decreases conn.decoder.stream().len(),
        {
            let ghost dm = conn.decoder;
            let rb = match conn.decoder.read_byte() {
                Ok(x) => x,
                Err(e) => {
                    proof {
                        assert(i == s.len());
                        if id_args_ok(s) {
                            let k = choose|k: int| #[trigger] first_close(s, k) && crlf_ok(s.skip(k + 1));
                            assert(s[k] == 41);
                            assert(false);
                        }
                        assert(!id_args_ok(s));
                    }
                    return Err(e);
                },
            };
            proof {
                d0.lemma_advance_then_one(&dm, &conn.decoder, i as nat);
                d0.lemma_advanced_pub(&conn.decoder, (i + 1) as nat, false);
                assert(rb == s[i]);
            }
            if rb == 41u8 {
                break;
            }
            proof {
                i = i + 1;
            }
        }
        let ghost dk = conn.decoder;
        proof {
            d0.lemma_advanced_pub(&dk, (i + 1) as nat, false);
            assert forall|k: int| #[trigger] first_close(s, k) implies k == i by {
                if k < i {
                    assert(s[k] != 41);
                } else if k > i {
                    assert(s[i] != 41);
                }
            }
        }
        match conn.decoder.expect_crlf() {
            Ok(()) => {},
            Err(e) => {
                assert(!id_args_ok(s)) by {
                    if id_args_ok(s) {
                        let k = choose|k: int| #[trigger] first_close(s, k) && crlf_ok(s.skip(k + 1));
                        assert(k == i);
                    }
                }
                return Err(e);
            },
        }
        assert(id_args_ok(s)) by {
            assert(first_close(s, i));
            assert(dk.stream() == s.skip(i + 1));
            assert(crlf_ok(s.skip(i + 1)));
        }
    } else {
        conn.decoder.unread_byte(b);
        let ghost du = conn.decoder;
        assert(du.stream() =~= s);
        let atom = conn.decoder.read_atom();
        let ghost da = conn.decoder;
        assert(run_result(&du, &da, atom, ByteClass::Atom, "expected atom"@));
        if let Err(e) = atom {
            return Err(e);
        }
        proof {
            du.lemma_advanced_pub(&da, crate::codec::span(s, ByteClass::Atom), true);
        }
        conn.decoder.expect_crlf()?;
        proof {
            let n = crate::codec::span(s, ByteClass::Atom);
            crate::codec::lemma_span(s, ByteClass::Atom);
            assert(da.stream() == s.skip(n as int));
            assert(crlf_ok(s.skip(n as int)));
            assert(s[0] != 40);
        }
        assert(id_args_ok(s));
    }
    assert(id_args_ok(s));
    conn.encoder.special(42u8);
    conn.encoder.sp();
    conn.encoder.atom("ID");
    conn.encoder.sp();
    conn.encoder.special(40u8);
    conn.encoder.quoted("name");
    conn.encoder.sp();
    conn.encoder.quoted("yggmail");
    conn.encoder.special(41u8);
    conn.encoder.crlf();
    assert(conn.encoder@ =~= old(conn).encoder@ + id_line());
    conn.write_ok(tag, "ID completed");
    Ok(())
}

/// The guards of LOGIN and AUTHENTICATE: not yet authenticated, and
/// authentication allowed on this connection.
pub open spec fn auth_guard_error(conn: Conn, e: ImapError) -> bool {
    if conn.state != ConnState::NotAuthenticated {
        is_bad(e, None, "Already authenticated"@)
    } else {
        is_no(e, Some("PRIVACYREQUIRED"@), "TLS is required to authenticate"@)
    }
}

/// Reads LOGIN's arguments: `username SP password`, each an astring, and
/// the end of the line.
pub fn login_args(conn: &mut Conn) -> (r: ImapResult<(String, String)>)
    requires
        old(conn).wf(),
    ensures
        final(conn).wf(),
        only_decoder_moved(*old(conn), *final(conn)),
        (old(conn).state != ConnState::NotAuthenticated || !old(conn).insecure_auth) ==> r is Err
            && auth_guard_error(*old(conn), r->Err_0) && final(conn).decoder == old(conn).decoder,
        (old(conn).state == ConnState::NotAuthenticated && old(conn).insecure_auth) ==> (r is Ok <==> pair_line_ok(
            old(conn).decoder,
            ByteClass::AString,
            "expected astring"@,
        )),
        r matches Ok(v) ==> pair_line_read(
            old(conn).decoder,
            final(conn).decoder,
            v.0,
            v.1,
            ByteClass::AString,
            "expected astring"@,
        ),
{
    if conn.state != ConnState::NotAuthenticated {
        return Err(ImapError::bad("Already authenticated"));
    }
    if !conn.can_auth() {
        return Err(ImapError::no_code("PRIVACYREQUIRED", "TLS is required to authenticate"));
    }
    read_astring_pair(conn, false)
}

/// The text of the OK that ends a successful AUTHENTICATE.
pub fn auth_success_text(mechanism: &str) -> (r: String)
    ensures
        r@ == mechanism@ + " authentication successful"@,
{
    let mut text = String::from_str(mechanism);
    text.append(" authentication successful");
    text
}

/// What a login's outcome becomes: on success the connection is
/// authenticated and `tag OK [CAPABILITY ...] text` is written; a NO from
/// the mail store becomes NO [AUTHENTICATIONFAILED]; other errors stay.
pub fn login_done(conn: &mut Conn, tag: &str, text: &str, result: ImapResult<()>) -> (r: ImapResult<()>)
    requires
        old(conn).wf(),
    ensures
        final(conn).wf(),
        final(conn).decoder == old(conn).decoder,
        final(conn).enabled == old(conn).enabled,
        result is Ok ==> r is Ok && final(conn).state == ConnState::Authenticated && exists|cs: Seq<Seq<char>>|
            #[trigger] caps_sorted(cs) && cs.to_set() == final(conn).caps() && final(conn).encoder@
                == old(conn).encoder@ + capability_status_bytes(
                tag.spec_bytes(),
                encode_utf8("OK"@),
                strings_utf8(cs),
                text.spec_bytes(),
            ),
        result matches Err(ImapError::No { .. }) ==> r is Err && is_no(r->Err_0, Some("AUTHENTICATIONFAILED"@), "Authentication failed"@)
            && *final(conn) == *old(conn),
        result is Err && !(result matches Err(ImapError::No { .. })) ==> r == result && *final(conn) == *old(conn),
{
    match result {
        Ok(()) => {
            conn.state = ConnState::Authenticated;
            let caps = conn.cap_strings_pub();
            conn.encoder.write_capability_status(tag, "OK", &caps, text);
            proof {
                let cs = caps@.map_values(|s: String| s@);
                assert(caps@.map_values(|c: String| encode_utf8(c@)) =~= strings_utf8(cs));
            }
            Ok(())
        },
        Err(ImapError::No { .. }) => Err(ImapError::no_code("AUTHENTICATIONFAILED", "Authentication failed")),
        Err(e) => Err(e),
    }
}

/// Handles LOGOUT: `* BYE Logging out`, the Logout state, then
/// `tag OK LOGOUT completed`.
pub fn handle_logout(conn: &mut Conn, tag: &str) -> (r: ImapResult<()>)
    ensures
        r is Ok,
        final(conn).state == ConnState::Logout,
        final(conn).decoder == old(conn).decoder,
        final(conn).enabled == old(conn).enabled,
        final(conn).encoder@ == old(conn).encoder@ + status_bytes(
            encode_utf8("*"@),
            encode_utf8("BYE"@),
            None,
            encode_utf8("Logging out"@),
        ) + status_bytes(tag.spec_bytes(), encode_utf8("OK"@), None, encode_utf8("LOGOUT completed"@)),
{
    conn.write_bye("Logging out");
    conn.write_ok(tag, "LOGOUT completed");
    Ok(())
}

/// Handles STARTTLS: refused after login or when TLS is not offered;
/// otherwise `+ Ready to start TLS` is written and the command fails, as
/// the upgrade of the stream is not implemented.
pub fn handle_starttls(conn: &mut Conn, tag: &str) -> (r: ImapResult<()>)
    ensures
        r is Err,
        final(conn).state == old(conn).state,
        final(conn).decoder == old(conn).decoder,
        final(conn).enabled == old(conn).enabled,
        old(conn).state != ConnState::NotAuthenticated ==> is_bad(r->Err_0, None, "STARTTLS not allowed in this state"@)
            && final(conn).encoder == old(conn).encoder,
        old(conn).state == ConnState::NotAuthenticated && !old(conn).tls_available ==> is_bad(r->Err_0, None, "STARTTLS not available"@)
            && final(conn).encoder == old(conn).encoder,
        old(conn).state == ConnState::NotAuthenticated && old(conn).tls_available ==> is_bad(r->Err_0, None, "STARTTLS not implemented in this version"@)
            && final(conn).encoder@ == old(conn).encoder@ + seq![43u8, 32] + encode_utf8("Ready to start TLS"@) + seq![13u8, 10],
{
    if conn.state != ConnState::NotAuthenticated {
        return Err(ImapError::bad("STARTTLS not allowed in this state"));
    }
    if !conn.tls_available {
        return Err(ImapError::bad("STARTTLS not available"));
    }
    conn.write_continuation("Ready to start TLS");
    Err(ImapError::bad("STARTTLS not implemented in this version"))
}

/// The start of AUTHENTICATE: the mechanism, and the initial response when
/// the client sent one on the command line (SASL-IR).
pub struct AuthStart {
    pub mechanism: String,
    pub initial: Option<String>,
}

/// AUTHENTICATE's line after the command name, as the server accepts it:
/// the mechanism atom, PLAIN in any case; then either the end of the line,
/// or one byte (the SP) and an initial response up to the end of the line.
pub open spec fn auth_args_ok(s: Seq<u8>) -> bool {
    let n = span(s, ByteClass::Atom);
    let t = s.skip(n as int);
    &&& 0 < n < s.len()
    &&& upper_chars_eq_plain(latin1(s.take(n as int)))
    &&& if t[0] == 13 || t[0] == 10 {
        crlf_ok(t)
    } else {
        let u = t.skip(1);
        let m = span(u, ByteClass::Text);
        m < u.len() && crlf_ok(u.skip(m as int))
    }
}

/// The mechanism named at the start of `s`.
pub open spec fn auth_mechanism(s: Seq<u8>) -> Seq<char> {
    latin1(s.take(span(s, ByteClass::Atom) as int))
}

/// The initial response on AUTHENTICATE's line, if the line goes on after
/// the mechanism.
pub open spec fn auth_initial(s: Seq<u8>) -> Option<Seq<char>> {
    let t = s.skip(span(s, ByteClass::Atom) as int);
    if t[0] == 13 || t[0] == 10 {
        None
    } else {
        let u = t.skip(1);
        Some(latin1(u.take(span(u, ByteClass::Text) as int)))
    }
}

/// Reads AUTHENTICATE's arguments. Only PLAIN is supported: for another
/// mechanism the rest of the line is read and NO is returned. With an
/// initial response on the line it is returned; otherwise the line is ended
/// and a continuation `+ ` is written, and the response comes from
/// `authenticate_response`.
pub fn authenticate_begin(conn: &mut Conn) -> (r: ImapResult<AuthStart>)
    requires
        old(conn).wf(),
    ensures
        final(conn).wf(),
        final(conn).state == old(conn).state,
        final(conn).enabled == old(conn).enabled,
        (old(conn).state != ConnState::NotAuthenticated || !old(conn).insecure_auth) ==> r is Err
            && auth_guard_error(*old(conn), r->Err_0) && *final(conn) == *old(conn),
        (old(conn).state == ConnState::NotAuthenticated && old(conn).insecure_auth) ==> (r is Ok <==> auth_args_ok(
            old(conn).decoder.stream(),
        )),
        ({
            let s = old(conn).decoder.stream();
            let n = span(s, ByteClass::Atom);
            old(conn).state == ConnState::NotAuthenticated && old(conn).insecure_auth && 0 < n < s.len()
                && !upper_chars_eq_plain(auth_mechanism(s)) ==> r is Err && is_no(
                r->Err_0,
                None,
                "SASL mechanism "@ + auth_mechanism(s) + " not supported"@,
            )
        }),
        r matches Ok(st) ==> st.mechanism@ == auth_mechanism(old(conn).decoder.stream()) && match st.initial {
            Some(l) => auth_initial(old(conn).decoder.stream()) == Some(l@),
            None => auth_initial(old(conn).decoder.stream()) is None,
        },
        r is Ok ==> upper_chars_eq_plain(r->Ok_0.mechanism@),
        r matches Ok(st) && st.initial is Some ==> final(conn).encoder == old(conn).encoder,
        r matches Ok(st) && st.initial is None ==> final(conn).encoder@ == old(conn).encoder@ + seq![43u8, 32, 13, 10],
        r is Err ==> final(conn).encoder == old(conn).encoder,
{
    if conn.state != ConnState::NotAuthenticated {
        return Err(ImapError::bad("Already authenticated"));
    }
    if !conn.can_auth() {
        return Err(ImapError::no_code("PRIVACYREQUIRED", "TLS is required to authenticate"));
    }
    let ghost d0 = conn.decoder;
    let ghost s = d0.stream();
    let ghost n = span(s, ByteClass::Atom);
    proof {
        lemma_span(s, ByteClass::Atom);
    }
    let mechanism = conn.decoder.read_atom()?;
    let ghost d1 = conn.decoder;
    proof {
        d0.lemma_advanced_pub(&d1, n, true);
        assert(d1.stream() == s.skip(n as int));
    }
    let mc = chars_of(mechanism.as_str());
    let plain = chars_of("PLAIN");
    let mu = crate::text::upper_char_vec(&mc);
    if !chars_eq(&mu, &plain) {
        let _ = conn.decoder.read_text();
        let _ = conn.decoder.expect_crlf();
        let mut text = String::from_str("SASL mechanism ");
        text.append(mechanism.as_str());
        text.append(" not supported");
        return Err(ImapError::No { code: None, text });
    }
    let ghost t = s.skip(n as int);
    let peek = conn.decoder.peek_byte();
    let ghost dp = conn.decoder;
    proof {
        d1.lemma_advanced_pub(&dp, 0, true);
    }
    let at_end = match peek {
        Ok(b) => b == 13u8 || b == 10u8,
        Err(_) => true,
    };
    if at_end {
        conn.decoder.expect_crlf()?;
        conn.write_continuation("");
        proof {
            reveal_strlit("");
        }
        assert(conn.encoder@ =~= old(conn).encoder@ + seq![43u8, 32, 13, 10]) by {
            reveal_strlit("");
            crate::text::lemma_ascii_spec_bytes("");
        }
        return Ok(AuthStart { mechanism, initial: None });
    }
    let _ = conn.decoder.read_byte()?;
    let ghost d2 = conn.decoder;
    let ghost u = t.skip(1);
    let ghost m = span(u, ByteClass::Text);
    proof {
        dp.lemma_advanced_pub(&d2, 1, false);
        assert(d2.stream() =~= u);
        lemma_span(u, ByteClass::Text);
    }
    let line = conn.decoder.read_text()?;
    let ghost d3 = conn.decoder;
    proof {
        d2.lemma_advanced_pub(&d3, m, true);
    }
    conn.decoder.expect_crlf()?;
    Ok(AuthStart { mechanism, initial: Some(line) })
}

/// The mechanism is `PLAIN` in any ASCII case.
pub open spec fn upper_chars_eq_plain(m: Seq<char>) -> bool {
    crate::text::upper_chars(m) == "PLAIN"@
}

/// Reads the client's SASL response line after the continuation: the text
/// up to the line end, which must follow.
pub fn authenticate_response(conn: &mut Conn) -> (r: ImapResult<String>)
    requires
        old(conn).wf(),
    ensures
        final(conn).wf(),
        only_decoder_moved(*old(conn), *final(conn)),
        ({
            let s = old(conn).decoder.stream();
            let m = span(s, ByteClass::Text);
            &&& r is Ok <==> m < s.len() && crlf_ok(s.skip(m as int))
            &&& r is Ok ==> r->Ok_0@ == latin1(s.take(m as int))
        }),
        r is Ok ==> exists|d1: AsyncDecoder|
            {
                &&& #[trigger] d1.wf()
                &&& old(conn).decoder.advanced(&d1, span(old(conn).decoder.stream(), ByteClass::Text), true)
                &&& crlf_result(&d1, &final(conn).decoder, Ok(()))
            },
{
    let ghost d0 = conn.decoder;
    proof {
        lemma_span(d0.stream(), ByteClass::Text);
    }
    let line = conn.decoder.read_text()?;
    let ghost d1 = conn.decoder;
    proof {
        d0.lemma_advanced_pub(&d1, span(d0.stream(), ByteClass::Text), true);
    }
    conn.decoder.expect_crlf()?;
    Ok(line)
}

/// Handles UNAUTHENTICATE: only when authenticated (not with a mailbox
/// selected); the connection returns to not authenticated with nothing
/// enabled, and `tag OK UNAUTHENTICATE completed` is written.
pub fn handle_unauthenticate(conn: &mut Conn, tag: &str) -> (r: ImapResult<()>)
    requires
        old(conn).wf(),
    ensures
        final(conn).wf(),
        final(conn).decoder == old(conn).decoder,
        old(conn).state != ConnState::Authenticated ==> r is Err && is_bad(r->Err_0, None, "Not authenticated"@)
            && *final(conn) == *old(conn),
        old(conn).state == ConnState::Authenticated ==> r is Ok && final(conn).state == ConnState::NotAuthenticated
            && final(conn).enabled@ == Seq::<Seq<char>>::empty() && final(conn).encoder@ == old(conn).encoder@
            + status_bytes(tag.spec_bytes(), encode_utf8("OK"@), None, encode_utf8("UNAUTHENTICATE completed"@)),
{
    if conn.state != ConnState::Authenticated {
        return Err(ImapError::bad("Not authenticated"));
    }
    conn.state = ConnState::NotAuthenticated;
    conn.enabled.clear();
    conn.write_ok(tag, "UNAUTHENTICATE completed");
    Ok(())
}

} // verus!
