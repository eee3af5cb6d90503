//! The IMAP wire codec: a decoder that reads commands from the bytes that
//! the connection has received, and an encoder that builds responses.
use vstd::prelude::*;
use vstd::utf8::{valid_utf8, decode_utf8, encode_utf8};
use vstd::string::StringSliceAdditionalSpecFns;
use crate::error::{is_bad, ImapError, ImapResult};
use crate::text::{
    dec_digits, dec_signed, push_dec, push_dec_signed, eq_ignore_case, bytes_eq_ignore_case, utf8_string, digits_value, digits_to_u64, is_digit, latin1, string_from_latin1, upper_bytes, upper_vec, bytes_eq,
};

verus! {

// ── Byte classes ────────────────────────────────────────────────────

/// An ASCII control byte (`u8::is_ascii_control`).
pub open spec fn is_ctl(ch: u8) -> bool {
    ch < 32 || ch == 127
}

/// An atom character: anything but controls and `( ) { SP % * " \ ]`.
pub open spec fn atom_char(ch: u8) -> bool {
    !(ch == 40 || ch == 41 || ch == 123 || ch == 32 || ch == 37 || ch == 42 || ch == 34 || ch
        == 92 || ch == 93) && !is_ctl(ch)
}

pub fn is_atom_char(ch: u8) -> (r: bool)
    ensures
        r == atom_char(ch),
{
    !(ch == 40u8 || ch == 41u8 || ch == 123u8 || ch == 32u8 || ch == 37u8 || ch == 42u8 || ch
        == 34u8 || ch == 92u8 || ch == 93u8) && !(ch < 32 || ch == 127)
}

fn is_astring_char(ch: u8) -> (r: bool)
    ensures
        r == in_class(ByteClass::AString, ch),
{
    is_atom_char(ch) || ch == 93u8
}

/// LIST-wildcard char: atom-char + `*` + `%` + `]` (resp-specials).
fn is_list_char(ch: u8) -> (r: bool)
    ensures
        r == in_class(ByteClass::List, ch),
{
    ch == 42u8 || ch == 37u8 || is_astring_char(ch)
}

fn is_num_set_char(ch: u8) -> (r: bool)
    ensures
        r == in_class(ByteClass::NumSet, ch),
{
    ch == 42u8 || is_atom_char(ch)
}

/// The kinds of runs of bytes that the decoder reads.
#[derive(Clone, Copy, PartialEq, Eq, Structural)]
pub enum ByteClass {
    /// atom characters
    Atom,
    /// atom characters and `]`
    AString,
    /// atom characters, `]`, `*` and `%`
    List,
    /// atom characters and `*`
    NumSet,
    /// atom characters other than `[`
    FetchName,
    /// ASCII digits
    Digit,
    /// anything but CR and LF
    Text,
    /// CR and LF
    Eol,
}

pub open spec fn in_class(c: ByteClass, b: u8) -> bool {
    match c {
        ByteClass::Atom => atom_char(b),
        ByteClass::AString => atom_char(b) || b == 93,
        ByteClass::List => b == 42 || b == 37 || atom_char(b) || b == 93,
        ByteClass::NumSet => b == 42 || atom_char(b),
        ByteClass::FetchName => atom_char(b) && b != 91,
        ByteClass::Digit => is_digit(b),
        ByteClass::Text => b != 13 && b != 10,
        ByteClass::Eol => b == 13 || b == 10,
    }
}

fn class_has(c: ByteClass, b: u8) -> (r: bool)
    ensures
        r == in_class(c, b),
{
    match c {
        ByteClass::Atom => is_atom_char(b),
        ByteClass::AString => is_astring_char(b),
        ByteClass::List => is_list_char(b),
        ByteClass::NumSet => is_num_set_char(b),
        ByteClass::FetchName => is_atom_char(b) && b != 91u8,
        ByteClass::Digit => b >= 48 && b <= 57,
        ByteClass::Text => b != 13u8 && b != 10u8,
        ByteClass::Eol => b == 13u8 || b == 10u8,
    }
}

/// The length of the longest prefix of `s` in class `c`.
pub open spec fn span(s: Seq<u8>, c: ByteClass) -> nat
    decreases s.len(),
{
    if s.len() > 0 && in_class(c, s[0]) {
        1 + span(s.drop_first(), c)
    } else {
        0
    }
}

pub proof fn lemma_span(s: Seq<u8>, c: ByteClass)
    ensures
        span(s, c) <= s.len(),
        forall|j: int| 0 <= j < span(s, c) ==> in_class(c, #[trigger] s[j]),
        span(s, c) < s.len() ==> !in_class(c, s[span(s, c) as int]),
    decreases s.len(),
{
    if s.len() > 0 && in_class(c, s[0]) {
        lemma_span(s.drop_first(), c);
        assert forall|j: int| 0 <= j < span(s, c) implies in_class(c, #[trigger] s[j]) by {
            if j > 0 {
                assert(s[j] == s.drop_first()[j - 1]);
            }
        }
    }
}

pub proof fn lemma_span_unique(s: Seq<u8>, c: ByteClass, n: int)
    requires
        0 <= n <= s.len(),
        forall|j: int| 0 <= j < n ==> in_class(c, #[trigger] s[j]),
        n < s.len() ==> !in_class(c, s[n]),
    ensures
        span(s, c) == n,
{
    lemma_span(s, c);
    if span(s, c) < n {
        assert(in_class(c, s[span(s, c) as int]));
    }
    if span(s, c) > n {
        assert(in_class(c, s[n]));
    }
}

/// The index of the first `b` in `s`, or the length.
pub open spec fn find_byte(s: Seq<u8>, b: u8) -> nat
    decreases s.len(),
{
    if s.len() == 0 || s[0] == b {
        0
    } else {
        1 + find_byte(s.drop_first(), b)
    }
}

// ── What a read yields ──────────────────────────────────────────────

/// The outcome of reading from the decoder's readable bytes `s`: a value
/// after `n` bytes, the end of the readable bytes (the connection closed or
/// the command grew too long), or a BAD with this text after `n` bytes.
/// `back` tells that the byte after the `n` was read and pushed back.
pub enum Step<T> {
    Done(T, nat, bool),
    End,
    Fail(Seq<char>, nat, bool),
}

/// What reading a non-empty run of class `c` gives on `d0`: the run as text,
/// with the byte that ends it pushed back; BAD `missing` when the run is
/// empty; the end error when the readable bytes hold no end to the run.
pub open spec fn run_result(
    d0: &AsyncDecoder,
    d1: &AsyncDecoder,
    r: ImapResult<String>,
    c: ByteClass,
    missing: Seq<char>,
) -> bool {
    let s = d0.stream();
    let n = span(s, c);
    if n == s.len() {
        r is Err && d0.end_error(r->Err_0) && d0.exhausted(d1)
    } else if n == 0 {
        r is Err && is_bad(r->Err_0, None, missing) && d0.advanced(d1, 0, true)
    } else {
        r is Ok && r->Ok_0@ == latin1(s.take(n as int)) && d0.advanced(d1, n, true)
    }
}

/// The line ends here: an optional SP, an optional CR, then LF.
pub open spec fn crlf_ok(s: Seq<u8>) -> bool {
    let a: nat = if s.len() > 0 && s[0] == 32 {
        1
    } else {
        0
    };
    let b: nat = if s.len() > a && s[a as int] == 13 {
        a + 1
    } else {
        a
    };
    s.len() > b && s[b as int] == 10
}

/// What `expect_crlf` gives: an optional SP, an optional CR, then LF.
pub open spec fn crlf_result(d0: &AsyncDecoder, d1: &AsyncDecoder, r: ImapResult<()>) -> bool {
    let s = d0.stream();
    let a: nat = if s.len() > 0 && s[0] == 32 {
        1
    } else {
        0
    };
    let b: nat = if s.len() > a && s[a as int] == 13 {
        a + 1
    } else {
        a
    };
    if s.len() <= b {
        r is Err && d0.end_error(r->Err_0) && d0.exhausted(d1)
    } else if s[b as int] == 10 {
        r is Ok && d0.advanced(d1, b + 1, false)
    } else {
        r is Err && is_bad(r->Err_0, None, "expected CRLF"@) && d0.advanced(d1, b, true)
    }
}

/// What `expect_sp` gives: SP not followed by CR or LF, or a `(` left
/// unread (the SP before a parenthesized list may be missing).
pub open spec fn sp_result(d0: &AsyncDecoder, d1: &AsyncDecoder, r: ImapResult<()>) -> bool {
    let s = d0.stream();
    if s.len() == 0 || (s[0] == 32 && s.len() == 1) {
        r is Err && d0.end_error(r->Err_0) && d0.exhausted(d1)
    } else if s[0] == 32 {
        d0.advanced(d1, 1, true) && if s[1] == 13 || s[1] == 10 {
            r is Err && is_bad(r->Err_0, None, "expected SP"@)
        } else {
            r is Ok
        }
    } else if s[0] == 40 {
        r is Ok && d0.advanced(d1, 0, true)
    } else {
        r is Err && is_bad(r->Err_0, None, "expected SP"@) && d0.advanced(d1, 1, false)
    }
}

/// What `read_number` gives: a non-empty run of digits whose value fits in
/// 32 bits.
pub open spec fn number_result(d0: &AsyncDecoder, d1: &AsyncDecoder, r: ImapResult<u32>) -> bool {
    let s = d0.stream();
    let n = span(s, ByteClass::Digit);
    let v = digits_value(s.take(n as int));
    if n == s.len() {
        r is Err && d0.end_error(r->Err_0) && d0.exhausted(d1)
    } else if n == 0 {
        r is Err && is_bad(r->Err_0, None, "expected number"@) && d0.advanced(d1, 0, true)
    } else if v > u32::MAX {
        r is Err && is_bad(r->Err_0, None, "number overflow"@) && d0.advanced(d1, n, true)
    } else {
        r == Ok::<u32, ImapError>(v as u32) && d0.advanced(d1, n, true)
    }
}

/// The signed value that `read_number64` reads: an optional `-` (first
/// byte only) and digits; `None` when there are no digits or the value
/// does not fit in 64 bits.
pub open spec fn number64_value(neg: bool, d: Seq<u8>) -> Option<i64> {
    let v = digits_value(d);
    if d.len() == 0 {
        None
    } else if neg {
        if v <= 0x8000_0000_0000_0000 {
            Some((-v) as i64)
        } else {
            None
        }
    } else if v <= 0x7fff_ffff_ffff_ffff {
        Some(v as i64)
    } else {
        None
    }
}

/// What `read_number64` gives.
pub open spec fn number64_result(d0: &AsyncDecoder, d1: &AsyncDecoder, r: ImapResult<i64>) -> bool {
    let s = d0.stream();
    let neg = s.len() > 0 && s[0] == 45;
    let t = if neg {
        s.skip(1)
    } else {
        s
    };
    let n = span(t, ByteClass::Digit);
    let total: nat = if neg {
        n + 1
    } else {
        n
    };
    if total == s.len() {
        r is Err && d0.end_error(r->Err_0) && d0.exhausted(d1)
    } else if total == 0 {
        r is Err && is_bad(r->Err_0, None, "expected number64"@) && d0.advanced(d1, 0, true)
    } else {
        d0.advanced(d1, total, true) && match number64_value(neg, t.take(n as int)) {
            Some(v) => r == Ok::<i64, ImapError>(v),
            None => r is Err && is_bad(r->Err_0, None, "number64 overflow"@),
        }
    }
}

/// What `read_flag` gives: a keyword atom, or `\\` and an atom.
pub open spec fn flag_result(d0: &AsyncDecoder, d1: &AsyncDecoder, r: ImapResult<String>) -> bool {
    let s = d0.stream();
    let bs = s.len() > 0 && s[0] == 92;
    let t = if bs {
        s.skip(1)
    } else {
        s
    };
    let n = span(t, ByteClass::Atom);
    let total: nat = if bs {
        n + 1
    } else {
        n
    };
    if s.len() == 0 || total == s.len() {
        r is Err && d0.end_error(r->Err_0) && d0.exhausted(d1)
    } else {
        d0.advanced(d1, total, true) && if n == 0 {
            r is Err && is_bad(r->Err_0, None, "expected flag"@)
        } else {
            r is Ok && r->Ok_0@ == latin1(s.take(total as int))
        }
    }
}

/// The body of a quoted string after its opening `"`: the bytes it stands
/// for (a `\\` takes the next byte as it is) and how many bytes it takes up
/// to and including the closing `"`; `None` when it does not end.
pub open spec fn quoted_body(t: Seq<u8>) -> Option<(Seq<u8>, nat)>
    decreases t.len(),
{
    if t.len() == 0 {
        None
    } else if t[0] == 34 {
        Some((Seq::<u8>::empty(), 1nat))
    } else if t[0] == 92 {
        if t.len() < 2 {
            None
        } else {
            match quoted_body(t.skip(2)) {
                Some((c, k)) => Some((seq![t[1]] + c, k + 2)),
                None => None,
            }
        }
    } else {
        match quoted_body(t.skip(1)) {
            Some((c, k)) => Some((seq![t[0]] + c, k + 1)),
            None => None,
        }
    }
}

/// What `read_quoted` gives.
pub open spec fn quoted_result(d0: &AsyncDecoder, d1: &AsyncDecoder, r: ImapResult<String>) -> bool {
    let s = d0.stream();
    if s.len() == 0 {
        r is Err && d0.end_error(r->Err_0) && d0.exhausted(d1)
    } else if s[0] != 34 {
        r is Err && is_bad(r->Err_0, None, "expected '\"'"@) && d0.advanced(d1, 0, true)
    } else {
        match quoted_body(s.skip(1)) {
            Some((c, k)) => r is Ok && r->Ok_0@ == latin1(c) && d0.advanced(d1, k + 1, false),
            None => r is Err && d0.end_error(r->Err_0) && d0.exhausted(d1),
        }
    }
}

/// The header of a literal at the start of `s`: `{`, a number as
/// `read_number64` reads it, an optional `+`, `}` and CRLF. Gives the
/// size, whether the literal is non-synchronizing, and the header's length.
pub open spec fn literal_header(s: Seq<u8>) -> Option<(i64, bool, nat)> {
    if s.len() == 0 || s[0] != 123 {
        None
    } else {
        let t = s.skip(1);
        let neg = t.len() > 0 && t[0] == 45;
        let u = if neg {
            t.skip(1)
        } else {
            t
        };
        let n = span(u, ByteClass::Digit);
        let total: nat = if neg {
            n + 1
        } else {
            n
        };
        let w = t.skip(total as int);
        let ns = w.len() > 0 && w[0] == 43;
        let x = if ns {
            w.skip(1)
        } else {
            w
        };
        let h: nat = 1 + total + (if ns {
            1nat
        } else {
            0nat
        }) + 3;
        if total > 0 && total < t.len() && x.len() >= 3 && x[0] == 125 && x[1] == 13 && x[2]
            == 10 {
            match number64_value(neg, u.take(n as int)) {
                Some(v) => Some((v, ns, h)),
                None => None,
            }
        } else {
            None
        }
    }
}

/// What `read_literal` gives: the literal's data and whether it is
/// non-synchronizing, when the header is well formed, the size is not
/// negative and that many bytes have been received after the header.
pub open spec fn literal_result(
    d0: &AsyncDecoder,
    d1: &AsyncDecoder,
    r: ImapResult<(Vec<u8>, bool)>,
) -> bool {
    match literal_header(d0.stream()) {
        Some((size, ns, h)) => if size >= 0 && d0.raw_after(h).len() >= size {
            r is Ok && r->Ok_0.0@ == d0.raw_after(h).take(size as int) && r->Ok_0.1 == ns
                && d0.literal_done(d1, h, size as nat)
        } else {
            r is Err
        },
        None => r is Err,
    }
}

/// What `read_string` gives: a quoted string, or a literal whose data is
/// UTF-8.
pub open spec fn string_result(d0: &AsyncDecoder, d1: &AsyncDecoder, r: ImapResult<String>) -> bool {
    let s = d0.stream();
    if s.len() == 0 {
        r is Err && d0.end_error(r->Err_0) && d0.exhausted(d1)
    } else if s[0] == 34 {
        quoted_result(d0, d1, r)
    } else {
        match literal_header(s) {
            Some((size, ns, h)) => if size >= 0 && d0.raw_after(h).len() >= size {
                let data = d0.raw_after(h).take(size as int);
                d0.literal_done(d1, h, size as nat) && if valid_utf8(data) {
                    r is Ok && r->Ok_0@ == decode_utf8(data)
                } else {
                    r is Err && is_bad(r->Err_0, None, "literal not valid UTF-8"@)
                }
            } else {
                r is Err
            },
            None => r is Err,
        }
    }
}

/// What `read_astring` (class `AString`) and `read_list_mailbox` (class
/// `List`) give: a string when the next byte opens one, else a run.
pub open spec fn astring_result(
    d0: &AsyncDecoder,
    d1: &AsyncDecoder,
    r: ImapResult<String>,
    c: ByteClass,
    missing: Seq<char>,
) -> bool {
    let s = d0.stream();
    if s.len() == 0 {
        r is Err && d0.end_error(r->Err_0) && d0.exhausted(d1)
    } else if s[0] == 34 || s[0] == 123 {
        string_result(d0, d1, r)
    } else {
        run_result(d0, d1, r, c, missing)
    }
}

/// What `read_nstring` gives: `NIL` (any case) as `None`, or a string.
pub open spec fn nstring_result(
    d0: &AsyncDecoder,
    d1: &AsyncDecoder,
    r: ImapResult<Option<String>>,
) -> bool {
    let s = d0.stream();
    let n = span(s, ByteClass::Atom);
    if s.len() == 0 {
        r is Err && d0.end_error(r->Err_0) && d0.exhausted(d1)
    } else if s[0] == 78 || s[0] == 110 {
        if n == s.len() {
            r is Err && d0.end_error(r->Err_0) && d0.exhausted(d1)
        } else {
            d0.advanced(d1, n, true) && if eq_ignore_case(s.take(n as int), seq![78u8, 73, 76]) {
                r == Ok::<Option<String>, ImapError>(None)
            } else {
                r is Err && is_bad(r->Err_0, None, "expected NIL or string"@)
            }
        }
    } else {
        match r {
            Ok(Some(x)) => string_result(d0, d1, Ok(x)),
            Ok(None) => false,
            Err(e) => string_result(d0, d1, Err(e)),
        }
    }
}

/// A command's tag, verb and UID flag, as `read_command` parses them.
pub struct ParsedCommand {
    pub tag: String,
    pub verb: String,
    pub uid: bool,
}

/// `Some(n)` when `expect_sp` succeeds on `s` after reading `n` bytes: an
/// SP not followed by CR or LF, or nothing before a `(`.
pub open spec fn sp_len(s: Seq<u8>) -> Option<nat> {
    if s.len() >= 2 && s[0] == 32 && s[1] != 13 && s[1] != 10 {
        Some(1)
    } else if s.len() >= 1 && s[0] == 40 {
        Some(0)
    } else {
        None
    }
}

/// The bytes `UID`.
pub open spec fn uid_word() -> Seq<u8> {
    seq![85u8, 73, 68]
}

/// The start of a command line in `s`: empty lines, a tag atom and SP.
/// Gives the tag and how many bytes were read (the byte after them was
/// read and pushed back).
pub open spec fn command_head(s: Seq<u8>) -> Option<(Seq<u8>, nat)> {
    let k = span(s, ByteClass::Eol);
    let t = s.skip(k as int);
    let a = span(t, ByteClass::Atom);
    let u = t.skip(a as int);
    match sp_len(u) {
        None => None,
        Some(p) => if a == 0 {
            None
        } else {
            Some((t.take(a as int), k + a + p))
        },
    }
}

/// The rest of a command line after the tag and SP: a verb atom
/// (upper-cased; `UID` is followed by SP and the real verb) and one SP
/// after it if there is one. Gives the verb, whether `UID` came first, how
/// many bytes were read, and whether the byte after them was pushed back.
pub open spec fn command_verb(v: Seq<u8>) -> Option<(Seq<u8>, bool, nat, bool)> {
    let b = span(v, ByteClass::Atom);
    if b == 0 || b == v.len() {
        None
    } else {
        let verb = upper_bytes(v.take(b as int));
        let w = v.skip(b as int);
        if verb == uid_word() {
            match sp_len(w) {
                None => None,
                Some(q) => {
                    let x = w.skip(q as int);
                    let c = span(x, ByteClass::Atom);
                    if c == 0 || c == x.len() {
                        None
                    } else {
                        let y = x.skip(c as int);
                        let pre = b + q + c;
                        Some(
                            (
                                upper_bytes(x.take(c as int)),
                                true,
                                if y[0] == 32 {
                                    pre + 1
                                } else {
                                    pre
                                },
                                y[0] != 32,
                            ),
                        )
                    }
                },
            }
        } else {
            Some((verb, false, if w[0] == 32 {
                b + 1
            } else {
                b
            }, w[0] != 32))
        }
    }
}

/// A command line as `read_command` reads it from `s`: the tag, the verb,
/// whether `UID` came first, how many bytes were read, and whether the byte
/// after them was read and pushed back.
pub open spec fn command_spec(s: Seq<u8>) -> Option<(Seq<u8>, Seq<u8>, bool, nat, bool)> {
    match command_head(s) {
        None => None,
        Some((tag, h)) => match command_verb(s.skip(h as int)) {
            None => None,
            Some((verb, uid, n, back)) => Some((tag, verb, uid, h + n, back)),
        },
    }
}

// ── Decoder ─────────────────────────────────────────────────────────

/// Reads IMAP commands from the bytes that the connection has received,
/// with one byte of push-back and a per-command size budget.
#[derive(Clone)]
pub struct AsyncDecoder {
    input: Vec<u8>,
    pos: usize,
    err: Option<ImapError>,
    read_bytes: u64,
    max_size: u64,
    pushed_back: Option<u8>,
}

impl AsyncDecoder {
    /// The decoder's bookkeeping is consistent.
    pub closed spec fn wf(&self) -> bool {
        self.pos <= self.input@.len() && self.err is None && self.read_bytes <= self.pos
    }

    /// The byte pushed back, if any.
    pub closed spec fn pushed(&self) -> Option<u8> {
        self.pushed_back
    }

    /// The received bytes not yet read.
    pub closed spec fn raw(&self) -> Seq<u8> {
        self.input@.skip(self.pos as int)
    }

    /// The per-command size limit (0: none).
    pub closed spec fn limit(&self) -> nat {
        self.max_size as nat
    }

    /// The bytes read for the current command.
    pub closed spec fn used(&self) -> nat {
        self.read_bytes as nat
    }

    /// How many more received bytes the size budget lets `read_byte` take.
    pub closed spec fn budget(&self) -> nat {
        if self.max_size == 0 {
            self.raw().len()
        } else if self.read_bytes > self.max_size {
            0
        } else {
            (self.max_size + 1 - self.read_bytes) as nat
        }
    }

    /// The bytes that `read_byte` would hand out, in order: the pushed-back
    /// byte, then received bytes up to the budget.
    pub closed spec fn stream(&self) -> Seq<u8> {
        let avail = if self.budget() < self.raw().len() {
            self.raw().take(self.budget() as int)
        } else {
            self.raw()
        };
        match self.pushed_back {
            Some(b) => seq![b] + avail,
            None => avail,
        }
    }

    /// Reading past `stream()` fails because of the size budget (BAD
    /// "max command size exceeded") rather than the end of input (Closed).
    pub closed spec fn limit_hit(&self) -> bool {
        self.max_size > 0 && self.raw().len() >= self.budget()
    }

    /// `e` is the error of reading past the end of `stream()`.
    pub open spec fn end_error(&self, e: ImapError) -> bool {
        if self.limit_hit() {
            is_bad(e, None, "max command size exceeded"@)
        } else {
            e == ImapError::Closed
        }
    }

    /// `new` is `self` after reading `n` bytes of the stream, or `n + 1` of
    /// which the last was pushed back when `back`.
    pub closed spec fn advanced(&self, new: &AsyncDecoder, n: nat, back: bool) -> bool {
        let k = if back {
            n + 1
        } else {
            n
        };
        let plen: nat = if self.pushed_back is Some {
            1
        } else {
            0
        };
        let r: nat = if k == 0 {
            0
        } else {
            (k - plen) as nat
        };
        &&& k <= self.stream().len()
        &&& new.input == self.input
        &&& new.max_size == self.max_size
        &&& new.err == self.err
        &&& new.pos == self.pos + r
        &&& new.read_bytes == self.read_bytes + r
        &&& new.pushed_back == if back {
            Some(self.stream()[n as int])
        } else if k == 0 {
            self.pushed_back
        } else {
            None::<u8>
        }
    }

    /// `new` is `self` after reading all of the stream and failing on the
    /// next read.
    pub closed spec fn exhausted(&self, new: &AsyncDecoder) -> bool {
        self.advanced(new, self.stream().len(), false)
    }

    proof fn lemma_advanced(&self, new: &AsyncDecoder, n: nat, back: bool)
        requires
            self.wf(),
            self.advanced(new, n, back),
        ensures
            new.wf(),
            new.stream() == self.stream().skip(n as int),
            new.limit_hit() == self.limit_hit(),
            new.limit() == self.limit(),
    {
        let k = if back {
            n + 1
        } else {
            n
        };
        let s = self.stream();
        let plen: int = if self.pushed_back is Some {
            1
        } else {
            0
        };
        let r: int = if k == 0 {
            0
        } else {
            k - plen
        };
        assert(new.raw() =~= self.raw().skip(r));
        assert(new.stream() =~= s.skip(n as int));
    }

    proof fn lemma_advance_more(&self, b: &AsyncDecoder, c: &AsyncDecoder, n: nat, m: nat, back: bool)
        requires
            self.wf(),
            self.advanced(b, n, false),
            b.advanced(c, m, back),
        ensures
            self.advanced(c, n + m, back),
    {
        self.lemma_advanced(b, n, false);
        assert(b.stream() =~= self.stream().skip(n as int));
    }

    proof fn lemma_chain(
        &self,
        b: &AsyncDecoder,
        c: &AsyncDecoder,
        n: nat,
        back1: bool,
        m: nat,
        back: bool,
    )
        requires
            self.wf(),
            self.advanced(b, n, back1),
            b.advanced(c, m, back),
            back1 ==> m > 0 || back,
        ensures
            self.advanced(c, n + m, back),
            c.wf(),
            c.stream() == self.stream().skip((n + m) as int),
    {
        self.lemma_advanced(b, n, back1);
        assert(b.stream() =~= self.stream().skip(n as int));
        b.lemma_advanced(c, m, back);
        assert(c.stream() =~= self.stream().skip((n + m) as int));
    }

    proof fn lemma_chain_end(&self, b: &AsyncDecoder, c: &AsyncDecoder, n: nat, back1: bool)
        requires
            self.wf(),
            self.advanced(b, n, back1),
            b.exhausted(c),
            back1 ==> b.stream().len() > 0,
        ensures
            self.exhausted(c),
            c.wf(),
            b.limit_hit() == self.limit_hit(),
    {
        self.lemma_advanced(b, n, back1);
        assert(b.stream() =~= self.stream().skip(n as int));
        self.lemma_chain(b, c, n, back1, b.stream().len(), false);
    }

    /// The decoder with the per-command byte count set back to zero.
    pub closed spec fn reset(&self) -> AsyncDecoder {
        AsyncDecoder {
            input: self.input,
            pos: self.pos,
            err: self.err,
            read_bytes: 0,
            max_size: self.max_size,
            pushed_back: self.pushed_back,
        }
    }

    /// The received bytes that follow the first `k` bytes of the stream.
    pub closed spec fn raw_after(&self, k: nat) -> Seq<u8> {
        let plen: int = if self.pushed_back is Some {
            1
        } else {
            0
        };
        self.raw().skip(k - plen)
    }

    /// `new` is `self` after reading `h` bytes of the stream and then `size`
    /// received bytes past them (the data of a literal).
    pub closed spec fn literal_done(&self, new: &AsyncDecoder, h: nat, size: nat) -> bool {
        let plen: int = if self.pushed_back is Some {
            1
        } else {
            0
        };
        &&& h >= 1
        &&& h <= self.stream().len()
        &&& new.input == self.input
        &&& new.max_size == self.max_size
        &&& new.err == self.err
        &&& new.pos == self.pos + h - plen + size
        &&& new.read_bytes == self.read_bytes + h - plen + size
        &&& new.pushed_back is None
    }

    /// What holds after a byte was read and pushed back.
    proof fn lemma_peeked(&self, dp: &AsyncDecoder)
        requires
            self.wf(),
            self.advanced(dp, 0, true),
        ensures
            dp.wf(),
            dp.stream() == self.stream(),
            dp.limit_hit() == self.limit_hit(),
            forall|d1: AsyncDecoder, m: nat, back: bool|
                (m > 0 || back) && #[trigger] dp.advanced(&d1, m, back) ==> self.advanced(
                    &d1,
                    m,
                    back,
                ),
            forall|d1: AsyncDecoder| #[trigger]
                dp.exhausted(&d1) ==> self.exhausted(&d1),
            forall|k: nat|
                1 <= k <= self.stream().len() ==> #[trigger] dp.raw_after(k) == self.raw_after(k),
            forall|d1: AsyncDecoder, h: nat, size: nat| #[trigger]
                dp.literal_done(&d1, h, size) ==> self.literal_done(&d1, h, size),
    {
        self.lemma_advanced(dp, 0, true);
        assert(dp.stream() =~= self.stream().skip(0));
        assert forall|d1: AsyncDecoder, m: nat, back: bool|
            (m > 0 || back) && #[trigger] dp.advanced(&d1, m, back) implies self.advanced(
            &d1,
            m,
            back,
        ) by {
            self.lemma_chain(dp, &d1, 0, true, m, back);
            assert(self.stream().skip(0) =~= self.stream());
        }
        assert forall|d1: AsyncDecoder| #[trigger] dp.exhausted(&d1) implies self.exhausted(
            &d1,
        ) by {
            if dp.stream().len() > 0 {
                self.lemma_chain_end(dp, &d1, 0, true);
            } else {
                assert(self.stream().len() == 0);
            }
        }
        assert forall|k: nat|
            1 <= k <= self.stream().len() implies #[trigger] dp.raw_after(k) == self.raw_after(k) by {
            let plen: int = if self.pushed_back is Some {
                1
            } else {
                0
            };
            assert(dp.raw() =~= self.raw().skip(1 - plen));
            assert(dp.raw_after(k) =~= self.raw_after(k));
        }
    }

    proof fn lemma_literal_done(&self, new: &AsyncDecoder, h: nat, size: nat)
        requires
            self.wf(),
            self.literal_done(new, h, size),
            self.raw_after(h).len() >= size,
        ensures
            new.wf(),
            new.pushed() is None,
            new.raw() == self.raw_after(h).skip(size as int),
            new.limit() == self.limit(),
    {
        let plen: int = if self.pushed_back is Some {
            1
        } else {
            0
        };
        assert(h - plen <= self.raw().len()) by {
            if self.budget() < self.raw().len() {
            }
        }
        assert(new.raw() =~= self.raw_after(h).skip(size as int));
    }

    proof fn lemma_lemma_keep(&self, b: &AsyncDecoder, c: &AsyncDecoder, n: nat)
        requires
            self.wf(),
            self.advanced(b, n, true),
            b.advanced(c, 0, true),
        ensures
            self.advanced(c, n, true),
    {
        self.lemma_chain(b, c, n, true, 0, true);
    }

    /// Reading `n` bytes of the stream keeps the decoder well formed and
    /// leaves the rest of the stream.
    pub proof fn lemma_advanced_pub(&self, new: &AsyncDecoder, n: nat, back: bool)
        requires
            self.wf(),
            self.advanced(new, n, back),
        ensures
            new.wf(),
            new.stream() == self.stream().skip(n as int),
            new.limit_hit() == self.limit_hit(),
            back ==> new.pushed() == Some(self.stream()[n as int]),
            !back && n > 0 ==> new.pushed() is None,
            new.limit() == self.limit(),
            self.pushed() is None ==> new.raw() == self.raw().skip(
                (if back {
                    n + 1
                } else {
                    n
                }) as int,
            ),
    {
        self.lemma_advanced(new, n, back);
        if self.pushed() is None {
            let k: int = if back {
                n + 1int
            } else {
                n as int
            };
            assert(new.raw() =~= self.raw().skip(k));
        }
    }

    /// With nothing pushed back, the received bytes after the first `k`
    /// bytes of the stream are those after the first `k` received.
    pub proof fn lemma_raw_after_unpushed(&self, k: nat)
        requires
            self.pushed() is None,
        ensures
            self.raw_after(k) == self.raw().skip(k as int),
    {
    }

    /// After a literal is read, the received bytes left are those after its
    /// data.
    pub proof fn lemma_literal_done_pub(&self, new: &AsyncDecoder, h: nat, size: nat)
        requires
            self.wf(),
            self.literal_done(new, h, size),
            self.raw_after(h).len() >= size,
        ensures
            new.wf(),
            new.pushed() is None,
            new.raw() == self.raw_after(h).skip(size as int),
            new.limit() == self.limit(),
    {
        self.lemma_literal_done(new, h, size);
    }

    /// Reading `n` bytes and then `m` more reads `n + m` (a byte pushed
    /// back after the first read is read again by the second).
    pub proof fn lemma_chain_pub(
        &self,
        b: &AsyncDecoder,
        c: &AsyncDecoder,
        n: nat,
        back1: bool,
        m: nat,
        back: bool,
    )
        requires
            self.wf(),
            self.advanced(b, n, back1),
            b.advanced(c, m, back),
            back1 ==> m > 0 || back,
        ensures
            self.advanced(c, n + m, back),
            c.wf(),
            c.stream() == self.stream().skip((n + m) as int),
    {
        self.lemma_chain(b, c, n, back1, m, back);
    }

    /// `new` is `self` with `b` pushed back and nothing else changed.
    pub closed spec fn pushed_to(&self, new: &AsyncDecoder, b: u8) -> bool {
        &&& new.input == self.input
        &&& new.pos == self.pos
        &&& new.read_bytes == self.read_bytes
        &&& new.max_size == self.max_size
        &&& new.err == self.err
        &&& new.pushed_back == Some(b)
    }

    /// Where the decoder stands: its place in the received bytes, the count
    /// of bytes read for the command, and the byte pushed back.
    pub closed spec fn spot(&self) -> (usize, u64, Option<u8>) {
        (self.pos, self.read_bytes, self.pushed_back)
    }

    /// The decoder put back at spot `m`, with the same received bytes.
    pub closed spec fn rewound(&self, m: (usize, u64, Option<u8>)) -> AsyncDecoder {
        AsyncDecoder {
            input: self.input,
            pos: m.0,
            err: self.err,
            read_bytes: m.1,
            max_size: self.max_size,
            pushed_back: m.2,
        }
    }

    /// A decoder that read on from `self` goes back to `self` at its spot.
    pub proof fn lemma_back_to(&self, new: &AsyncDecoder, n: nat, back: bool)
        requires
            self.wf(),
            self.advanced(new, n, back),
        ensures
            new.rewound(self.spot()) == *self,
            new.rewound(self.spot()).wf(),
    {
    }

    /// Reading a byte and pushing it back is a peek.
    pub proof fn lemma_read_then_unread(&self, mid: &AsyncDecoder, new: &AsyncDecoder)
        requires
            self.advanced(mid, 1, false),
            mid.pushed_to(new, self.stream()[0]),
        ensures
            self.advanced(new, 0, true),
    {
    }

    /// Reading the same bytes from one decoder leaves the same decoder.
    pub proof fn lemma_advanced_det(&self, a: &AsyncDecoder, b: &AsyncDecoder, n: nat, back: bool)
        requires
            self.advanced(a, n, back),
            self.advanced(b, n, back),
        ensures
            *a == *b,
    {
    }

    /// Reading all of the stream from one decoder leaves the same decoder.
    pub proof fn lemma_exhausted_det(&self, a: &AsyncDecoder, b: &AsyncDecoder)
        requires
            self.exhausted(a),
            self.exhausted(b),
        ensures
            *a == *b,
    {
    }

    /// Reading a literal of the same size from one decoder leaves the same
    /// decoder.
    pub proof fn lemma_literal_done_det(&self, a: &AsyncDecoder, b: &AsyncDecoder, h: nat, size: nat)
        requires
            self.literal_done(a, h, size),
            self.literal_done(b, h, size),
        ensures
            *a == *b,
    {
    }

    /// A peek and then reading one byte reads one byte.
    pub proof fn lemma_peek_then_read(&self, mid: &AsyncDecoder, new: &AsyncDecoder)
        requires
            self.wf(),
            self.advanced(mid, 0, true),
            mid.advanced(new, 1, false),
        ensures
            self.advanced(new, 1, false),
            new.wf(),
    {
        self.lemma_chain(mid, new, 0, true, 1, false);
    }

    /// `new` is `self` after reading `n` bytes of the stream, none pushed
    /// back.
    pub open spec fn advanced_pub(&self, new: &AsyncDecoder, n: nat) -> bool {
        self.advanced(new, n, false)
    }

    /// `new` is `self` after a peek: the next byte read and pushed back.
    pub open spec fn peeked_to(&self, new: &AsyncDecoder) -> bool {
        self.advanced(new, 0, true)
    }

    /// Reading `n` bytes and then one more is reading `n + 1`.
    pub proof fn lemma_advance_then_one(&self, mid: &AsyncDecoder, new: &AsyncDecoder, n: nat)
        requires
            self.wf(),
            self.advanced(mid, n, false),
            mid.advanced(new, 1, false),
        ensures
            self.advanced(new, n + 1, false),
            new.wf(),
            mid.wf(),
            mid.stream() == self.stream().skip(n as int),
    {
        self.lemma_chain(mid, new, n, false, 1, false);
        self.lemma_advanced(mid, n, false);
    }

    /// Reading `n` bytes and then failing at the end of the stream.
    pub proof fn lemma_advance_then_end(&self, mid: &AsyncDecoder, new: &AsyncDecoder, n: nat)
        requires
            self.wf(),
            self.advanced(mid, n, false),
            mid.exhausted(new),
            mid.stream().len() == 0,
        ensures
            self.exhausted(new),
            self.stream().len() == n,
            mid.limit_hit() == self.limit_hit(),
            new.wf(),
    {
        self.lemma_advanced(mid, n, false);
        self.lemma_chain_end(mid, new, n, false);
    }

    /// A number read leaves no more readable bytes than before.
    pub proof fn lemma_number_shrinks(&self, new: &AsyncDecoder, r: ImapResult<u32>)
        requires
            self.wf(),
            number_result(self, new, r),
            r is Ok,
        ensures
            new.wf(),
            new.stream().len() < self.stream().len(),
    {
        let s = self.stream();
        lemma_span(s, ByteClass::Digit);
        self.lemma_advanced(new, span(s, ByteClass::Digit), true);
    }

    /// A successful read leaves fewer readable bytes.
    pub proof fn lemma_run_shrinks(&self, new: &AsyncDecoder, r: ImapResult<String>, c: ByteClass, missing: Seq<char>)
        requires
            self.wf(),
            run_result(self, new, r, c, missing),
            r is Ok,
        ensures
            new.wf(),
            new.stream().len() < self.stream().len(),
    {
        let s = self.stream();
        lemma_span(s, c);
        self.lemma_advanced(new, span(s, c), true);
    }

    /// A successful SP leaves no more readable bytes.
    pub proof fn lemma_sp_shrinks(&self, new: &AsyncDecoder, r: ImapResult<()>)
        requires
            self.wf(),
            sp_result(self, new, r),
            r is Ok,
        ensures
            new.wf(),
            new.stream().len() <= self.stream().len(),
    {
        let s = self.stream();
        if s[0] == 32 {
            self.lemma_advanced(new, 1, true);
        } else {
            self.lemma_advanced(new, 0, true);
        }
    }

    /// A successful signed number leaves fewer readable bytes.
    pub proof fn lemma_number64_shrinks(&self, new: &AsyncDecoder, r: ImapResult<i64>)
        requires
            self.wf(),
            number64_result(self, new, r),
            r is Ok,
        ensures
            new.wf(),
            new.stream().len() < self.stream().len(),
    {
        let s = self.stream();
        let neg = s.len() > 0 && s[0] == 45;
        let t = if neg { s.skip(1) } else { s };
        lemma_span(t, ByteClass::Digit);
        let n = span(t, ByteClass::Digit);
        let total: nat = if neg { n + 1 } else { n };
        self.lemma_advanced(new, total, true);
    }

    /// A successful astring leaves fewer readable bytes.
    pub proof fn lemma_astring_shrinks(&self, new: &AsyncDecoder, r: ImapResult<String>, c: ByteClass, missing: Seq<char>)
        requires
            self.wf(),
            astring_result(self, new, r, c, missing),
            r is Ok,
        ensures
            new.wf(),
            new.stream().len() < self.stream().len(),
    {
        let s = self.stream();
        if s[0] == 34 {
            match quoted_body(s.skip(1)) {
                Some((cc, k)) => {
                    self.lemma_advanced(new, k + 1, false);
                },
                None => {},
            }
        } else if s[0] == 123 {
            match literal_header(s) {
                Some((size, ns, h)) => {
                    self.lemma_literal_done(new, h, size as nat);
                    let plen: int = if self.pushed_back is Some { 1 } else { 0 };
                    assert(new.raw().len() == self.raw().len() - (h - plen) - size);
                },
                None => {},
            }
        } else {
            self.lemma_run_shrinks(new, r, c, missing);
        }
    }

    proof fn lemma_advanced_zero(&self)
        ensures
            self.advanced(self, 0, false),
    {
    }

    /// Reads one byte.
    pub fn read_byte(&mut self) -> (r: ImapResult<u8>)
        requires
            old(self).wf(),
        ensures
            final(self).wf(),
            old(self).stream().len() > 0 ==> r == Ok::<u8, ImapError>(old(self).stream()[0])
                && old(self).advanced(final(self), 1, false),
            old(self).stream().len() == 0 ==> r is Err && old(self).end_error(r->Err_0)
                && old(self).exhausted(final(self)),
    {
        proof {
            self.lemma_advanced_zero();
        }
        if let Some(b) = self.pushed_back.take() {
            return Ok(b);
        }
        if self.max_size > 0 && self.read_bytes > self.max_size {
            return Err(ImapError::bad("max command size exceeded"));
        }
        if self.pos >= self.input.len() {
            return Err(ImapError::Closed);
        }
        let b = self.input[self.pos];
        self.pos += 1;
        self.read_bytes += 1;
        Ok(b)
    }

    /// Pushes a byte back: the next read returns it. A byte already pushed
    /// back is dropped.
    pub fn unread_byte(&mut self, b: u8)
        requires
            old(self).wf(),
        ensures
            final(self).wf(),
            final(self).pushed() == Some(b),
            old(self).pushed_to(final(self), b),
            final(self).raw() == old(self).raw(),
            final(self).used() == old(self).used(),
            final(self).limit() == old(self).limit(),
            final(self).limit_hit() == old(self).limit_hit(),
            final(self).stream() == seq![b] + (if old(self).pushed() is Some {
                old(self).stream().skip(1)
            } else {
                old(self).stream()
            }),
    {
        let ghost s = self.stream();
        self.pushed_back = Some(b);
        proof {
            if old(self).pushed_back is Some {
                assert(s.skip(1) =~= (if self.budget() < self.raw().len() {
                    self.raw().take(self.budget() as int)
                } else {
                    self.raw()
                }));
            }
        }
    }

    /// Reads a byte and pushes it back after one that was read.
    fn unread_after(&mut self, b: u8, Ghost(start): Ghost<AsyncDecoder>, Ghost(n): Ghost<nat>)
        requires
            old(self).wf(),
            start.wf(),
            start.advanced(old(self), n + 1, false),
            b == start.stream()[n as int],
        ensures
            final(self).wf(),
            start.advanced(final(self), n, true),
    {
        self.pushed_back = Some(b);
    }

    /// The decoder before any read has read nothing.
    pub proof fn lemma_advanced_zero_pub(&self)
        ensures
            self.advanced(self, 0, false),
    {
    }

    /// Reads a byte and pushes it back.
    pub fn peek_byte(&mut self) -> (r: ImapResult<u8>)
        requires
            old(self).wf(),
        ensures
            final(self).wf(),
            old(self).stream().len() > 0 ==> r == Ok::<u8, ImapError>(old(self).stream()[0])
                && old(self).advanced(final(self), 0, true),
            old(self).stream().len() == 0 ==> r is Err && old(self).end_error(r->Err_0)
                && old(self).exhausted(final(self)),
    {
        let ghost start = *self;
        let b = self.read_byte()?;
        self.unread_after(b, Ghost(start), Ghost(0));
        Ok(b)
    }

    /// Reads the next byte if it is `want`; otherwise pushes it back.
    pub(crate) fn accept_byte(&mut self, want: u8) -> (r: ImapResult<bool>)
        requires
            old(self).wf(),
        ensures
            final(self).wf(),
            old(self).stream().len() > 0 ==> r == Ok::<bool, ImapError>(old(self).stream()[0]
                == want) && if old(self).stream()[0] == want {
                old(self).advanced(final(self), 1, false)
            } else {
                old(self).advanced(final(self), 0, true)
            },
            old(self).stream().len() == 0 ==> r is Err && old(self).end_error(r->Err_0)
                && old(self).exhausted(final(self)),
    {
        let ghost start = *self;
        let b = self.read_byte()?;
        if b == want {
            Ok(true)
        } else {
            self.unread_after(b, Ghost(start), Ghost(0));
            Ok(false)
        }
    }

    /// Reads the longest run of bytes in class `c` and pushes back the byte
    /// after it.
    pub(crate) fn read_class(&mut self, c: ByteClass) -> (r: ImapResult<Vec<u8>>)
        requires
            old(self).wf(),
        ensures
            final(self).wf(),
            ({
                let s = old(self).stream();
                let n = span(s, c);
                if n < s.len() {
                    r is Ok && r->Ok_0@ == s.take(n as int) && old(self).advanced(
                        final(self),
                        n,
                        true,
                    )
                } else {
                    r is Err && old(self).end_error(r->Err_0) && old(self).exhausted(final(self))
                }
            }),
    {
        let ghost start = *self;
        let ghost s = self.stream();
        let mut v: Vec<u8> = Vec::new();
        proof {
            self.lemma_advanced_zero();
        }
        loop
            invariant
                self.wf(),
                start.wf(),
                start == *old(self),
                s == start.stream(),
                v@.len() <= s.len(),
                v@ == s.take(v@.len() as int),
                forall|j: int| 0 <= j < v@.len() ==> in_class(c, #[trigger] s[j]),
                start.advanced(&*self, v@.len() as nat, false),
            decreases s.len() - v@.len(),
        {
            let ghost mid = *self;
            proof {
                start.lemma_advanced(&mid, v@.len() as nat, false);
            }
            let b = match self.read_byte() {
                Ok(b) => b,
                Err(e) => {
                    proof {
                        start.lemma_advance_more(&mid, self, v@.len() as nat, mid.stream().len(), false);
                        lemma_span_unique(s, c, v@.len() as int);
                        assert(mid.stream() == s.skip(v@.len() as int));
                    }
                    return Err(e);
                },
            };
            proof {
                start.lemma_advance_more(&mid, self, v@.len() as nat, 1, false);
            }
            if !class_has(c, b) {
                proof {
                    assert(mid.stream() == s.skip(v@.len() as int));
                    assert(b == s[v@.len() as int]);
                    lemma_span_unique(s, c, v@.len() as int);
                }
                let ghost n = v@.len() as nat;
                self.unread_after(b, Ghost(start), Ghost(n));
                return Ok(v);
            }
            v.push(b);
            assert(v@ =~= s.take(v@.len() as int));
        }
    }

    fn read_run(&mut self, c: ByteClass, missing: &str) -> (r: ImapResult<String>)
        requires
            old(self).wf(),
        ensures
            final(self).wf(),
            run_result(old(self), final(self), r, c, missing@),
    {
        proof {
            lemma_span(self.stream(), c);
        }
        let v = match self.read_class(c) {
            Ok(v) => v,
            Err(e) => {
                return Err(e);
            },
        };
        if v.len() == 0 {
            Err(ImapError::bad(missing))
        } else {
            Ok(string_from_latin1(&v))
        }
    }

    /// The spot where the decoder stands, to come back to with `rewind`.
    pub fn mark(&self) -> (r: (usize, u64, Option<u8>))
        ensures
            r == self.spot(),
    {
        (self.pos, self.read_bytes, self.pushed_back)
    }

    /// Goes back to spot `m`, taken before the reads since: what was read
    /// after it is read again.
    pub fn rewind(&mut self, m: (usize, u64, Option<u8>))
        requires
            old(self).rewound(m).wf(),
        ensures
            *final(self) == old(self).rewound(m),
            final(self).wf(),
    {
        self.pos = m.0;
        self.read_bytes = m.1;
        self.pushed_back = m.2;
    }

    /// Reads an atom.
    pub fn read_atom(&mut self) -> (r: ImapResult<String>)
        requires
            old(self).wf(),
        ensures
            final(self).wf(),
            run_result(old(self), final(self), r, ByteClass::Atom, "expected atom"@),
    {
        self.read_run(ByteClass::Atom, "expected atom")
    }

    /// Reads a FETCH attribute keyword: an atom that also stops at `[`,
    /// which begins the section of `BODY[...]`.
    pub fn read_fetch_att_name(&mut self) -> (r: ImapResult<String>)
        requires
            old(self).wf(),
        ensures
            final(self).wf(),
            run_result(
                old(self),
                final(self),
                r,
                ByteClass::FetchName,
                "expected fetch attribute"@,
            ),
    {
        self.read_run(ByteClass::FetchName, "expected fetch attribute")
    }

    /// Reads a sequence set string (a run of atom characters and `*`).
    pub fn read_num_set_str(&mut self) -> (r: ImapResult<String>)
        requires
            old(self).wf(),
        ensures
            final(self).wf(),
            run_result(old(self), final(self), r, ByteClass::NumSet, "expected sequence-set"@),
    {
        self.read_run(ByteClass::NumSet, "expected sequence-set")
    }

    /// Reads text up to (not including) CR or LF.
    pub fn read_text(&mut self) -> (r: ImapResult<String>)
        requires
            old(self).wf(),
        ensures
            final(self).wf(),
            ({
                let s = old(self).stream();
                let n = span(s, ByteClass::Text);
                if n < s.len() {
                    r is Ok && r->Ok_0@ == latin1(s.take(n as int)) && old(self).advanced(
                        final(self),
                        n,
                        true,
                    )
                } else {
                    r is Err && old(self).end_error(r->Err_0) && old(self).exhausted(final(self))
                }
            }),
    {
        let v = self.read_class(ByteClass::Text)?;
        Ok(string_from_latin1(&v))
    }

    /// Reads an optional SP, an optional CR, and a LF.
    pub fn expect_crlf(&mut self) -> (r: ImapResult<()>)
        requires
            old(self).wf(),
        ensures
            final(self).wf(),
            crlf_result(old(self), final(self), r),
    {
        let ghost d0 = *self;
        let sp = self.accept_byte(32u8)?;
        let ghost d1 = *self;
        proof {
            if sp {
                d0.lemma_advanced(&d1, 1, false);
            } else {
                d0.lemma_advanced(&d1, 0, true);
            }
        }
        let ghost a: nat = if sp { 1 } else { 0 };
        let cr = match self.accept_byte(13u8) {
            Ok(x) => x,
            Err(e) => {
                proof {
                    d0.lemma_chain_end(&d1, self, a, !sp);
                }
                return Err(e);
            },
        };
        let ghost d2 = *self;
        proof {
            if cr {
                d0.lemma_chain(&d1, &d2, a, !sp, 1, false);
            } else {
                d0.lemma_chain(&d1, &d2, a, !sp, 0, true);
            }
        }
        let ghost b: nat = if cr { a + 1 } else { a };
        let lf = match self.accept_byte(10u8) {
            Ok(x) => x,
            Err(e) => {
                proof {
                    d0.lemma_chain_end(&d2, self, b, !cr);
                }
                return Err(e);
            },
        };
        proof {
            if lf {
                d0.lemma_chain(&d2, self, b, !cr, 1, false);
            } else {
                d0.lemma_chain(&d2, self, b, !cr, 0, true);
            }
        }
        if !lf {
            return Err(ImapError::bad("expected CRLF"));
        }
        Ok(())
    }

    /// Reads up to and including the next LF, or to the end of the readable
    /// bytes. Gives whether an LF was reached.
    pub fn discard_line(&mut self) -> (r: bool)
        requires
            old(self).wf(),
        ensures
            final(self).wf(),
            r == (find_byte(old(self).stream(), 10) < old(self).stream().len()),
            ({
                let s = old(self).stream();
                let k = find_byte(s, 10);
                if k < s.len() {
                    old(self).advanced(final(self), k + 1, false)
                } else {
                    old(self).exhausted(final(self))
                }
            }),
    {
        let ghost start = *self;
        let ghost s = self.stream();
        let ghost mut i: nat = 0;
        proof {
            self.lemma_advanced_zero();
            assert(s.skip(0) =~= s);
        }
        loop
            invariant
                self.wf(),
                start.wf(),
                start == *old(self),
                s == start.stream(),
                i <= s.len(),
                find_byte(s, 10) == i + find_byte(s.skip(i as int), 10),
                start.advanced(&*self, i, false),
            decreases s.len() - i,
        {
            let ghost mid = *self;
            proof {
                start.lemma_advanced(&mid, i, false);
            }
            match self.read_byte() {
                Ok(b) => {
                    proof {
                        start.lemma_advance_more(&mid, self, i, 1, false);
                        assert(s.skip(i as int)[0] == b);
                        assert(s.skip(i as int).drop_first() =~= s.skip((i + 1) as int));
                    }
                    if b == 10u8 {
                        return true;
                    }
                    proof {
                        i = i + 1;
                    }
                },
                Err(_) => {
                    proof {
                        start.lemma_advance_more(&mid, self, i, mid.stream().len(), false);
                    }
                    return false;
                },
            }
        }
    }

    /// Reads SP (not followed by CR or LF); a `(` in its place is left
    /// unread.
    pub fn expect_sp(&mut self) -> (r: ImapResult<()>)
        requires
            old(self).wf(),
        ensures
            final(self).wf(),
            sp_result(old(self), final(self), r),
    {
        let ghost d0 = *self;
        let b = self.read_byte()?;
        let ghost d1 = *self;
        proof {
            d0.lemma_advanced(&d1, 1, false);
        }
        if b == 32u8 {
            let next = match self.read_byte() {
                Ok(x) => x,
                Err(e) => {
                    proof {
                        d0.lemma_chain_end(&d1, self, 1, false);
                    }
                    return Err(e);
                },
            };
            proof {
                d0.lemma_chain(&d1, self, 1, false, 1, false);
            }
            self.unread_after(next, Ghost(d0), Ghost(1));
            if next == 13u8 || next == 10u8 {
                return Err(ImapError::bad("expected SP"));
            }
            Ok(())
        } else if b == 40u8 {
            self.unread_after(b, Ghost(d0), Ghost(0));
            Ok(())
        } else {
            Err(ImapError::bad("expected SP"))
        }
    }

    /// Reads a number (a run of digits) that fits in 32 bits.
    pub fn read_number(&mut self) -> (r: ImapResult<u32>)
        requires
            old(self).wf(),
        ensures
            final(self).wf(),
            number_result(old(self), final(self), r),
    {
        proof {
            lemma_span(self.stream(), ByteClass::Digit);
        }
        let v = match self.read_class(ByteClass::Digit) {
            Ok(v) => v,
            Err(e) => {
                return Err(e);
            },
        };
        if v.len() == 0 {
            return Err(ImapError::bad("expected number"));
        }
        match digits_to_u64(&v, 4294967295u64) {
            Some(n) => Ok(n as u32),
            None => Err(ImapError::bad("number overflow")),
        }
    }

    /// Reads a signed 64-bit number: an optional `-` and digits.
    pub fn read_number64(&mut self) -> (r: ImapResult<i64>)
        requires
            old(self).wf(),
        ensures
            final(self).wf(),
            number64_result(old(self), final(self), r),
    {
        let ghost d0 = *self;
        let ghost s = self.stream();
        let first = self.peek_byte()?;
        let neg = first == 45u8;
        let ghost d1 = *self;
        if neg {
            let _ = self.read_byte();
            proof {
                d0.lemma_chain(&d1, self, 0, true, 1, false);
            }
        }
        let ghost d2 = *self;
        let ghost pre: nat = if neg { 1 } else { 0 };
        proof {
            if !neg {
                d0.lemma_advanced(&d1, 0, true);
            }
            assert(d2.stream() =~= if neg { s.skip(1) } else { s });
            lemma_span(d2.stream(), ByteClass::Digit);
        }
        let v = match self.read_class(ByteClass::Digit) {
            Ok(v) => v,
            Err(e) => {
                proof {
                    if neg {
                        d0.lemma_chain_end(&d2, self, 1, false);
                    } else {
                        d0.lemma_chain_end(&d1, self, 0, true);
                    }
                }
                return Err(e);
            },
        };
        proof {
            if neg {
                d0.lemma_chain(&d2, self, 1, false, v@.len() as nat, true);
            } else {
                d0.lemma_chain(&d1, self, 0, true, v@.len() as nat, true);
            }
        }
        if !neg && v.len() == 0 {
            return Err(ImapError::bad("expected number64"));
        }
        if v.len() == 0 {
            return Err(ImapError::bad("number64 overflow"));
        }
        if neg {
            match digits_to_u64(&v, 9223372036854775808u64) {
                Some(n) => {
                    if n == 9223372036854775808u64 {
                        Ok(i64::MIN)
                    } else {
                        Ok(-(n as i64))
                    }
                },
                None => Err(ImapError::bad("number64 overflow")),
            }
        } else {
            match digits_to_u64(&v, 9223372036854775807u64) {
                Some(n) => Ok(n as i64),
                None => Err(ImapError::bad("number64 overflow")),
            }
        }
    }

    /// Reads a flag: a keyword atom (`Junk`, `$MDNSent`) or `\` and an atom
    /// (`\Seen`, `\$Label1`).
    pub fn read_flag(&mut self) -> (r: ImapResult<String>)
        requires
            old(self).wf(),
        ensures
            final(self).wf(),
            flag_result(old(self), final(self), r),
    {
        let ghost d0 = *self;
        let ghost s = self.stream();
        let first = self.peek_byte()?;
        let bs = first == 92u8;
        let ghost d1 = *self;
        proof {
            d0.lemma_peeked(&d1);
        }
        if bs {
            let _ = self.read_byte();
            proof {
                d0.lemma_chain(&d1, self, 0, true, 1, false);
            }
        }
        let ghost d2 = *self;
        proof {
            assert(d2.stream() =~= if bs { s.skip(1) } else { s });
            lemma_span(d2.stream(), ByteClass::Atom);
        }
        let v = match self.read_class(ByteClass::Atom) {
            Ok(v) => v,
            Err(e) => {
                proof {
                    if bs {
                        d0.lemma_chain_end(&d2, self, 1, false);
                    }
                }
                return Err(e);
            },
        };
        proof {
            if bs {
                d0.lemma_chain(&d2, self, 1, false, v@.len() as nat, true);
            }
        }
        if v.len() == 0 {
            return Err(ImapError::bad("expected flag"));
        }
        let mut out: Vec<u8> = Vec::new();
        if bs {
            out.push(92u8);
        }
        let mut i: usize = 0;
        while i < v.len()
            invariant
                i <= v.len(),
                out@ == (if bs { seq![92u8] } else { Seq::<u8>::empty() }) + v@.take(i as int),
            decreases v.len() - i,
        {
            out.push(v[i]);
            i += 1;
            assert(out@ =~= (if bs { seq![92u8] } else { Seq::<u8>::empty() }) + v@.take(i as int));
        }
        proof {
            let total: int = if bs { v@.len() + 1 as int } else { v@.len() as int };
            assert(out@ =~= s.take(total));
        }
        Ok(string_from_latin1(&out))
    }

    /// Reads a quoted string.
    pub fn read_quoted(&mut self) -> (r: ImapResult<String>)
        requires
            old(self).wf(),
        ensures
            final(self).wf(),
            quoted_result(old(self), final(self), r),
    {
        let ghost d0 = *self;
        let ghost s = self.stream();
        let open = self.accept_byte(34u8)?;
        if !open {
            return Err(ImapError::bad("expected '\"'"));
        }
        let ghost t = s.skip(1);
        let mut acc: Vec<u8> = Vec::new();
        let ghost mut i: nat = 0;
        proof {
            d0.lemma_advanced(self, 1, false);
            assert(t.skip(0) =~= t);
        }
        loop
            invariant
                self.wf(),
                d0.wf(),
                d0 == *old(self),
                s == d0.stream(),
                s.len() > 0 && s[0] == 34,
                t == s.skip(1),
                i <= t.len(),
                d0.advanced(&*self, i + 1, false),
                quoted_body(t) == match quoted_body(t.skip(i as int)) {
                    Some((c, k)) => Some((acc@ + c, k + i)),
                    None => None,
                },
            decreases t.len() - i,
        {
            let ghost mid = *self;
            proof {
                d0.lemma_advanced(&mid, i + 1, false);
                assert(mid.stream() =~= t.skip(i as int));
            }
            let b = match self.read_byte() {
                Ok(b) => b,
                Err(e) => {
                    proof {
                        d0.lemma_chain_end(&mid, self, i + 1, false);
                    }
                    return Err(e);
                },
            };
            proof {
                d0.lemma_chain(&mid, self, i + 1, false, 1, false);
            }
            if b == 34u8 {
                return Ok(string_from_latin1(&acc));
            }
            if b == 92u8 {
                let ghost mid2 = *self;
                let esc = match self.read_byte() {
                    Ok(x) => x,
                    Err(e) => {
                        proof {
                            d0.lemma_chain_end(&mid2, self, i + 2, false);
                        }
                        return Err(e);
                    },
                };
                proof {
                    d0.lemma_chain(&mid2, self, i + 2, false, 1, false);
                    assert(t.skip(i as int).skip(2) =~= t.skip((i + 2) as int));
                    assert(esc == t.skip(i as int)[1]);
                }
                let ghost old_acc = acc@;
                acc.push(esc);
                proof {
                    assert forall|c: Seq<u8>| old_acc + (seq![esc] + c) == acc@ + c by {
                        assert(old_acc + (seq![esc] + c) =~= acc@ + c);
                    }
                    i = i + 2;
                }
            } else {
                proof {
                    assert(t.skip(i as int).skip(1) =~= t.skip((i + 1) as int));
                    assert(b == t.skip(i as int)[0]);
                }
                let ghost old_acc = acc@;
                acc.push(b);
                proof {
                    assert forall|c: Seq<u8>| old_acc + (seq![b] + c) == acc@ + c by {
                        assert(old_acc + (seq![b] + c) =~= acc@ + c);
                    }
                    i = i + 1;
                }
            }
        }
    }

    /// Reads a literal's header, `{N}` or `{N+}` and CRLF.
    #[verifier::rlimit(40)]
    fn read_literal_header(&mut self) -> (r: ImapResult<(i64, bool)>)
        requires
            old(self).wf(),
        ensures
            final(self).wf(),
            match literal_header(old(self).stream()) {
                Some((size, ns, h)) => r == Ok::<(i64, bool), ImapError>((size, ns))
                    && old(self).advanced(final(self), h, false),
                None => r is Err,
            },
    {
        let ghost d0 = *self;
        let ghost s = self.stream();
        let open = self.accept_byte(123u8)?;
        if !open {
            return Err(ImapError::bad("expected '{'"));
        }
        let ghost d1 = *self;
        proof {
            d0.lemma_advanced(&d1, 1, false);
        }
        let ghost t = s.skip(1);
        let size = self.read_number64()?;
        let ghost d2 = *self;
        let ghost neg = t.len() > 0 && t[0] == 45;
        let ghost u = if neg { t.skip(1) } else { t };
        let ghost total: nat = if neg { span(u, ByteClass::Digit) + 1 } else { span(u, ByteClass::Digit) };
        proof {
            d0.lemma_chain(&d1, &d2, 1, false, total, true);
        }
        let ghost w = t.skip(total as int);
        let non_sync = match self.accept_byte(43u8) {
            Ok(x) => x,
            Err(e) => {
                return Err(e);
            },
        };
        let ghost d3 = *self;
        let ghost p: nat = if non_sync { 1 } else { 0 };
        proof {
            if non_sync {
                d0.lemma_chain(&d2, &d3, 1 + total, true, 1, false);
            } else {
                d0.lemma_chain(&d2, &d3, 1 + total, true, 0, true);
            }
            assert(w.skip(0) =~= w);
            assert(d3.stream() =~= w.skip(p as int));
        }
        let ghost x = w.skip(p as int);
        let cb = match self.read_byte() {
            Ok(b) => b,
            Err(e) => {
                return Err(e);
            },
        };
        let ghost d4 = *self;
        proof {
            d0.lemma_chain(&d3, &d4, 1 + total + p, !non_sync, 1, false);
        }
        if cb != 125u8 {
            return Err(ImapError::bad("expected '}'"));
        }
        let cr = match self.read_byte() {
            Ok(b) => b,
            Err(e) => {
                return Err(e);
            },
        };
        let ghost d5 = *self;
        proof {
            d0.lemma_chain(&d4, &d5, 1 + total + p + 1, false, 1, false);
        }
        let lf = match self.read_byte() {
            Ok(b) => b,
            Err(e) => {
                return Err(e);
            },
        };
        proof {
            d0.lemma_chain(&d5, self, 1 + total + p + 2, false, 1, false);
            assert(x[0] == cb && x[1] == cr && x[2] == lf);
        }
        if cr != 13u8 || lf != 10u8 {
            return Err(ImapError::bad("expected CRLF after literal"));
        }
        Ok((size, non_sync))
    }

    /// Reads `size` received bytes (bypassing push-back and the size budget).
    fn take_raw(&mut self, size: i64) -> (r: ImapResult<Vec<u8>>)
        requires
            old(self).wf(),
            old(self).pushed() is None,
        ensures
            final(self).wf(),
            size >= 0 && old(self).raw().len() >= size ==> {
                &&& r is Ok
                &&& r->Ok_0@ == old(self).raw().take(size as int)
                &&& final(self).input == old(self).input
                &&& final(self).max_size == old(self).max_size
                &&& final(self).err == old(self).err
                &&& final(self).pos == old(self).pos + size
                &&& final(self).read_bytes == old(self).read_bytes + size
                &&& final(self).pushed_back is None
            },
            !(size >= 0 && old(self).raw().len() >= size) ==> r is Err,
    {
        if size < 0 {
            return Err(ImapError::Closed);
        }
        let avail = self.input.len() - self.pos;
        if (avail as u64) < (size as u64) {
            return Err(ImapError::Closed);
        }
        let n = size as usize;
        let start = self.pos;
        let mut data: Vec<u8> = Vec::new();
        let mut i: usize = 0;
        while i < n
            invariant
                i <= n,
                start + n <= self.input.len(),
                data@ == self.input@.subrange(start as int, start + i),
            decreases n - i,
        {
            data.push(self.input[start + i]);
            i += 1;
            assert(data@ =~= self.input@.subrange(start as int, start + i));
        }
        assert(data@ =~= old(self).raw().take(size as int));
        self.pos = start + n;
        self.read_bytes = self.read_bytes + n as u64;
        Ok(data)
    }

    /// Reads a literal: `{N}` or `{N+}`, CRLF, then N bytes of data.
    /// Gives the data and whether the literal is non-synchronizing.
    pub fn read_literal(&mut self) -> (r: ImapResult<(Vec<u8>, bool)>)
        requires
            old(self).wf(),
        ensures
            final(self).wf(),
            literal_result(old(self), final(self), r),
    {
        let ghost d0 = *self;
        let (size, non_sync) = self.read_literal_header()?;
        proof {
            let h = literal_header(d0.stream())->Some_0.2;
            d0.lemma_advanced(self, h, false);
            assert(self.raw() =~= d0.raw_after(h));
        }
        let data = self.take_raw(size)?;
        Ok((data, non_sync))
    }

    /// Reads a literal's data.
    pub fn read_literal_data(&mut self) -> (r: ImapResult<Vec<u8>>)
        requires
            old(self).wf(),
        ensures
            final(self).wf(),
            ({
                match literal_header(old(self).stream()) {
                    Some((size, ns, h)) => if size >= 0 && old(self).raw_after(h).len() >= size {
                        r is Ok && r->Ok_0@ == old(self).raw_after(h).take(size as int)
                            && old(self).literal_done(final(self), h, size as nat)
                    } else {
                        r is Err
                    },
                    None => r is Err,
                }
            }),
    {
        let (data, _) = self.read_literal()?;
        Ok(data)
    }

    /// Reads a string: quoted, or a literal whose data is UTF-8.
    pub fn read_string(&mut self) -> (r: ImapResult<String>)
        requires
            old(self).wf(),
        ensures
            final(self).wf(),
            string_result(old(self), final(self), r),
    {
        let ghost d0 = *self;
        let b = self.peek_byte()?;
        proof {
            d0.lemma_peeked(self);
        }
        if b == 34u8 {
            return self.read_quoted();
        }
        let bytes = self.read_literal_data()?;
        match utf8_string(bytes) {
            Some(s) => Ok(s),
            None => Err(ImapError::bad("literal not valid UTF-8")),
        }
    }

    fn read_string_or_run(&mut self, c: ByteClass, missing: &str) -> (r: ImapResult<String>)
        requires
            old(self).wf(),
        ensures
            final(self).wf(),
            astring_result(old(self), final(self), r, c, missing@),
    {
        let ghost d0 = *self;
        let b = self.peek_byte()?;
        proof {
            d0.lemma_peeked(self);
        }
        if b == 34u8 || b == 123u8 {
            return self.read_string();
        }
        self.read_run(c, missing)
    }

    /// Reads an astring: an atom (where `]` is allowed) or a string.
    pub fn read_astring(&mut self) -> (r: ImapResult<String>)
        requires
            old(self).wf(),
        ensures
            final(self).wf(),
            astring_result(old(self), final(self), r, ByteClass::AString, "expected astring"@),
    {
        self.read_string_or_run(ByteClass::AString, "expected astring")
    }

    /// Reads a LIST mailbox pattern: like an astring, with `*` and `%`.
    pub fn read_list_mailbox(&mut self) -> (r: ImapResult<String>)
        requires
            old(self).wf(),
        ensures
            final(self).wf(),
            astring_result(old(self), final(self), r, ByteClass::List, "expected list-mailbox"@),
    {
        self.read_string_or_run(ByteClass::List, "expected list-mailbox")
    }

    /// Reads an nstring: `NIL` as `None`, else a string.
    pub fn read_nstring(&mut self) -> (r: ImapResult<Option<String>>)
        requires
            old(self).wf(),
        ensures
            final(self).wf(),
            nstring_result(old(self), final(self), r),
    {
        let ghost d0 = *self;
        let b = self.peek_byte()?;
        proof {
            d0.lemma_peeked(self);
            lemma_span(d0.stream(), ByteClass::Atom);
        }
        if b == 78u8 || b == 110u8 {
            let atom = self.read_class(ByteClass::Atom)?;
            if bytes_eq_ignore_case(&atom, &[78u8, 73u8, 76u8]) {
                return Ok(None);
            }
            return Err(ImapError::bad("expected NIL or string"));
        }
        match self.read_string() {
            Ok(x) => Ok(Some(x)),
            Err(e) => Err(e),
        }
    }

    /// Reads a non-empty atom as bytes.
    fn read_atom_bytes(&mut self) -> (r: ImapResult<Vec<u8>>)
        requires
            old(self).wf(),
        ensures
            final(self).wf(),
            ({
                let s = old(self).stream();
                let n = span(s, ByteClass::Atom);
                if 0 < n < s.len() {
                    r is Ok && r->Ok_0@ == s.take(n as int) && old(self).advanced(final(self), n, true)
                } else {
                    r is Err
                }
            }),
    {
        let v = self.read_class(ByteClass::Atom)?;
        if v.len() == 0 {
            return Err(ImapError::bad("expected atom"));
        }
        Ok(v)
    }

    /// Reads empty lines, the tag and the SP after it.
    fn read_command_head(&mut self) -> (r: ImapResult<Vec<u8>>)
        requires
            old(self).wf(),
        ensures
            final(self).wf(),
            match command_head(old(self).stream()) {
                Some((tag, h)) => r is Ok && r->Ok_0@ == tag && old(self).advanced(
                    final(self),
                    h,
                    true,
                ),
                None => r is Err,
            },
    {
        let ghost d0 = *self;
        proof {
            lemma_span(d0.stream(), ByteClass::Eol);
        }
        let ghost s = d0.stream();
        let _ = self.read_class(ByteClass::Eol)?;
        let ghost k = span(s, ByteClass::Eol);
        let ghost d1 = *self;
        proof {
            d0.lemma_advanced(&d1, k, true);
        }
        let ghost t = s.skip(k as int);
        let tag = match self.read_atom_bytes() {
            Ok(x) => x,
            Err(e) => {
                proof {
                    assert(d1.stream() == t);
                    let a = span(t, ByteClass::Atom);
                    lemma_span(t, ByteClass::Atom);
                    if a == t.len() {
                        assert(t.skip(a as int).len() == 0);
                    }
                }
                return Err(e);
            },
        };
        let ghost a = span(t, ByteClass::Atom);
        let ghost d2 = *self;
        proof {
            d0.lemma_chain(&d1, &d2, k, true, a, true);
        }
        let ghost u = t.skip(a as int);
        self.expect_sp()?;
        proof {
            assert(d2.stream() =~= u);
            let p: nat = sp_len(u)->Some_0;
            if p == 1 {
                d0.lemma_chain(&d2, self, k + a, true, 1, true);
            } else {
                d0.lemma_lemma_keep(&d2, self, k + a);
            }
        }
        Ok(tag)
    }

    /// Reads the verb (and the real verb after `UID`) and the SP after it.
    fn read_command_verb(&mut self) -> (r: ImapResult<(Vec<u8>, bool)>)
        requires
            old(self).wf(),
        ensures
            final(self).wf(),
            match command_verb(old(self).stream()) {
                Some((verb, uid, n, back)) => r is Ok && r->Ok_0.0@ == verb && r->Ok_0.1 == uid
                    && old(self).advanced(final(self), n, back),
                None => r is Err,
            },
    {
        let ghost d3 = *self;
        let ghost v = d3.stream();
        proof {
            lemma_span(v, ByteClass::Atom);
        }
        let verb_raw = self.read_atom_bytes()?;
        let ghost b = span(v, ByteClass::Atom);
        let ghost d4 = *self;
        proof {
            d3.lemma_advanced(&d4, b, true);
        }
        let mut verb = upper_vec(&verb_raw);
        let ghost w = v.skip(b as int);
        let uid = bytes_eq(&verb, &[85u8, 73u8, 68u8]);
        proof {
            assert(uid == (upper_bytes(v.take(b as int)) == uid_word())) by {
                if upper_bytes(v.take(b as int)) == uid_word() {
                    assert(verb@ =~= seq![85u8, 73u8, 68u8]);
                }
            }
        }
        let ghost mut pre: nat = b;
        if uid {
            self.expect_sp()?;
            let ghost q: nat = sp_len(w)->Some_0;
            let ghost d5 = *self;
            proof {
                assert(d4.stream() =~= w);
                if q == 1 {
                    d3.lemma_chain(&d4, &d5, b, true, 1, true);
                } else {
                    d3.lemma_lemma_keep(&d4, &d5, b);
                }
            }
            let ghost x = w.skip(q as int);
            proof {
                assert(d5.stream() =~= x);
                lemma_span(x, ByteClass::Atom);
            }
            let sub = self.read_atom_bytes()?;
            let ghost c = span(x, ByteClass::Atom);
            proof {
                d3.lemma_chain(&d5, self, b + q, true, c, true);
                pre = b + q + c;
            }
            verb = upper_vec(&sub);
        }
        let ghost d6 = *self;
        proof {
            d3.lemma_advanced(&d6, pre, true);
        }
        let nb = self.peek_byte()?;
        proof {
            d3.lemma_chain(&d6, self, pre, true, 0, true);
        }
        if nb == 32u8 {
            let ghost d7 = *self;
            let _ = self.read_byte();
            proof {
                d3.lemma_chain(&d7, self, pre, true, 1, false);
            }
        }
        Ok((verb, uid))
    }

    /// Reads a command's tag, verb and UID flag: `tag SP verb`, skipping
    /// empty lines before it, and the SP after the verb if there is one.
    /// The per-command size budget starts again here.
    pub fn read_command(&mut self) -> (r: ImapResult<Option<ParsedCommand>>)
        requires
            old(self).wf(),
        ensures
            final(self).wf(),
            match command_spec(old(self).reset().stream()) {
                Some((tag, verb, uid, n, back)) => {
                    &&& r matches Ok(Some(c))
                    &&& c.tag@ == latin1(tag)
                    &&& c.verb@ == latin1(verb)
                    &&& c.uid == uid
                    &&& old(self).reset().advanced(final(self), n, back)
                },
                None => r is Err,
            },
    {
        self.read_bytes = 0;
        let ghost d0 = *self;
        proof {
            assert(d0 == old(self).reset());
        }
        let tag = self.read_command_head()?;
        let ghost h = command_head(d0.stream())->Some_0.1;
        let ghost d3 = *self;
        proof {
            d0.lemma_advanced(&d3, h, true);
        }
        let (verb, uid) = self.read_command_verb()?;
        proof {
            let n = command_verb(d3.stream())->Some_0.2;
            d0.lemma_chain(&d3, self, h, true, n, command_verb(d3.stream())->Some_0.3);
        }
        let tag_s = string_from_latin1(&tag);
        let verb_s = string_from_latin1(&verb);
        Ok(Some(ParsedCommand { tag: tag_s, verb: verb_s, uid }))
    }

    /// A decoder over the bytes received so far, with a 50 KiB command limit.
    pub fn new(input: Vec<u8>) -> (r: Self)
        ensures
            r.wf(),
            r.raw() == input@,
            r.pushed() is None,
            r.limit() == 51200,
            r.used() == 0,
    {
        let r = AsyncDecoder {
            input,
            pos: 0,
            err: None,
            read_bytes: 0,
            max_size: 50 * 1024,
            pushed_back: None,
        };
        assert(r.raw() =~= r.input@);
        r
    }

    /// Appends newly received bytes.
    pub fn feed(&mut self, data: &[u8])
        requires
            old(self).wf(),
        ensures
            final(self).wf(),
            final(self).raw() == old(self).raw() + data@,
            final(self).pushed() == old(self).pushed(),
            final(self).limit() == old(self).limit(),
            final(self).used() == old(self).used(),
    {
        let ghost r0 = self.raw();
        let mut i: usize = 0;
        while i < data.len()
            invariant
                i <= data.len(),
                self.wf(),
                self.raw() == r0 + data@.take(i as int),
                self.pushed_back == old(self).pushed_back,
                self.max_size == old(self).max_size,
                self.read_bytes == old(self).read_bytes,
                self.pos == old(self).pos,
            decreases data.len() - i,
        {
            let ghost before = self.input@;
            self.input.push(data[i]);
            assert(self.input@.skip(self.pos as int) =~= before.skip(self.pos as int).push(
                data@[i as int],
            ));
            assert(data@.take(i + 1) =~= data@.take(i as int).push(data@[i as int]));
            i += 1;
            assert(self.raw() =~= r0 + data@.take(i as int));
        }
        assert(data@.take(data@.len() as int) =~= data@);
    }

    /// Sets the per-command size limit (0: none).
    pub fn set_max_size(&mut self, max: u64)
        requires
            old(self).wf(),
        ensures
            final(self).wf(),
            final(self).limit() == max,
            final(self).raw() == old(self).raw(),
            final(self).pushed() == old(self).pushed(),
            final(self).used() == old(self).used(),
    {
        self.max_size = max;
    }

    /// Takes the stored error (none is ever stored by reading).
    pub fn take_err(&mut self) -> (r: Option<ImapError>)
        requires
            old(self).wf(),
        ensures
            final(self).wf(),
            r is None,
            *final(self) == *old(self),
            final(self).stream() == old(self).stream(),
            final(self).raw() == old(self).raw(),
            final(self).pushed() == old(self).pushed(),
            final(self).limit_hit() == old(self).limit_hit(),
    {
        self.err.take()
    }
}


// ── Encoder ─────────────────────────────────────────────────────────

/// The bytes of `s` with `"` and `\` escaped by `\`.
pub open spec fn escape_quoted(s: Seq<u8>) -> Seq<u8>
    decreases s.len(),
{
    if s.len() == 0 {
        Seq::empty()
    } else {
        let b = s.last();
        escape_quoted(s.drop_last()) + if b == 34 || b == 92 {
            seq![92u8, b]
        } else {
            seq![b]
        }
    }
}

/// A quoted string: `"`, the escaped bytes, `"`.
pub open spec fn quoted_bytes(s: Seq<u8>) -> Seq<u8> {
    seq![34u8] + escape_quoted(s) + seq![34u8]
}

/// A synchronizing literal: `{N}`, CRLF, the data.
pub open spec fn literal_bytes(data: Seq<u8>) -> Seq<u8> {
    seq![123u8] + dec_digits(data.len()) + seq![125u8, 13, 10] + data
}

/// A string may be sent quoted: at most 4096 bytes, all 7-bit, none NUL,
/// CR or LF.
pub open spec fn quotable(s: Seq<u8>) -> bool {
    s.len() <= 4096 && forall|i: int|
        0 <= i < s.len() ==> #[trigger] s[i] != 0 && s[i] != 13 && s[i] != 10 && s[i] <= 127
}

/// A string on the wire: quoted when it may be, else a literal.
pub open spec fn string_bytes(s: Seq<u8>) -> Seq<u8> {
    if quotable(s) {
        quoted_bytes(s)
    } else {
        literal_bytes(s)
    }
}

/// An nstring on the wire: `NIL` for the empty string, else a string.
pub open spec fn nstring_bytes(s: Seq<u8>) -> Seq<u8> {
    if s.len() == 0 {
        seq![78u8, 73, 76]
    } else {
        string_bytes(s)
    }
}

/// The tag of a status line: `*` for the empty tag.
pub open spec fn tag_bytes(tag: Seq<u8>) -> Seq<u8> {
    if tag.len() == 0 {
        seq![42u8]
    } else {
        tag
    }
}

/// A status line: `tag TYPE [CODE] text` and CRLF.
pub open spec fn status_bytes(
    tag: Seq<u8>,
    typ: Seq<u8>,
    code: Option<Seq<u8>>,
    text: Seq<u8>,
) -> Seq<u8> {
    tag_bytes(tag) + seq![32u8] + typ + match code {
        Some(c) => seq![32u8, 91] + c + seq![93u8],
        None => Seq::empty(),
    } + seq![32u8] + text + seq![13u8, 10]
}

/// Each capability preceded by SP.
pub open spec fn caps_bytes(caps: Seq<Seq<u8>>) -> Seq<u8>
    decreases caps.len(),
{
    if caps.len() == 0 {
        Seq::empty()
    } else {
        caps_bytes(caps.drop_last()) + seq![32u8] + caps.last()
    }
}

/// The bytes `CAPABILITY`.
pub open spec fn capability_word() -> Seq<u8> {
    seq![67u8, 65, 80, 65, 66, 73, 76, 73, 84, 89]
}

/// A status line with a CAPABILITY code listing `caps`.
pub open spec fn capability_status_bytes(
    tag: Seq<u8>,
    typ: Seq<u8>,
    caps: Seq<Seq<u8>>,
    text: Seq<u8>,
) -> Seq<u8> {
    tag_bytes(tag) + seq![32u8] + typ + seq![32u8, 91] + capability_word() + caps_bytes(caps)
        + seq![93u8, 32] + text + seq![13u8, 10]
}

/// Whether a string may be sent quoted.
pub fn valid_quoted(s: &str) -> (r: bool)
    ensures
        r == quotable(s.spec_bytes()),
{
    let b = s.as_bytes();
    if b.len() > 4096 {
        return false;
    }
    let mut i: usize = 0;
    while i < b.len()
        invariant
            i <= b.len(),
            b@ == s.spec_bytes(),
            forall|j: int| 0 <= j < i ==> #[trigger] b@[j] != 0 && b@[j] != 13 && b@[j] != 10 && b@[j] <= 127,
        decreases b.len() - i,
    {
        let c = b[i];
        if c == 0u8 || c == 13u8 || c == 10u8 || c > 127u8 {
            return false;
        }
        i += 1;
    }
    true
}

/// Builds IMAP responses: the bytes waiting to be sent.
#[derive(Clone)]
pub struct Encoder {
    buf: Vec<u8>,
}

impl View for Encoder {
    type V = Seq<u8>;

    closed spec fn view(&self) -> Seq<u8> {
        self.buf@
    }
}

impl Encoder {
    /// An encoder with nothing written.
    pub fn new() -> (r: Self)
        ensures
            r@ == Seq::<u8>::empty(),
    {
        Encoder { buf: Vec::new() }
    }

    /// Hands out the bytes written so far and starts again empty.
    pub fn take_bytes(&mut self) -> (r: Vec<u8>)
        ensures
            r@ == old(self)@,
            final(self)@ == Seq::<u8>::empty(),
    {
        let mut out: Vec<u8> = Vec::new();
        std::mem::swap(&mut out, &mut self.buf);
        out
    }

    /// Appends bytes as they are.
    pub fn write_raw(&mut self, data: &[u8])
        ensures
            final(self)@ == old(self)@ + data@,
    {
        let mut i: usize = 0;
        while i < data.len()
            invariant
                i <= data.len(),
                self@ == old(self)@ + data@.take(i as int),
            decreases data.len() - i,
        {
            self.buf.push(data[i]);
            i += 1;
            assert(self@ =~= old(self)@ + data@.take(i as int));
        }
        assert(data@.take(data@.len() as int) =~= data@);
    }

    /// Writes an atom.
    pub fn atom(&mut self, s: &str)
        ensures
            final(self)@ == old(self)@ + s.spec_bytes(),
    {
        self.write_raw(s.as_bytes());
    }

    /// Writes SP.
    pub fn sp(&mut self)
        ensures
            final(self)@ == old(self)@.push(32u8),
    {
        self.buf.push(32u8);
    }

    /// Writes one byte.
    pub fn special(&mut self, ch: u8)
        ensures
            final(self)@ == old(self)@.push(ch),
    {
        self.buf.push(ch);
    }

    /// Writes a quoted string.
    pub fn quoted(&mut self, s: &str)
        ensures
            final(self)@ == old(self)@ + quoted_bytes(s.spec_bytes()),
    {
        let b = s.as_bytes();
        self.buf.push(34u8);
        let mut i: usize = 0;
        while i < b.len()
            invariant
                i <= b.len(),
                self@ == old(self)@ + seq![34u8] + escape_quoted(b@.take(i as int)),
            decreases b.len() - i,
        {
            let c = b[i];
            if c == 34u8 || c == 92u8 {
                self.buf.push(92u8);
            }
            self.buf.push(c);
            i += 1;
            assert(b@.take(i as int).drop_last() =~= b@.take(i - 1));
            assert(self@ =~= old(self)@ + seq![34u8] + escape_quoted(b@.take(i as int)));
        }
        self.buf.push(34u8);
        assert(b@.take(b@.len() as int) =~= b@);
        assert(self@ =~= old(self)@ + quoted_bytes(s.spec_bytes()));
    }

    /// Writes a synchronizing literal.
    pub fn literal(&mut self, data: &[u8])
        ensures
            final(self)@ == old(self)@ + literal_bytes(data@),
    {
        self.buf.push(123u8);
        push_dec(&mut self.buf, data.len() as u64);
        self.buf.push(125u8);
        self.buf.push(13u8);
        self.buf.push(10u8);
        self.write_raw(data);
        assert(self@ =~= old(self)@ + literal_bytes(data@));
    }

    /// Writes a string: quoted when it may be, else as a literal.
    pub fn string(&mut self, s: &str)
        ensures
            final(self)@ == old(self)@ + string_bytes(s.spec_bytes()),
    {
        if valid_quoted(s) {
            self.quoted(s);
        } else {
            self.literal(s.as_bytes());
        }
    }

    /// Writes an nstring: `NIL` for the empty string.
    pub fn nstring(&mut self, s: &str)
        ensures
            final(self)@ == old(self)@ + nstring_bytes(s.spec_bytes()),
    {
        if s.as_bytes().len() == 0 {
            self.nil();
        } else {
            self.string(s);
        }
    }

    /// Writes a number.
    pub fn number(&mut self, n: u32)
        ensures
            final(self)@ == old(self)@ + dec_digits(n as nat),
    {
        push_dec(&mut self.buf, n as u64);
    }

    /// Writes a signed 64-bit number.
    pub fn number64(&mut self, n: i64)
        ensures
            final(self)@ == old(self)@ + dec_signed(n as int),
    {
        push_dec_signed(&mut self.buf, n);
    }

    /// Writes `NIL`.
    pub fn nil(&mut self)
        ensures
            final(self)@ == old(self)@ + seq![78u8, 73, 76],
    {
        self.buf.push(78u8);
        self.buf.push(73u8);
        self.buf.push(76u8);
        assert(self@ =~= old(self)@ + seq![78u8, 73, 76]);
    }

    /// Writes text as it is.
    pub fn text(&mut self, s: &str)
        ensures
            final(self)@ == old(self)@ + s.spec_bytes(),
    {
        self.write_raw(s.as_bytes());
    }

    /// Writes a flag as it is.
    pub fn flag(&mut self, f: &str)
        ensures
            final(self)@ == old(self)@ + f.spec_bytes(),
    {
        self.write_raw(f.as_bytes());
    }

    /// Ends a line.
    pub fn crlf(&mut self)
        ensures
            final(self)@ == old(self)@ + seq![13u8, 10],
    {
        self.buf.push(13u8);
        self.buf.push(10u8);
        assert(self@ =~= old(self)@ + seq![13u8, 10]);
    }

    /// Writes a status line: `tag TYPE [CODE] text` (tag `*` when empty).
    pub fn write_status(&mut self, tag: &str, typ: &str, code: Option<&str>, text: &str)
        ensures
            final(self)@ == old(self)@ + status_bytes(
                tag.spec_bytes(),
                typ.spec_bytes(),
                match code {
                    Some(c) => Some(c.spec_bytes()),
                    None => None,
                },
                text.spec_bytes(),
            ),
    {
        if tag.as_bytes().len() == 0 {
            self.special(42u8);
        } else {
            self.atom(tag);
        }
        self.sp();
        self.atom(typ);
        match code {
            Some(c) => {
                self.sp();
                self.special(91u8);
                self.atom(c);
                self.special(93u8);
            },
            None => {},
        }
        self.sp();
        self.text(text);
        self.crlf();
        assert(self@ =~= old(self)@ + status_bytes(
            tag.spec_bytes(),
            typ.spec_bytes(),
            match code {
                Some(c) => Some(c.spec_bytes()),
                None => None,
            },
            text.spec_bytes(),
        ));
    }

    /// Writes a status line with a CAPABILITY code.
    pub fn write_capability_status(&mut self, tag: &str, typ: &str, caps: &[String], text: &str)
        ensures
            final(self)@ == old(self)@ + capability_status_bytes(
                tag.spec_bytes(),
                typ.spec_bytes(),
                caps@.map_values(|c: String| encode_utf8(c@)),
                text.spec_bytes(),
            ),
    {
        if tag.as_bytes().len() == 0 {
            self.special(42u8);
        } else {
            self.atom(tag);
        }
        self.sp();
        self.atom(typ);
        self.sp();
        self.special(91u8);
        self.write_raw(&[67u8, 65, 80, 65, 66, 73, 76, 73, 84, 89]);
        let ghost mid = self@;
        let mut i: usize = 0;
        while i < caps.len()
            invariant
                i <= caps.len(),
                self@ == mid + caps_bytes(caps@.map_values(|c: String| encode_utf8(c@)).take(i as int)),
            decreases caps.len() - i,
        {
            self.sp();
            self.atom(caps[i].as_str());
            i += 1;
            assert(caps@.map_values(|c: String| encode_utf8(c@)).take(i as int).drop_last()
                =~= caps@.map_values(|c: String| encode_utf8(c@)).take(i - 1));
        }
        self.special(93u8);
        self.sp();
        self.text(text);
        self.crlf();
        assert(caps@.map_values(|c: String| encode_utf8(c@)).take(caps@.len() as int)
            =~= caps@.map_values(|c: String| encode_utf8(c@)));
        assert(self@ =~= old(self)@ + capability_status_bytes(
            tag.spec_bytes(),
            typ.spec_bytes(),
            caps@.map_values(|c: String| encode_utf8(c@)),
            text.spec_bytes(),
        ));
    }

    /// Writes a continuation request: `+ text`.
    pub fn write_continuation(&mut self, text: &str)
        ensures
            final(self)@ == old(self)@ + seq![43u8, 32] + text.spec_bytes() + seq![13u8, 10],
    {
        self.special(43u8);
        self.sp();
        self.text(text);
        self.crlf();
        assert(self@ =~= old(self)@ + seq![43u8, 32] + text.spec_bytes() + seq![13u8, 10]);
    }
}


// ── One outcome per input ───────────────────────────────────────────

/// A run read from one decoder succeeds or fails alike, and when it
/// succeeds it leaves the same decoder.
pub proof fn lemma_run_det(
    d0: &AsyncDecoder,
    d1: &AsyncDecoder,
    r1: ImapResult<String>,
    d2: &AsyncDecoder,
    r2: ImapResult<String>,
    c: ByteClass,
    missing: Seq<char>,
)
    requires
        run_result(d0, d1, r1, c, missing),
        run_result(d0, d2, r2, c, missing),
    ensures
        r1 is Ok <==> r2 is Ok,
        r1 is Ok ==> *d1 == *d2 && r1->Ok_0@ == r2->Ok_0@,
{
    let s = d0.stream();
    let n = span(s, c);
    if r1 is Ok && n != s.len() && n != 0 {
        d0.lemma_advanced_det(d1, d2, n, true);
    }
}

/// The end of a line read from one decoder: one outcome.
pub proof fn lemma_crlf_det(d0: &AsyncDecoder, d1: &AsyncDecoder, r1: ImapResult<()>, d2: &AsyncDecoder, r2: ImapResult<()>)
    requires
        crlf_result(d0, d1, r1),
        crlf_result(d0, d2, r2),
    ensures
        r1 is Ok <==> r2 is Ok,
        r1 is Ok ==> *d1 == *d2,
{
    let s = d0.stream();
    let a: nat = if s.len() > 0 && s[0] == 32 {
        1
    } else {
        0
    };
    let b: nat = if s.len() > a && s[a as int] == 13 {
        a + 1
    } else {
        a
    };
    if r1 is Ok && s.len() > b && s[b as int] == 10 {
        d0.lemma_advanced_det(d1, d2, b + 1, false);
    }
}

/// An SP read from one decoder: one outcome.
pub proof fn lemma_sp_det(d0: &AsyncDecoder, d1: &AsyncDecoder, r1: ImapResult<()>, d2: &AsyncDecoder, r2: ImapResult<()>)
    requires
        sp_result(d0, d1, r1),
        sp_result(d0, d2, r2),
    ensures
        r1 is Ok <==> r2 is Ok,
        r1 is Ok ==> *d1 == *d2,
{
    let s = d0.stream();
    if r1 is Ok && s.len() > 0 && !(s[0] == 32 && s.len() == 1) {
        if s[0] == 32 {
            d0.lemma_advanced_det(d1, d2, 1, true);
        } else if s[0] == 40 {
            d0.lemma_advanced_det(d1, d2, 0, true);
        }
    }
}

/// A quoted string or a literal read from one decoder: one outcome.
pub proof fn lemma_string_det(
    d0: &AsyncDecoder,
    d1: &AsyncDecoder,
    r1: ImapResult<String>,
    d2: &AsyncDecoder,
    r2: ImapResult<String>,
)
    requires
        string_result(d0, d1, r1),
        string_result(d0, d2, r2),
    ensures
        r1 is Ok <==> r2 is Ok,
        r1 is Ok ==> *d1 == *d2 && r1->Ok_0@ == r2->Ok_0@,
{
    let s = d0.stream();
    if r1 is Ok && s.len() > 0 {
        if s[0] == 34 {
            match quoted_body(s.skip(1)) {
                Some((c, k)) => {
                    d0.lemma_advanced_det(d1, d2, k + 1, false);
                },
                None => {},
            }
        } else {
            match literal_header(s) {
                Some((size, ns, h)) => {
                    if size >= 0 && d0.raw_after(h).len() >= size {
                        d0.lemma_literal_done_det(d1, d2, h, size as nat);
                    }
                },
                None => {},
            }
        }
    }
}

/// An astring (or a LIST pattern) read from one decoder: one outcome.
pub proof fn lemma_astring_det(
    d0: &AsyncDecoder,
    d1: &AsyncDecoder,
    r1: ImapResult<String>,
    d2: &AsyncDecoder,
    r2: ImapResult<String>,
    c: ByteClass,
    missing: Seq<char>,
)
    requires
        astring_result(d0, d1, r1, c, missing),
        astring_result(d0, d2, r2, c, missing),
    ensures
        r1 is Ok <==> r2 is Ok,
        r1 is Ok ==> *d1 == *d2 && r1->Ok_0@ == r2->Ok_0@,
{
    let s = d0.stream();
    if s.len() > 0 {
        if s[0] == 34 || s[0] == 123 {
            lemma_string_det(d0, d1, r1, d2, r2);
        } else {
            lemma_run_det(d0, d1, r1, d2, r2, c, missing);
        }
    }
}

/// A literal read from one decoder: one outcome.
pub proof fn lemma_literal_det(
    d0: &AsyncDecoder,
    d1: &AsyncDecoder,
    r1: ImapResult<(Vec<u8>, bool)>,
    d2: &AsyncDecoder,
    r2: ImapResult<(Vec<u8>, bool)>,
)
    requires
        literal_result(d0, d1, r1),
        literal_result(d0, d2, r2),
    ensures
        r1 is Ok <==> r2 is Ok,
        r1 is Ok ==> *d1 == *d2,
{
    match literal_header(d0.stream()) {
        Some((size, ns, h)) => {
            if size >= 0 && d0.raw_after(h).len() >= size {
                d0.lemma_literal_done_det(d1, d2, h, size as nat);
            }
        },
        None => {},
    }
}


/// A number read from one decoder: one outcome.
pub proof fn lemma_number_det(d0: &AsyncDecoder, d1: &AsyncDecoder, r1: ImapResult<u32>, d2: &AsyncDecoder, r2: ImapResult<u32>)
    requires
        number_result(d0, d1, r1),
        number_result(d0, d2, r2),
    ensures
        r1 is Ok <==> r2 is Ok,
        r1 is Ok ==> *d1 == *d2 && r1 == r2,
{
    let s = d0.stream();
    let n = span(s, ByteClass::Digit);
    if r1 is Ok && n != s.len() && n != 0 {
        d0.lemma_advanced_det(d1, d2, n, true);
    }
}


/// A signed 64-bit number read from one decoder: one outcome.
pub proof fn lemma_number64_det(d0: &AsyncDecoder, d1: &AsyncDecoder, r1: ImapResult<i64>, d2: &AsyncDecoder, r2: ImapResult<i64>)
    requires
        number64_result(d0, d1, r1),
        number64_result(d0, d2, r2),
    ensures
        r1 is Ok <==> r2 is Ok,
        r1 is Ok ==> *d1 == *d2 && r1 == r2,
{
    let s = d0.stream();
    let neg = s.len() > 0 && s[0] == 45;
    let t = if neg {
        s.skip(1)
    } else {
        s
    };
    let n = span(t, ByteClass::Digit);
    let total: nat = if neg {
        n + 1
    } else {
        n
    };
    if total != s.len() && total != 0 {
        d0.lemma_advanced_det(d1, d2, total, true);
    }
}

} // verus!
