//! Sequence sets: the `1:5,7,10:*` ranges of message numbers and UIDs.
use vstd::prelude::*;
use crate::text::{
    ascii_bytes, chars_of, dec_digits, find_char, find_char_from, is_ascii_digits, is_digit, is_ws,
    latin1, lemma_dec_digits, lemma_find_char, lemma_find_char_unique, lemma_trim_end_take,
    lemma_trim_start_skip, parse_u32_chars, parse_u32_std, push_dec, string_from_chars,
    string_from_latin1, trim, trim_bounds,
};

verus! {

/// Sequence set: sorted, non-overlapping `(start, end)` ranges (see
/// `ranges_normal`; `parse`, `add_range` and `add_set` keep them so).
/// `u32::MAX` stands for `*` (the largest number in use).
#[derive(Debug, Clone)]
pub struct SeqSet(pub Vec<(u32, u32)>);

/// UID set: the same ranges, of UIDs.
pub type UIDSet = SeqSet;

impl View for SeqSet {
    type V = Seq<(u32, u32)>;

    open spec fn view(&self) -> Seq<(u32, u32)> {
        self.0@
    }
}

impl Default for SeqSet {
    fn default() -> (r: Self)
        ensures
            r@ == Seq::<(u32, u32)>::empty(),
    {
        SeqSet(Vec::new())
    }
}

// ── Meaning of a set of ranges ──────────────────────────────────────

/// `n` lies in one of the ranges.
pub open spec fn ranges_contain(rs: Seq<(u32, u32)>, n: u32) -> bool {
    exists|i: int| 0 <= i < rs.len() && #[trigger] rs[i].0 <= n <= rs[i].1
}

/// Every range is a proper one (`1 <= start <= end`), and each range ends
/// more than `g` below the start of every later range: with `g == 0` the
/// ranges are sorted and do not overlap; with `g == 1` they do not touch
/// either.
pub open spec fn ranges_apart(rs: Seq<(u32, u32)>, g: int) -> bool {
    &&& forall|i: int| 0 <= i < rs.len() ==> 1 <= #[trigger] rs[i].0 <= rs[i].1
    &&& forall|i: int, j: int| #![trigger rs[i], rs[j]] 0 <= i < j < rs.len() ==> rs[i].1 + g < rs[j].0
}

/// The normal form of a set: proper ranges, sorted, none overlapping.
pub open spec fn ranges_normal(rs: Seq<(u32, u32)>) -> bool {
    ranges_apart(rs, 0)
}

/// The gap that merging closes: 1 when ranges that touch are merged too,
/// 0 when only ranges that overlap are.
pub open spec fn gap(touch: bool) -> int {
    if touch {
        1
    } else {
        0
    }
}

// ── Merging one range in (`add_range`) ──────────────────────────────

/// The ranges after merging `a..=b` into `rs`: ranges that end more than
/// `g` below `a` are kept; every range that comes within `g` of the new one
/// is merged into it; the merged range is placed before the first range
/// that starts more than `g` above it.
pub open spec fn merge_all(rs: Seq<(u32, u32)>, a: u32, b: u32, g: int) -> Seq<(u32, u32)>
    decreases rs.len(),
{
    if rs.len() == 0 {
        seq![(a, b)]
    } else {
        let s = rs[0].0;
        let e = rs[0].1;
        if e + g < a {
            seq![(s, e)] + merge_all(rs.skip(1), a, b, g)
        } else if b + g < s {
            seq![(a, b)] + rs
        } else {
            merge_all(rs.skip(1), if a <= s { a } else { s }, if b >= e { b } else { e }, g)
        }
    }
}

/// `start..=end` is a range that is ignored when added.
pub open spec fn degenerate(start: u32, end: u32) -> bool {
    start == 0 || end == 0 || start > end
}

/// The ranges after merging `start..=end` in with gap `g`; a degenerate
/// range changes nothing.
pub open spec fn merge_in(rs: Seq<(u32, u32)>, start: u32, end: u32, g: int) -> Seq<(u32, u32)> {
    if degenerate(start, end) {
        rs
    } else {
        merge_all(rs, start, end, g)
    }
}

/// The ranges after `add_range(start, end)`: ranges that overlap or touch
/// the new one are merged with it.
pub open spec fn add_range_spec(rs: Seq<(u32, u32)>, start: u32, end: u32) -> Seq<(u32, u32)> {
    merge_in(rs, start, end, 1)
}

/// The ranges after merging each range of `os` in turn, with gap `g`.
pub open spec fn add_all(rs: Seq<(u32, u32)>, os: Seq<(u32, u32)>, g: int) -> Seq<(u32, u32)>
    decreases os.len(),
{
    if os.len() == 0 {
        rs
    } else {
        add_all(merge_in(rs, os[0].0, os[0].1, g), os.skip(1), g)
    }
}

// ── Numbers of a set (`nums`, `iter_numbers`) ───────────────────────

/// The numbers `s, s+1, ..., e` (none when `s > e`).
pub open spec fn range_nums(s: u32, e: u32) -> Seq<u32> {
    Seq::new(if s <= e { (e - s + 1) as nat } else { 0 }, |i: int| (s + i) as u32)
}

/// Some range ends at `*`.
pub open spec fn has_star(rs: Seq<(u32, u32)>) -> bool {
    exists|i: int| 0 <= i < rs.len() && #[trigger] rs[i].1 == u32::MAX
}

/// The numbers of each range in turn.
pub open spec fn all_nums(rs: Seq<(u32, u32)>) -> Seq<u32>
    decreases rs.len(),
{
    if rs.len() == 0 {
        Seq::empty()
    } else {
        all_nums(rs.drop_last()) + range_nums(rs.last().0, rs.last().1)
    }
}

/// The numbers of each range in turn with `*` and every end cut to `max`,
/// stopping at the first range that starts beyond `max`.
pub open spec fn nums_upto(rs: Seq<(u32, u32)>, max: u32) -> Seq<u32>
    decreases rs.len(),
{
    if rs.len() == 0 {
        Seq::empty()
    } else {
        let s = rs[0].0;
        let e = rs[0].1;
        let end = if e == u32::MAX || e > max { max } else { e };
        if s > max {
            Seq::empty()
        } else {
            range_nums(s, end) + nums_upto(rs.skip(1), max)
        }
    }
}

// ── Wire format (`to_wire`) ─────────────────────────────────────────

/// One number on the wire: `*` for `u32::MAX`, else its decimal digits.
pub open spec fn num_wire(n: u32) -> Seq<u8> {
    if n == u32::MAX {
        seq![42u8]
    } else {
        dec_digits(n as nat)
    }
}

/// One range on the wire: `n` or `s:e`.
pub open spec fn range_wire(r: (u32, u32)) -> Seq<u8> {
    if r.0 == r.1 {
        num_wire(r.0)
    } else {
        num_wire(r.0) + seq![58u8] + num_wire(r.1)
    }
}

/// The ranges on the wire, separated by commas.
pub open spec fn ranges_wire(rs: Seq<(u32, u32)>) -> Seq<u8>
    decreases rs.len(),
{
    if rs.len() == 0 {
        Seq::empty()
    } else if rs.len() == 1 {
        range_wire(rs[0])
    } else {
        ranges_wire(rs.drop_last()) + seq![44u8] + range_wire(rs.last())
    }
}

// ── Parsing (`parse`) ───────────────────────────────────────────────

/// One number of a sequence set: `*` or what `str::parse::<u32>` accepts.
pub open spec fn parse_seq_num_spec(s: Seq<char>) -> Result<u32, Seq<char>> {
    if s == seq!['*'] {
        Ok(u32::MAX)
    } else {
        match parse_u32_std(s) {
            Some(n) => Ok(n),
            None => Err("invalid number: "@ + s),
        }
    }
}

/// One non-empty, trimmed part: `n` or `a:b`.
pub open spec fn parse_part_spec(part: Seq<char>) -> Result<(u32, u32), Seq<char>> {
    let k = find_char(part, ':');
    if k < part.len() {
        match parse_seq_num_spec(part.take(k)) {
            Err(e) => Err(e),
            Ok(start) => match parse_seq_num_spec(part.skip(k + 1)) {
                Err(e) => Err(e),
                Ok(end) => if start == 0 || end == 0 || start > end {
                    Err("invalid range: "@ + part)
                } else {
                    Ok((start, end))
                },
            },
        }
    } else {
        match parse_seq_num_spec(part) {
            Err(e) => Err(e),
            Ok(n) => if n == 0 {
                Err("invalid seq: "@ + part)
            } else {
                Ok((n, n))
            },
        }
    }
}

/// The comma-separated parts of `s`, each trimmed, empty ones skipped; the
/// first part that fails gives the error.
pub open spec fn parse_parts_spec(s: Seq<char>) -> Result<Seq<(u32, u32)>, Seq<char>>
    decreases s.len(),
{
    let k = find_char(s, ',');
    let part = trim(s.take(k));
    let head: Result<Seq<(u32, u32)>, Seq<char>> = if part.len() == 0 {
        Ok(Seq::empty())
    } else {
        match parse_part_spec(part) {
            Ok(r) => Ok(seq![r]),
            Err(e) => Err(e),
        }
    };
    match head {
        Err(e) => Err(e),
        Ok(h) => if k < s.len() {
            proof {
                lemma_find_char(s, ',');
            }
            match parse_parts_spec(s.skip(k + 1)) {
                Ok(r) => Ok(h + r),
                Err(e) => Err(e),
            }
        } else {
            Ok(h)
        },
    }
}

/// `SeqSet::parse`: the parts brought to normal form (each merged in turn
/// into an empty set, where only ranges that overlap are joined), or an
/// error when there are none.
pub open spec fn parse_seq_set_spec(s: Seq<char>) -> Result<Seq<(u32, u32)>, Seq<char>> {
    match parse_parts_spec(s) {
        Err(e) => Err(e),
        Ok(r) => if r.len() == 0 {
            Err("empty sequence set"@)
        } else {
            Ok(add_all(Seq::empty(), r, 0))
        },
    }
}

/// A copy of `s[a..b]`.
fn sub_chars(s: &[char], a: usize, b: usize) -> (r: Vec<char>)
    requires
        a <= b <= s.len(),
    ensures
        r@ == s@.subrange(a as int, b as int),
{
    let mut r: Vec<char> = Vec::new();
    let mut i = a;
    while i < b
        invariant
            a <= i <= b <= s.len(),
            r@ == s@.subrange(a as int, i as int),
        decreases b - i,
    {
        r.push(s[i]);
        i += 1;
        assert(r@ =~= s@.subrange(a as int, i as int));
    }
    r
}

/// `message + detail` as a `String`.
fn error_text(message: &str, detail: &[char]) -> (r: String)
    ensures
        r@ == message@ + detail@,
{
    let mut cs = chars_of(message);
    let mut i: usize = 0;
    while i < detail.len()
        invariant
            i <= detail.len(),
            cs@ == message@ + detail@.take(i as int),
        decreases detail.len() - i,
    {
        cs.push(detail[i]);
        i += 1;
        assert(cs@ =~= message@ + detail@.take(i as int));
    }
    assert(detail@.take(detail@.len() as int) =~= detail@);
    string_from_chars(&cs)
}

/// Parses one number of a sequence set.
pub fn parse_seq_num(s: &[char]) -> (r: Result<u32, String>)
    ensures
        match parse_seq_num_spec(s@) {
            Ok(n) => r == Ok::<u32, String>(n),
            Err(e) => r is Err && r->Err_0@ == e,
        },
{
    if s.len() == 1 && s[0] == '*' {
        assert(s@ =~= seq!['*']);
        return Ok(u32::MAX);
    }
    assert(s@ != seq!['*']) by {
        if s@ == seq!['*'] {
            assert(s@.len() == 1 && s@[0] == '*');
        }
    }
    match parse_u32_chars(s) {
        Some(n) => Ok(n),
        None => Err(error_text("invalid number: ", s)),
    }
}

fn parse_part(part: &[char]) -> (r: Result<(u32, u32), String>)
    ensures
        match parse_part_spec(part@) {
            Ok(v) => r == Ok::<(u32, u32), String>(v),
            Err(e) => r is Err && r->Err_0@ == e,
        },
{
    let k = find_char_from(part, ':', 0);
    assert(part@.skip(0) =~= part@);
    if k < part.len() {
        let a = sub_chars(part, 0, k);
        let b = sub_chars(part, k + 1, part.len());
        assert(a@ =~= part@.take(k as int));
        assert(b@ =~= part@.skip(k + 1));
        let start = parse_seq_num(&a)?;
        let end = parse_seq_num(&b)?;
        if start == 0 || end == 0 || start > end {
            return Err(error_text("invalid range: ", part));
        }
        Ok((start, end))
    } else {
        let n = parse_seq_num(part)?;
        if n == 0 {
            return Err(error_text("invalid seq: ", part));
        }
        Ok((n, n))
    }
}

impl SeqSet {
    /// No ranges at all.
    pub fn is_empty(&self) -> (r: bool)
        ensures
            r == (self@.len() == 0),
    {
        self.0.len() == 0
    }

    /// Parse from wire format: "1", "1:5", "1:*", "1,3,5", "1:3,7:*". The
    /// ranges come out sorted, with ranges that overlap merged (ranges that
    /// only touch stay apart): in normal form, holding exactly the numbers
    /// of the parts.
    pub fn parse(s: &str) -> (r: Result<Self, String>)
        ensures
            match parse_seq_set_spec(s@) {
                Ok(rs) => r is Ok && r->Ok_0@ == rs,
                Err(e) => r is Err && r->Err_0@ == e,
            },
            r is Ok ==> ranges_normal(r->Ok_0@),
            r is Ok ==> forall|n: u32|
                ranges_contain(r->Ok_0@, n) == added_by(parse_parts_spec(s@)->Ok_0, n),
    {
        let cs = chars_of(s);
        let mut ranges: Vec<(u32, u32)> = Vec::new();
        let mut pos: usize = 0;
        assert(cs@.skip(0) =~= cs@);
        proof {
            match parse_parts_spec(s@) {
                Ok(r) => {
                    assert(ranges@ + r =~= r);
                },
                Err(e) => {},
            }
        }
        loop
            invariant
                pos <= cs.len(),
                cs@ == s@,
                parse_parts_spec(s@) == match parse_parts_spec(cs@.skip(pos as int)) {
                    Ok(r) => Ok(ranges@ + r),
                    Err(e) => Err(e),
                },
            decreases cs.len() - pos,
        {
            let ghost rest = cs@.skip(pos as int);
            let k = find_char_from(&cs, ',', pos);
            let (a, b) = trim_bounds(&cs, pos, k);
            assert(rest.take(k - pos) =~= cs@.subrange(pos as int, k as int));
            let ghost part = trim(rest.take(k - pos));
            let ghost old_ranges = ranges@;
            if a < b {
                let p = sub_chars(&cs, a, b);
                match parse_part(&p) {
                    Ok(v) => {
                        ranges.push(v);
                    },
                    Err(e) => {
                        return Err(e);
                    },
                }
            }
            if k == cs.len() {
                assert(parse_parts_spec(rest) == if part.len() == 0 {
                    Ok::<Seq<(u32, u32)>, Seq<char>>(Seq::empty())
                } else {
                    Ok(seq![parse_part_spec(part)->Ok_0])
                });
                assert(ranges@ =~= old_ranges + (if part.len() == 0 {
                    Seq::<(u32, u32)>::empty()
                } else {
                    seq![parse_part_spec(part)->Ok_0]
                }));
                if ranges.len() == 0 {
                    return Err(String::from_str("empty sequence set"));
                }
                let parts = SeqSet(ranges);
                let mut set = SeqSet(Vec::new());
                proof {
                    assert(ranges_normal(set@));
                    lemma_add_all_normal(set@, parts@, 0, 0);
                }
                set.merge_set(&parts, false);
                proof {
                    assert forall|n: u32| ranges_contain(set@, n) == added_by(parts@, n) by {
                        lemma_add_set_members(Seq::empty(), parts@, 0, n);
                    }
                }
                return Ok(set);
            }
            assert(rest.skip(k - pos + 1) =~= cs@.skip(k + 1));
            proof {
                if part.len() == 0 {
                    assert(ranges@ =~= old_ranges + Seq::<(u32, u32)>::empty());
                }
                match parse_parts_spec(cs@.skip(k + 1)) {
                    Ok(r) => {
                        if part.len() != 0 {
                            assert(old_ranges + (seq![parse_part_spec(part)->Ok_0] + r) =~= ranges@
                                + r);
                        } else {
                            assert(old_ranges + (Seq::<(u32, u32)>::empty() + r) =~= ranges@ + r);
                        }
                    },
                    Err(e) => {},
                }
            }
            pos = k + 1;
        }
    }

    /// The numbers of the set in order with `*` and every end cut to `max`,
    /// stopping at the first range that starts beyond `max`.
    pub fn iter_numbers(&self, max: u32) -> (r: Vec<u32>)
        ensures
            r@ == nums_upto(self@, max),
            ranges_normal(self@) ==> forall|x: u32| #[trigger] r@.contains(x) == (ranges_contain(self@, x) && x <= max),
    {
        proof {
            if ranges_normal(self@) {
                assert forall|x: u32| #[trigger] nums_upto(self@, max).contains(x) == (ranges_contain(self@, x) && x <= max) by {
                    law_iter_numbers_members(self@, max, x);
                }
            }
        }
        let mut out: Vec<u32> = Vec::new();
        let mut i: usize = 0;
        assert(self@.skip(0) =~= self@);
        assert(out@ + nums_upto(self@, max) =~= nums_upto(self@, max));
        while i < self.0.len()
            invariant
                i <= self@.len(),
                nums_upto(self@, max) == out@ + nums_upto(self@.skip(i as int), max),
                ranges_normal(self@) ==> forall|x: u32| #[trigger] nums_upto(self@, max).contains(x) == (ranges_contain(self@, x) && x <= max),
            decreases self@.len() - i,
        {
            let (s, e) = self.0[i];
            let ghost rest = self@.skip(i as int);
            assert(rest[0] == (s, e));
            assert(rest.skip(1) =~= self@.skip(i + 1));
            if s > max {
                assert(nums_upto(rest, max) =~= Seq::<u32>::empty());
                assert(out@ + Seq::<u32>::empty() =~= out@);
                return out;
            }
            let end = if e == u32::MAX || e > max {
                max
            } else {
                e
            };
            let ghost before = out@;
            let mut n: u64 = s as u64;
            while n <= end as u64
                invariant
                    s <= max,
                    end <= max,
                    s <= n,
                    s <= end ==> n <= end + 1,
                    s > end ==> n == s,
                    out@ == before + range_nums(s, end).take(n - s),
                decreases end + 1 - n,
            {
                out.push(n as u32);
                assert(range_nums(s, end).take(n + 1 - s) =~= range_nums(s, end).take(n - s).push(
                    n as u32,
                ));
                n = n + 1;
            }
            proof {
                if s > end {
                    assert(range_nums(s, end).take(n - s) =~= range_nums(s, end));
                } else {
                    assert(range_nums(s, end).take((end + 1 - s) as int) =~= range_nums(s, end));
                }
                assert(out@ == before + range_nums(s, end));
                assert(before + nums_upto(rest, max) =~= out@ + nums_upto(self@.skip(i + 1), max));
            }
            i += 1;
        }
        assert(self@.skip(i as int) =~= Seq::<(u32, u32)>::empty());
        assert(out@ + Seq::<u32>::empty() =~= out@);
        out
    }

    /// Wire format: "1:5,7,10:*".
    pub fn to_wire(&self) -> (r: String)
        ensures
            r@ == latin1(ranges_wire(self@)),
    {
        let out = self.wire_bytes();
        string_from_latin1(&out)
    }

    /// The wire format as bytes.
    pub fn wire_bytes(&self) -> (r: Vec<u8>)
        ensures
            r@ == ranges_wire(self@),
    {
        let mut out: Vec<u8> = Vec::new();
        let mut i: usize = 0;
        while i < self.0.len()
            invariant
                i <= self@.len(),
                out@ == ranges_wire(self@.take(i as int)),
            decreases self@.len() - i,
        {
            if i > 0 {
                out.push(44);
            }
            let (s, e) = self.0[i];
            push_num_wire(&mut out, s);
            if s != e {
                out.push(58);
                push_num_wire(&mut out, e);
            }
            i += 1;
            proof {
                let t = self@.take(i as int);
                assert(t.drop_last() =~= self@.take(i - 1));
                assert(t.last() == (s, e));
                if i == 1 {
                    assert(self@.take(0) =~= Seq::<(u32, u32)>::empty());
                }
                assert(out@ =~= ranges_wire(t));
            }
        }
        assert(self@.take(self@.len() as int) =~= self@);
        out
    }

    /// Some range holds `n`.
    pub fn contains(&self, n: u32) -> (r: bool)
        ensures
            r == ranges_contain(self@, n),
    {
        let mut i: usize = 0;
        while i < self.0.len()
            invariant
                i <= self@.len(),
                forall|j: int| 0 <= j < i ==> !(#[trigger] self@[j].0 <= n <= self@[j].1),
            decreases self@.len() - i,
        {
            let (s, e) = self.0[i];
            if n >= s && n <= e {
                return true;
            }
            i += 1;
        }
        false
    }

    /// Adds the single number `n` (0 is ignored).
    pub fn add_num(&mut self, n: u32)
        ensures
            final(self)@ == add_range_spec(old(self)@, n, n),
            ranges_normal(old(self)@) ==> ranges_normal(final(self)@),
            ranges_apart(old(self)@, 1) ==> ranges_apart(final(self)@, 1),
            n != 0 ==> forall|x: u32| ranges_contain(final(self)@, x) == (ranges_contain(old(self)@, x) || x == n),
    {
        self.add_range(n, n);
    }

    /// Adds the numbers `start..=end`; a range with a zero or with
    /// `start > end` is ignored. Every range that overlaps or touches the
    /// new one is merged with it, so a set in normal form stays so.
    pub fn add_range(&mut self, start: u32, end: u32)
        ensures
            final(self)@ == add_range_spec(old(self)@, start, end),
            ranges_normal(old(self)@) ==> ranges_normal(final(self)@),
            ranges_apart(old(self)@, 1) ==> ranges_apart(final(self)@, 1),
            !degenerate(start, end) ==> forall|n: u32|
                ranges_contain(final(self)@, n) == (ranges_contain(old(self)@, n) || start <= n <= end),
            degenerate(start, end) ==> final(self)@ == old(self)@,
    {
        proof {
            lemma_add_range_normal(self@, start, end);
        }
        self.merge_range(start, end, true);
    }

    /// Merges `start..=end` in: ranges within `gap(touch)` of it are joined
    /// with it.
    fn merge_range(&mut self, start: u32, end: u32, touch: bool)
        ensures
            final(self)@ == merge_in(old(self)@, start, end, gap(touch)),
            !degenerate(start, end) ==> forall|n: u32|
                ranges_contain(final(self)@, n) == (ranges_contain(old(self)@, n) || start <= n <= end),
    {
        if start == 0 || end == 0 || start > end {
            return;
        }
        let ghost rs = self@;
        let ghost g = gap(touch);
        let step: u64 = if touch { 1 } else { 0 };
        let mut out: Vec<(u32, u32)> = Vec::new();
        let mut a = start;
        let mut b = end;
        let mut placed = false;
        let mut i: usize = 0;
        assert(rs.skip(0) =~= rs);
        assert(out@ + merge_all(rs, start, end, g) =~= merge_all(rs, start, end, g));
        while i < self.0.len()
            invariant
                i <= rs.len(),
                self@ == rs,
                g == gap(touch),
                step == g,
                merge_all(rs, start, end, g) == if placed {
                    out@ + rs.skip(i as int)
                } else {
                    out@ + merge_all(rs.skip(i as int), a, b, g)
                },
            decreases rs.len() - i,
        {
            let (s, e) = self.0[i];
            let ghost rest = rs.skip(i as int);
            assert(rest[0] == (s, e));
            assert(rest.skip(1) =~= rs.skip(i + 1));
            if placed {
                out.push((s, e));
                assert(rest =~= seq![(s, e)] + rs.skip(i + 1));
            } else if (e as u64) + step < a as u64 {
                out.push((s, e));
            } else if (b as u64) + step < s as u64 {
                out.push((a, b));
                out.push((s, e));
                placed = true;
                assert(rest =~= seq![(s, e)] + rs.skip(i + 1));
            } else {
                if s < a {
                    a = s;
                }
                if e > b {
                    b = e;
                }
            }
            i += 1;
            assert(merge_all(rs, start, end, g) =~= if placed {
                out@ + rs.skip(i as int)
            } else {
                out@ + merge_all(rs.skip(i as int), a, b, g)
            });
        }
        if !placed {
            out.push((a, b));
        }
        assert(rs.skip(i as int) =~= Seq::<(u32, u32)>::empty());
        assert(merge_all(rs, start, end, g) =~= out@);
        self.0 = out;
        proof {
            assert(self@ == merge_in(rs, start, end, g));
            assert forall|n: u32| #[trigger] ranges_contain(self@, n) == (ranges_contain(rs, n) || start <= n <= end) by {
                lemma_merge_in_members(rs, start, end, g, n);
            }
        }
    }

    /// Adds every range of `other`, in order; a set in normal form stays so.
    pub fn add_set(&mut self, other: &SeqSet)
        ensures
            final(self)@ == add_all(old(self)@, other@, 1),
            ranges_normal(old(self)@) ==> ranges_normal(final(self)@),
            ranges_apart(old(self)@, 1) ==> ranges_apart(final(self)@, 1),
            forall|n: u32| ranges_contain(final(self)@, n) == (ranges_contain(old(self)@, n) || added_by(other@, n)),
    {
        proof {
            lemma_add_all_normal(self@, other@, 0, 1);
            lemma_add_all_normal(self@, other@, 1, 1);
        }
        let ghost before = self@;
        self.merge_set(other, true);
        assert forall|n: u32| #[trigger] ranges_contain(self@, n) == (ranges_contain(before, n) || added_by(other@, n)) by {
            lemma_add_set_members(before, other@, 1, n);
        }
    }

    /// Merges every range of `other` in, in order, with gap `gap(touch)`.
    fn merge_set(&mut self, other: &SeqSet, touch: bool)
        ensures
            final(self)@ == add_all(old(self)@, other@, gap(touch)),
            forall|n: u32| ranges_contain(final(self)@, n) == (ranges_contain(old(self)@, n) || added_by(other@, n)),
    {
        let ghost before = self@;
        let ghost g = gap(touch);
        let mut i: usize = 0;
        assert(other@.skip(0) =~= other@);
        while i < other.0.len()
            invariant
                i <= other@.len(),
                g == gap(touch),
                add_all(before, other@, g) == add_all(self@, other@.skip(i as int), g),
            decreases other@.len() - i,
        {
            let (s, e) = other.0[i];
            let ghost rest = other@.skip(i as int);
            assert(rest[0] == (s, e));
            assert(rest.skip(1) =~= other@.skip(i + 1));
            self.merge_range(s, e, touch);
            i += 1;
        }
        assert(other@.skip(i as int) =~= Seq::<(u32, u32)>::empty());
        proof {
            assert(self@ == add_all(before, other@, g));
            assert forall|n: u32| #[trigger] ranges_contain(self@, n) == (ranges_contain(before, n) || added_by(other@, n)) by {
                lemma_add_set_members(before, other@, g, n);
            }
        }
    }

    /// The last range ends at `*`.
    pub fn dynamic(&self) -> (r: bool)
        ensures
            r == (self@.len() > 0 && self@.last().1 == u32::MAX),
    {
        if self.0.len() == 0 {
            false
        } else {
            self.0[self.0.len() - 1].1 == u32::MAX
        }
    }

    /// Every number of the set in order, or `None` when a range ends at `*`.
    pub fn nums(&self) -> (r: Option<Vec<u32>>)
        ensures
            match r {
                None => has_star(self@),
                Some(v) => !has_star(self@) && v@ == all_nums(self@),
            },
    {
        let mut nums: Vec<u32> = Vec::new();
        let mut i: usize = 0;
        while i < self.0.len()
            invariant
                i <= self@.len(),
                nums@ == all_nums(self@.take(i as int)),
                forall|j: int| 0 <= j < i ==> self@[j].1 != u32::MAX,
            decreases self@.len() - i,
        {
            let (s, e) = self.0[i];
            if e == u32::MAX {
                return None;
            }
            let ghost before = nums@;
            if s <= e {
                let mut n = s;
                while n <= e
                    invariant
                        s <= n <= e + 1,
                        e < u32::MAX,
                        nums@ == before + range_nums(s, e).take(n - s),
                    decreases e + 1 - n,
                {
                    nums.push(n);
                    assert(range_nums(s, e).take(n + 1 - s) =~= range_nums(s, e).take(n - s).push(
                        n,
                    ));
                    n = n + 1;
                }
                assert(range_nums(s, e).take(n - s) =~= range_nums(s, e));
            } else {
                assert(nums@ =~= before + range_nums(s, e));
            }
            i += 1;
            proof {
                let t = self@.take(i as int);
                assert(t.drop_last() =~= self@.take(i - 1));
                assert(t.last() == (s, e));
            }
        }
        assert(self@.take(self@.len() as int) =~= self@);
        Some(nums)
    }
}

/// Appends one number in wire form.
fn push_num_wire(out: &mut Vec<u8>, n: u32)
    ensures
        final(out)@ == old(out)@ + num_wire(n),
{
    if n == u32::MAX {
        out.push(42);
        assert(final(out)@ =~= old(out)@ + num_wire(n));
    } else {
        push_dec(out, n as u64);
    }
}

/// A number in wire form: `*` for `u32::MAX`, else decimal.
pub fn seq_to_str(n: u32) -> (r: String)
    ensures
        r@ == latin1(num_wire(n)),
{
    let mut v: Vec<u8> = Vec::new();
    push_num_wire(&mut v, n);
    assert(v@ =~= num_wire(n));
    string_from_latin1(&v)
}

// ── Laws ────────────────────────────────────────────────────────────

/// A number lies in a concatenation of range lists when it lies in either.
pub proof fn lemma_contain_concat(a: Seq<(u32, u32)>, b: Seq<(u32, u32)>, n: u32)
    ensures
        ranges_contain(a + b, n) == (ranges_contain(a, n) || ranges_contain(b, n)),
{
    let c = a + b;
    if ranges_contain(c, n) {
        let i = choose|i: int| 0 <= i < c.len() && #[trigger] c[i].0 <= n <= c[i].1;
        if i < a.len() {
            assert(a[i] == c[i]);
        } else {
            assert(b[i - a.len()] == c[i]);
        }
    }
    if ranges_contain(a, n) {
        let i = choose|i: int| 0 <= i < a.len() && #[trigger] a[i].0 <= n <= a[i].1;
        assert(c[i] == a[i]);
    }
    if ranges_contain(b, n) {
        let i = choose|i: int| 0 <= i < b.len() && #[trigger] b[i].0 <= n <= b[i].1;
        assert(c[i + a.len()] == b[i]);
    }
}

proof fn lemma_contain_one(r: (u32, u32), n: u32)
    ensures
        ranges_contain(seq![r], n) == (r.0 <= n <= r.1),
{
    if r.0 <= n <= r.1 {
        assert(seq![r][0] == r);
    }
}

proof fn lemma_merge_contains(rs: Seq<(u32, u32)>, a: u32, b: u32, g: int, n: u32)
    requires
        a <= b,
        0 <= g <= 1,
    ensures
        ranges_contain(merge_all(rs, a, b, g), n) == (ranges_contain(rs, n) || a <= n <= b),
    decreases rs.len(),
{
    if rs.len() == 0 {
        lemma_contain_one((a, b), n);
    } else {
        let s = rs[0].0;
        let e = rs[0].1;
        let tail = rs.skip(1);
        assert(rs =~= seq![(s, e)] + tail);
        lemma_contain_concat(seq![(s, e)], tail, n);
        lemma_contain_one((s, e), n);
        if e + g < a {
            lemma_merge_contains(tail, a, b, g, n);
            lemma_contain_concat(seq![(s, e)], merge_all(tail, a, b, g), n);
        } else if b + g < s {
            lemma_contain_concat(seq![(a, b)], rs, n);
            lemma_contain_one((a, b), n);
        } else {
            let lo = if a <= s { a } else { s };
            let hi = if b >= e { b } else { e };
            lemma_merge_contains(tail, lo, hi, g, n);
        }
    }
}

proof fn lemma_merge_in_members(rs: Seq<(u32, u32)>, start: u32, end: u32, g: int, n: u32)
    requires
        0 <= g <= 1,
    ensures
        !degenerate(start, end) ==> ranges_contain(merge_in(rs, start, end, g), n) == (
        ranges_contain(rs, n) || start <= n <= end),
        degenerate(start, end) ==> merge_in(rs, start, end, g) == rs,
{
    if !degenerate(start, end) {
        lemma_merge_contains(rs, start, end, g, n);
    }
}

/// Law: `add_range(start, end)` with `1 <= start <= end` adds exactly the
/// numbers `start..=end` and removes none; any other range changes nothing.
pub proof fn lemma_add_range_members(rs: Seq<(u32, u32)>, start: u32, end: u32, n: u32)
    ensures
        !degenerate(start, end) ==> ranges_contain(add_range_spec(rs, start, end), n) == (
        ranges_contain(rs, n) || start <= n <= end),
        degenerate(start, end) ==> add_range_spec(rs, start, end) == rs,
{
    lemma_merge_in_members(rs, start, end, 1, n);
}

/// The ranges after the first of ranges `g` apart are `g` apart, and start
/// more than `g` above the first one's end.
proof fn lemma_normal_tail(rs: Seq<(u32, u32)>, g: int)
    requires
        ranges_apart(rs, g),
        rs.len() > 0,
    ensures
        ranges_apart(rs.skip(1), g),
        forall|j: int| 0 <= j < rs.skip(1).len() ==> rs[0].1 + g < #[trigger] rs.skip(1)[j].0,
{
    let t = rs.skip(1);
    assert forall|i: int| 0 <= i < t.len() implies 1 <= #[trigger] t[i].0 <= t[i].1 by {
        assert(t[i] == rs[i + 1]);
    }
    assert forall|i: int, j: int| #![trigger t[i], t[j]] 0 <= i < j < t.len() implies t[i].1 + g < t[j].0 by {
        assert(t[i] == rs[i + 1]);
        assert(t[j] == rs[j + 1]);
    }
    assert forall|j: int| 0 <= j < t.len() implies rs[0].1 + g < #[trigger] t[j].0 by {
        assert(t[j] == rs[j + 1]);
    }
}

/// The least start among the new range and the ranges of a sorted set.
pub open spec fn least_start(rs: Seq<(u32, u32)>, a: u32) -> u32 {
    if rs.len() > 0 && rs[0].0 < a {
        rs[0].0
    } else {
        a
    }
}

/// Merging with gap `h` keeps ranges `g` apart, for `g <= h`.
proof fn lemma_merge_normal(rs: Seq<(u32, u32)>, a: u32, b: u32, g: int, h: int)
    requires
        ranges_apart(rs, g),
        0 <= g <= h,
        1 <= a <= b,
    ensures
        ranges_apart(merge_all(rs, a, b, h), g),
        forall|k: int| 0 <= k < merge_all(rs, a, b, h).len() ==> least_start(rs, a) <= #[trigger] merge_all(rs, a, b, h)[k].0,
    decreases rs.len(),
{
    let m = merge_all(rs, a, b, h);
    if rs.len() == 0 {
        assert(m =~= seq![(a, b)]);
    } else {
        let s = rs[0].0;
        let e = rs[0].1;
        let tail = rs.skip(1);
        lemma_normal_tail(rs, g);
        if e + h < a {
            lemma_merge_normal(tail, a, b, g, h);
            let mt = merge_all(tail, a, b, h);
            assert(m =~= seq![(s, e)] + mt);
            assert(tail.len() > 0 ==> tail[0] == rs[1]);
            assert forall|k: int| 0 <= k < mt.len() implies e + g < #[trigger] mt[k].0 by {
                assert(least_start(tail, a) <= mt[k].0);
            }
            assert forall|i: int| 0 <= i < m.len() implies 1 <= #[trigger] m[i].0 <= m[i].1 by {
                if i > 0 {
                    assert(m[i] == mt[i - 1]);
                }
            }
            assert forall|i: int, j: int| #![trigger m[i], m[j]] 0 <= i < j < m.len() implies m[i].1 + g < m[j].0 by {
                assert(m[j] == mt[j - 1]);
                if i > 0 {
                    assert(m[i] == mt[i - 1]);
                }
            }
            assert forall|k: int| 0 <= k < m.len() implies least_start(rs, a) <= #[trigger] m[k].0 by {
                if k > 0 {
                    assert(m[k] == mt[k - 1]);
                }
            }
        } else if b + h < s {
            assert(m =~= seq![(a, b)] + rs);
            assert forall|j: int| 0 <= j < rs.len() implies s <= #[trigger] rs[j].0 by {
                if j > 0 {
                    assert(rs[0].1 + g < rs[j].0);
                }
            }
            assert forall|i: int| 0 <= i < m.len() implies 1 <= #[trigger] m[i].0 <= m[i].1 by {
                if i > 0 {
                    assert(m[i] == rs[i - 1]);
                }
            }
            assert forall|i: int, j: int| #![trigger m[i], m[j]] 0 <= i < j < m.len() implies m[i].1 + g < m[j].0 by {
                assert(m[j] == rs[j - 1]);
                if i > 0 {
                    assert(m[i] == rs[i - 1]);
                }
            }
            assert forall|k: int| 0 <= k < m.len() implies least_start(rs, a) <= #[trigger] m[k].0 by {
                if k > 0 {
                    assert(m[k] == rs[k - 1]);
                }
            }
        } else {
            let lo = if a <= s { a } else { s };
            let hi = if b >= e { b } else { e };
            lemma_merge_normal(tail, lo, hi, g, h);
            assert(tail.len() > 0 ==> tail[0] == rs[1]);
            assert forall|k: int| 0 <= k < m.len() implies least_start(rs, a) <= #[trigger] m[k].0 by {
                assert(least_start(tail, lo) <= m[k].0);
            }
        }
    }
}

proof fn lemma_merge_in_normal(rs: Seq<(u32, u32)>, start: u32, end: u32, g: int, h: int)
    requires
        0 <= g <= h,
    ensures
        ranges_apart(rs, g) ==> ranges_apart(merge_in(rs, start, end, h), g),
{
    if ranges_apart(rs, g) && !degenerate(start, end) {
        lemma_merge_normal(rs, start, end, g, h);
    }
}

/// Law: adding a range to a set in normal form (sorted, no overlaps)
/// leaves it in normal form, and so does adding one to a set whose ranges
/// do not touch: then they still do not touch.
pub proof fn lemma_add_range_normal(rs: Seq<(u32, u32)>, start: u32, end: u32)
    ensures
        ranges_normal(rs) ==> ranges_normal(add_range_spec(rs, start, end)),
        ranges_apart(rs, 1) ==> ranges_apart(add_range_spec(rs, start, end), 1),
{
    lemma_merge_in_normal(rs, start, end, 0, 1);
    lemma_merge_in_normal(rs, start, end, 1, 1);
}

/// Law: `add_range` on a set in normal form adds exactly `start..=end`
/// (for `1 <= start <= end`) and gives a set in normal form.
pub proof fn law_add_range(rs: Seq<(u32, u32)>, start: u32, end: u32)
    requires
        ranges_normal(rs),
    ensures
        ranges_normal(add_range_spec(rs, start, end)),
        forall|n: u32| #[trigger] ranges_contain(add_range_spec(rs, start, end), n) == (ranges_contain(rs, n)
            || (!degenerate(start, end) && start <= n <= end)),
{
    lemma_add_range_normal(rs, start, end);
    assert forall|n: u32| #[trigger] ranges_contain(add_range_spec(rs, start, end), n) == (ranges_contain(rs, n)
        || (!degenerate(start, end) && start <= n <= end)) by {
        lemma_add_range_members(rs, start, end, n);
    }
}

/// Merging ranges in turn with gap `h` keeps ranges `g` apart, `g <= h`.
proof fn lemma_add_all_normal(rs: Seq<(u32, u32)>, os: Seq<(u32, u32)>, g: int, h: int)
    requires
        0 <= g <= h,
    ensures
        ranges_apart(rs, g) ==> ranges_apart(add_all(rs, os, h), g),
    decreases os.len(),
{
    if os.len() > 0 {
        lemma_merge_in_normal(rs, os[0].0, os[0].1, g, h);
        lemma_add_all_normal(merge_in(rs, os[0].0, os[0].1, h), os.skip(1), g, h);
    }
}

/// A range that starts more than `g` above every range of a set goes after
/// them.
proof fn lemma_merge_after(rs: Seq<(u32, u32)>, a: u32, b: u32, g: int)
    requires
        forall|i: int| 0 <= i < rs.len() ==> #[trigger] rs[i].1 + g < a,
    ensures
        merge_all(rs, a, b, g) == rs.push((a, b)),
    decreases rs.len(),
{
    if rs.len() > 0 {
        let tail = rs.skip(1);
        assert forall|i: int| 0 <= i < tail.len() implies #[trigger] tail[i].1 + g < a by {
            assert(tail[i] == rs[i + 1]);
        }
        lemma_merge_after(tail, a, b, g);
        assert(rs.push((a, b)) =~= seq![rs[0]] + tail.push((a, b)));
    } else {
        assert(rs.push((a, b)) =~= seq![(a, b)]);
    }
}

/// Merging the rest of a set whose ranges are `g` apart into its first
/// ranges, with gap `g`, gives the set back.
proof fn lemma_add_all_rest(rs: Seq<(u32, u32)>, k: int, g: int)
    requires
        ranges_apart(rs, g),
        0 <= k <= rs.len(),
    ensures
        add_all(rs.take(k), rs.skip(k), g) == rs,
    decreases rs.len() - k,
{
    if k == rs.len() {
        assert(rs.take(k) =~= rs);
        assert(rs.skip(k) =~= Seq::<(u32, u32)>::empty());
    } else {
        let p = rs.take(k);
        let r = rs[k];
        assert(rs.skip(k)[0] == r);
        assert forall|i: int| 0 <= i < p.len() implies #[trigger] p[i].1 + g < r.0 by {
            assert(p[i] == rs[i]);
        }
        lemma_merge_after(p, r.0, r.1, g);
        assert(p.push(r) =~= rs.take(k + 1));
        assert(rs.skip(k).skip(1) =~= rs.skip(k + 1));
        lemma_add_all_rest(rs, k + 1, g);
    }
}

/// Merging the ranges of a set whose ranges are `g` apart, in turn and
/// with gap `g`, into an empty set gives the same set.
proof fn lemma_add_all_normal_identity(rs: Seq<(u32, u32)>, g: int)
    requires
        ranges_apart(rs, g),
    ensures
        add_all(Seq::empty(), rs, g) == rs,
{
    lemma_add_all_rest(rs, 0, g);
    assert(rs.take(0) =~= Seq::<(u32, u32)>::empty());
    assert(rs.skip(0) =~= rs);
}

/// Some range of `os` is one that is not ignored and holds `n`.
pub open spec fn added_by(os: Seq<(u32, u32)>, n: u32) -> bool {
    exists|i: int|
        0 <= i < os.len() && !degenerate(os[i].0, os[i].1) && #[trigger] os[i].0 <= n <= os[i].1
}

/// Law: merging the ranges of `os` in turn (with either gap, so `add_set`
/// too) adds exactly the numbers of those that are not ignored, and removes
/// none.
pub proof fn lemma_add_set_members(rs: Seq<(u32, u32)>, os: Seq<(u32, u32)>, g: int, n: u32)
    requires
        0 <= g <= 1,
    ensures
        ranges_contain(add_all(rs, os, g), n) == (ranges_contain(rs, n) || added_by(os, n)),
    decreases os.len(),
{
    if os.len() > 0 {
        let r1 = merge_in(rs, os[0].0, os[0].1, g);
        lemma_add_set_members(r1, os.skip(1), g, n);
        lemma_merge_in_members(rs, os[0].0, os[0].1, g, n);
        if added_by(os.skip(1), n) {
            let i = choose|i: int|
                0 <= i < os.skip(1).len() && !degenerate(os.skip(1)[i].0, os.skip(1)[i].1)
                    && #[trigger] os.skip(1)[i].0 <= n <= os.skip(1)[i].1;
            assert(os[i + 1] == os.skip(1)[i]);
        }
        if added_by(os, n) {
            let i = choose|i: int|
                0 <= i < os.len() && !degenerate(os[i].0, os[i].1) && #[trigger] os[i].0 <= n
                    <= os[i].1;
            if i > 0 {
                assert(os.skip(1)[i - 1] == os[i]);
            }
        }
    }
}

proof fn lemma_range_nums_members(s: u32, e: u32, x: u32)
    ensures
        range_nums(s, e).contains(x) == (s <= x <= e),
{
    if s <= x <= e {
        assert(range_nums(s, e)[x - s] == x);
    }
}

/// Law: for a set in normal form, `iter_numbers(max)` lists exactly the
/// members of the set up to `max` (a range ending at `*` holds every number
/// from its start on, so up to `max`).
pub proof fn law_iter_numbers_members(rs: Seq<(u32, u32)>, max: u32, x: u32)
    requires
        ranges_normal(rs),
    ensures
        nums_upto(rs, max).contains(x) == (ranges_contain(rs, x) && x <= max),
    decreases rs.len(),
{
    if rs.len() > 0 {
        let s = rs[0].0;
        let e = rs[0].1;
        let tail = rs.skip(1);
        assert(rs =~= seq![(s, e)] + tail);
        lemma_contain_concat(seq![(s, e)], tail, x);
        lemma_contain_one((s, e), x);
        if s > max {
            assert(nums_upto(rs, max) =~= Seq::<u32>::empty());
            if ranges_contain(rs, x) && x <= max {
                let i = choose|i: int| 0 <= i < rs.len() && #[trigger] rs[i].0 <= x <= rs[i].1;
                if i > 0 {
                    assert(rs[0].1 + 0 < rs[i].0);
                }
            }
        } else {
            let end = if e == u32::MAX || e > max { max } else { e };
            lemma_normal_tail(rs, 0);
            law_iter_numbers_members(tail, max, x);
            lemma_range_nums_members(s, end, x);
            let a = range_nums(s, end);
            let b = nums_upto(tail, max);
            assert(nums_upto(rs, max) == a + b);
            if (a + b).contains(x) {
                let k = choose|k: int| 0 <= k < (a + b).len() && (a + b)[k] == x;
                if k < a.len() {
                    assert(a[k] == x);
                } else {
                    assert(b[k - a.len()] == x);
                }
            }
            if a.contains(x) {
                let k = choose|k: int| 0 <= k < a.len() && a[k] == x;
                assert((a + b)[k] == x);
            }
            if b.contains(x) {
                let k = choose|k: int| 0 <= k < b.len() && b[k] == x;
                assert((a + b)[k + a.len()] == x);
            }
        }
    }
}

/// Law: the numbers that `nums` lists are exactly the members of the set.
pub proof fn lemma_nums_members(rs: Seq<(u32, u32)>, x: u32)
    ensures
        all_nums(rs).contains(x) == ranges_contain(rs, x),
    decreases rs.len(),
{
    if rs.len() > 0 {
        let init = rs.drop_last();
        lemma_nums_members(init, x);
        lemma_range_nums_members(rs.last().0, rs.last().1, x);
        assert(rs =~= init + seq![rs.last()]);
        lemma_contain_concat(init, seq![rs.last()], x);
        lemma_contain_one(rs.last(), x);
        let a = all_nums(init);
        let b = range_nums(rs.last().0, rs.last().1);
        if (a + b).contains(x) {
            let k = choose|k: int| 0 <= k < (a + b).len() && (a + b)[k] == x;
            if k < a.len() {
                assert(a[k] == x);
            } else {
                assert(b[k - a.len()] == x);
            }
        }
        if a.contains(x) {
            let k = choose|k: int| 0 <= k < a.len() && a[k] == x;
            assert((a + b)[k] == x);
        }
        if b.contains(x) {
            let k = choose|k: int| 0 <= k < b.len() && b[k] == x;
            assert((a + b)[k + a.len()] == x);
        }
    }
}


// ── Reading back the wire format ────────────────────────────────────

/// A character that the wire form of a number may hold: a digit or `*`.
pub open spec fn num_char(c: char) -> bool {
    ('0' <= c <= '9') || c == '*'
}

proof fn lemma_latin1_concat(a: Seq<u8>, b: Seq<u8>)
    ensures
        latin1(a + b) == latin1(a) + latin1(b),
{
    assert(latin1(a + b) =~= latin1(a) + latin1(b));
}

/// The wire form of a number other than 0 is read back by
/// `parse_seq_num` as the number; it holds only digits and `*`.
proof fn lemma_num_wire_parse(n: u32)
    requires
        n >= 1,
    ensures
        parse_seq_num_spec(latin1(num_wire(n))) == Ok::<u32, Seq<char>>(n),
        latin1(num_wire(n)).len() >= 1,
        forall|i: int| 0 <= i < latin1(num_wire(n)).len() ==> num_char(#[trigger] latin1(num_wire(n))[i]),
{
    if n == u32::MAX {
        assert(latin1(num_wire(n)) =~= seq!['*']);
    } else {
        let d = dec_digits(n as nat);
        lemma_dec_digits(n as nat);
        let cs = latin1(d);
        assert forall|i: int| 0 <= i < cs.len() implies '0' <= #[trigger] cs[i] <= '9' by {
            assert(is_digit(d[i]));
        }
        assert(cs[0] != '*');
        assert(cs != seq!['*']);
        assert(cs[0] != '+');
        assert(is_ascii_digits(cs));
        assert(ascii_bytes(cs) =~= d) by {
            assert forall|i: int| 0 <= i < d.len() implies ascii_bytes(cs)[i] == d[i] by {
                assert(is_digit(d[i]));
            }
        }
    }
}

/// A part made of number characters is its own trim.
proof fn lemma_trim_num_chars(p: Seq<char>)
    requires
        p.len() >= 1,
        forall|i: int| 0 <= i < p.len() ==> num_char(#[trigger] p[i]) || p[i] == ':',
    ensures
        trim(p) == p,
{
    assert(!is_ws(p[0])) by {
        assert(num_char(p[0]) || p[0] == ':');
    }
    lemma_trim_start_skip(p, 0);
    assert(p.skip(0) =~= p);
    assert(!is_ws(p[p.len() - 1])) by {
        assert(num_char(p[p.len() - 1]) || p[p.len() - 1] == ':');
    }
    lemma_trim_end_take(p, p.len() as int);
    assert(p.take(p.len() as int) =~= p);
}

/// The wire form of a proper range is parsed back as the range; it holds
/// no comma and is its own trim.
proof fn lemma_range_wire_parse(r: (u32, u32))
    requires
        1 <= r.0 <= r.1,
    ensures
        parse_part_spec(latin1(range_wire(r))) == Ok::<(u32, u32), Seq<char>>(r),
        latin1(range_wire(r)).len() >= 1,
        forall|i: int| 0 <= i < latin1(range_wire(r)).len() ==> #[trigger] latin1(range_wire(r))[i] != ',',
        trim(latin1(range_wire(r))) == latin1(range_wire(r)),
{
    let a = latin1(num_wire(r.0));
    let b = latin1(num_wire(r.1));
    lemma_num_wire_parse(r.0);
    lemma_num_wire_parse(r.1);
    let p = latin1(range_wire(r));
    if r.0 == r.1 {
        assert(p == a);
        assert forall|i: int| 0 <= i < p.len() implies #[trigger] p[i] != ':' by {
            assert(num_char(a[i]));
        }
        lemma_find_char_unique(p, ':', p.len() as int);
        assert forall|i: int| 0 <= i < p.len() implies num_char(#[trigger] p[i]) || p[i] == ':' by {
            assert(num_char(a[i]));
        }
    } else {
        lemma_latin1_concat(num_wire(r.0) + seq![58u8], num_wire(r.1));
        lemma_latin1_concat(num_wire(r.0), seq![58u8]);
        assert(latin1(seq![58u8]) =~= seq![':']);
        assert(p == a + seq![':'] + b);
        assert forall|i: int| 0 <= i < a.len() implies #[trigger] p[i] != ':' by {
            assert(p[i] == a[i]);
            assert(num_char(a[i]));
        }
        lemma_find_char_unique(p, ':', a.len() as int);
        assert(p.take(a.len() as int) =~= a);
        assert(p.skip((a.len() + 1) as int) =~= b);
        assert forall|i: int| 0 <= i < p.len() implies num_char(#[trigger] p[i]) || p[i] == ':' by {
            if i < a.len() {
                assert(p[i] == a[i]);
                assert(num_char(a[i]));
            } else if i > a.len() {
                assert(p[i] == b[i - a.len() - 1]);
                assert(num_char(b[i - a.len() - 1]));
            }
        }
    }
    lemma_trim_num_chars(p);
}

/// The wire form of ranges, split after the first range.
proof fn lemma_ranges_wire_front(r: (u32, u32), t: Seq<(u32, u32)>)
    requires
        t.len() > 0,
    ensures
        ranges_wire(seq![r] + t) == range_wire(r) + seq![44u8] + ranges_wire(t),
    decreases t.len(),
{
    let rs = seq![r] + t;
    assert(rs.drop_last() =~= seq![r] + t.drop_last());
    assert(rs.last() == t.last());
    if t.len() == 1 {
        assert(t.drop_last() =~= Seq::<(u32, u32)>::empty());
        assert(seq![r] + t.drop_last() =~= seq![r]);
        assert(seq![r][0] == r);
        assert(ranges_wire(seq![r]) == range_wire(r));
        assert(ranges_wire(t) == range_wire(t[0]));
        assert(t.last() == t[0]);
        assert(ranges_wire(rs) == ranges_wire(seq![r]) + seq![44u8] + range_wire(t[0]));
    } else {
        lemma_ranges_wire_front(r, t.drop_last());
        assert(ranges_wire(rs) =~= range_wire(r) + seq![44u8] + ranges_wire(t));
    }
}

/// The parts of the wire form of proper ranges are the ranges.
proof fn lemma_parts_of_wire(rs: Seq<(u32, u32)>)
    requires
        rs.len() > 0,
        forall|i: int| 0 <= i < rs.len() ==> 1 <= #[trigger] rs[i].0 <= rs[i].1,
    ensures
        parse_parts_spec(latin1(ranges_wire(rs))) == Ok::<Seq<(u32, u32)>, Seq<char>>(rs),
    decreases rs.len(),
{
    let r = rs[0];
    assert(1 <= rs[0].0 <= rs[0].1);
    lemma_range_wire_parse(r);
    let p = latin1(range_wire(r));
    if rs.len() == 1 {
        let s = latin1(ranges_wire(rs));
        assert(s == p);
        lemma_find_char_unique(s, ',', s.len() as int);
        assert(s.take(s.len() as int) =~= s);
        assert(seq![r] =~= rs);
    } else {
        let t = rs.skip(1);
        assert(seq![r] + t =~= rs);
        assert forall|i: int| 0 <= i < t.len() implies 1 <= #[trigger] t[i].0 <= t[i].1 by {
            assert(t[i] == rs[i + 1]);
        }
        lemma_parts_of_wire(t);
        lemma_ranges_wire_front(r, t);
        let q = latin1(ranges_wire(t));
        lemma_latin1_concat(range_wire(r) + seq![44u8], ranges_wire(t));
        lemma_latin1_concat(range_wire(r), seq![44u8]);
        assert(latin1(seq![44u8]) =~= seq![',']);
        let s = latin1(ranges_wire(rs));
        assert(s == p + seq![','] + q);
        assert forall|i: int| 0 <= i < p.len() implies #[trigger] s[i] != ',' by {
            assert(s[i] == p[i]);
        }
        lemma_find_char_unique(s, ',', p.len() as int);
        assert(s.take(p.len() as int) =~= p);
        assert(s.skip((p.len() + 1) as int) =~= q);
        assert(seq![r] + t =~= rs);
    }
}

/// Law: a set of proper ranges (`1 <= start <= end`, `u32::MAX` for `*`),
/// written on the wire (`to_wire`) and parsed back (`parse`), gives those
/// ranges sorted with overlaps merged; a set in normal form (sorted, none
/// overlapping, touching or not) comes back the same.
pub proof fn law_wire_parse_round_trip(rs: Seq<(u32, u32)>)
    requires
        rs.len() > 0,
        forall|i: int| 0 <= i < rs.len() ==> 1 <= #[trigger] rs[i].0 <= rs[i].1,
    ensures
        parse_seq_set_spec(latin1(ranges_wire(rs))) == Ok::<Seq<(u32, u32)>, Seq<char>>(add_all(Seq::empty(), rs, 0)),
        ranges_normal(rs) ==> parse_seq_set_spec(latin1(ranges_wire(rs))) == Ok::<Seq<(u32, u32)>, Seq<char>>(rs),
{
    lemma_parts_of_wire(rs);
    if ranges_normal(rs) {
        lemma_add_all_normal_identity(rs, 0);
    }
}

} // verus!
