//! FETCH: what the client asks to be sent back, and the body sections it
//! names (`BODY[1.2.HEADER.FIELDS (From To)]`).
use vstd::prelude::*;
use crate::text::{
    chars_eq, chars_of, find_char, find_char_from, has_prefix, lemma_find_char, parse_u32_chars, parse_u32_std, split_whitespace_chars, split_ws, starts_with_chars, skip_leading, string_from_chars, strip_bounds, strip_leading, strip_trailing, trim, trim_bounds, upper_char_vec, upper_chars,
};

verus! {

/// FETCH command options — what the client wants back.
#[derive(Debug, Clone, Default)]
pub struct FetchOptions {
    pub uid: bool,
    pub flags: bool,
    pub internal_date: bool,
    pub rfc822_size: bool,
    pub envelope: bool,
    pub body_structure: bool,
    pub body_sections: Vec<BodySection>,
    pub binary_sections: Vec<BinarySection>,
    pub binary_section_sizes: Vec<BinarySectionSize>,
    pub mod_seq: bool,
    pub changed_since: Option<u64>,
    pub body_structure_extended: bool,
}

impl FetchOptions {
    /// Options that ask for nothing.
    pub fn new() -> (r: Self)
        ensures
            !r.uid && !r.flags && !r.internal_date && !r.rfc822_size && !r.envelope
                && !r.body_structure && !r.mod_seq && !r.body_structure_extended,
            r.body_sections@.len() == 0,
            r.binary_sections@.len() == 0,
            r.binary_section_sizes@.len() == 0,
            r.changed_since is None,
    {
        FetchOptions {
            uid: false,
            flags: false,
            internal_date: false,
            rfc822_size: false,
            envelope: false,
            body_structure: false,
            body_sections: Vec::new(),
            binary_sections: Vec::new(),
            binary_section_sizes: Vec::new(),
            mod_seq: false,
            changed_since: None,
            body_structure_extended: false,
        }
    }
}

/// BINARY section fetch item.
#[derive(Debug, Clone, Default)]
pub struct BinarySection {
    pub part: Vec<u32>,
    pub partial: Option<(u64, u64)>,
    pub peek: bool,
}

/// BINARY.SIZE section fetch item.
#[derive(Debug, Clone, Default)]
pub struct BinarySectionSize {
    pub part: Vec<u32>,
}

/// A BODY[section] or BODY.PEEK[section] request.
#[derive(Debug, Clone, Default)]
pub struct BodySection {
    /// Part path, e.g. `[1, 2]` for `BODY[1.2.TEXT]`.
    pub part: Vec<u32>,
    /// Section specifier: HEADER, TEXT, MIME, HEADER.FIELDS, etc.
    pub specifier: SectionSpecifier,
    /// Peek mode — don't set \Seen.
    pub peek: bool,
    /// Partial fetch: `<offset.size>`.
    pub partial: Option<(u64, u64)>,
}

#[derive(Debug, Clone, Default)]
pub enum SectionSpecifier {
    #[default]
    Whole,
    Header,
    HeaderFields(Vec<String>),
    HeaderFieldsNot(Vec<String>),
    Text,
    Mime,
}

/// The text of each string.
pub open spec fn strings_view(v: Seq<String>) -> Seq<Seq<char>> {
    Seq::new(v.len(), |i: int| v[i]@)
}

/// A section specifier as values.
pub enum SpecifierView {
    Whole,
    Header,
    HeaderFields(Seq<Seq<char>>),
    HeaderFieldsNot(Seq<Seq<char>>),
    Text,
    Mime,
}

pub open spec fn specifier_view(s: SectionSpecifier) -> SpecifierView {
    match s {
        SectionSpecifier::Whole => SpecifierView::Whole,
        SectionSpecifier::Header => SpecifierView::Header,
        SectionSpecifier::HeaderFields(f) => SpecifierView::HeaderFields(strings_view(f@)),
        SectionSpecifier::HeaderFieldsNot(f) => SpecifierView::HeaderFieldsNot(strings_view(f@)),
        SectionSpecifier::Text => SpecifierView::Text,
        SectionSpecifier::Mime => SpecifierView::Mime,
    }
}

/// Words joined with single spaces.
pub open spec fn join_space(ws: Seq<Seq<char>>) -> Seq<char>
    decreases ws.len(),
{
    if ws.len() == 0 {
        Seq::empty()
    } else if ws.len() == 1 {
        ws[0]
    } else {
        join_space(ws.drop_last()) + seq![' '] + ws.last()
    }
}

/// The wire form of a section specifier.
pub open spec fn specifier_wire(s: SpecifierView) -> Seq<char> {
    match s {
        SpecifierView::Whole => Seq::empty(),
        SpecifierView::Header => "HEADER"@,
        SpecifierView::HeaderFields(f) => "HEADER.FIELDS ("@ + join_space(f) + ")"@,
        SpecifierView::HeaderFieldsNot(f) => "HEADER.FIELDS.NOT ("@ + join_space(f) + ")"@,
        SpecifierView::Text => "TEXT"@,
        SpecifierView::Mime => "MIME"@,
    }
}

/// Appends the strings to `out`, separated by single spaces.
fn push_joined(out: &mut Vec<char>, fields: &Vec<String>)
    ensures
        final(out)@ == old(out)@ + join_space(strings_view(fields@)),
{
    let ghost base = out@;
    let mut i: usize = 0;
    assert(strings_view(fields@).take(0) =~= Seq::<Seq<char>>::empty());
    while i < fields.len()
        invariant
            i <= fields@.len(),
            out@ == base + join_space(strings_view(fields@).take(i as int)),
        decreases fields@.len() - i,
    {
        let ghost before = out@;
        if i > 0 {
            out.push(' ');
        }
        let f = chars_of(fields[i].as_str());
        let mut k: usize = 0;
        let ghost mid = out@;
        while k < f.len()
            invariant
                k <= f.len(),
                out@ == mid + f@.take(k as int),
            decreases f.len() - k,
        {
            out.push(f[k]);
            k += 1;
            assert(out@ =~= mid + f@.take(k as int));
        }
        assert(f@.take(f@.len() as int) =~= f@);
        i += 1;
        proof {
            let t = strings_view(fields@).take(i as int);
            assert(t.drop_last() =~= strings_view(fields@).take(i - 1));
            assert(t.last() == fields@[i - 1]@);
            if i == 1 {
                assert(strings_view(fields@).take(0) =~= Seq::<Seq<char>>::empty());
            }
            assert(out@ =~= base + join_space(t));
        }
    }
    assert(strings_view(fields@).take(fields@.len() as int) =~= strings_view(fields@));
}

/// Appends the characters of `s` to `out`.
fn push_str_chars(out: &mut Vec<char>, s: &str)
    ensures
        final(out)@ == old(out)@ + s@,
{
    let f = chars_of(s);
    let mut k: usize = 0;
    let ghost base = out@;
    while k < f.len()
        invariant
            k <= f.len(),
            f@ == s@,
            out@ == base + f@.take(k as int),
        decreases f.len() - k,
    {
        out.push(f[k]);
        k += 1;
        assert(out@ =~= base + f@.take(k as int));
    }
    assert(f@.take(f@.len() as int) =~= f@);
}

impl SectionSpecifier {
    /// The wire form: empty, `HEADER`, `HEADER.FIELDS (a b)`, ...
    pub fn to_wire(&self) -> (r: String)
        ensures
            r@ == specifier_wire(specifier_view(*self)),
    {
        match self {
            Self::Whole => String::new(),
            Self::Header => String::from_str("HEADER"),
            Self::HeaderFields(fields) => {
                let mut out: Vec<char> = Vec::new();
                push_str_chars(&mut out, "HEADER.FIELDS (");
                push_joined(&mut out, fields);
                push_str_chars(&mut out, ")");
                string_from_chars(&out)
            },
            Self::HeaderFieldsNot(fields) => {
                let mut out: Vec<char> = Vec::new();
                push_str_chars(&mut out, "HEADER.FIELDS.NOT (");
                push_joined(&mut out, fields);
                push_str_chars(&mut out, ")");
                string_from_chars(&out)
            },
            Self::Text => String::from_str("TEXT"),
            Self::Mime => String::from_str("MIME"),
        }
    }
}

#[derive(Debug)]
pub enum FetchAtt {
    Macro(FetchMacro),
    Flags,
    Uid,
    InternalDate,
    Rfc822Size,
    Envelope,
    BodyStructure,
    Rfc822,
    Rfc822Header,
    Rfc822Text,
    BodySection(BodySection),
}

#[derive(Debug, Clone, Copy, PartialEq, Eq, Structural)]
pub enum FetchMacro {
    All,
    Fast,
    Full,
}

/// A FETCH attribute as values; a body section as (peek, part path,
/// specifier, partial range).
pub enum FetchAttView {
    Macro(FetchMacro),
    Flags,
    Uid,
    InternalDate,
    Rfc822Size,
    Envelope,
    BodyStructure,
    Rfc822,
    Rfc822Header,
    Rfc822Text,
    BodySection(bool, Seq<u32>, SpecifierView, Option<(u64, u64)>),
}

pub open spec fn fetch_att_view(a: FetchAtt) -> FetchAttView {
    match a {
        FetchAtt::Macro(m) => FetchAttView::Macro(m),
        FetchAtt::Flags => FetchAttView::Flags,
        FetchAtt::Uid => FetchAttView::Uid,
        FetchAtt::InternalDate => FetchAttView::InternalDate,
        FetchAtt::Rfc822Size => FetchAttView::Rfc822Size,
        FetchAtt::Envelope => FetchAttView::Envelope,
        FetchAtt::BodyStructure => FetchAttView::BodyStructure,
        FetchAtt::Rfc822 => FetchAttView::Rfc822,
        FetchAtt::Rfc822Header => FetchAttView::Rfc822Header,
        FetchAtt::Rfc822Text => FetchAttView::Rfc822Text,
        FetchAtt::BodySection(bs) => FetchAttView::BodySection(
            bs.peek,
            bs.part@,
            specifier_view(bs.specifier),
            bs.partial,
        ),
    }
}

// ── Parsing a body section `[1.2.HEADER.FIELDS (A B)]` ──────────────

/// A character of a part path: a digit or `.`.
pub open spec fn is_part_char(c: char) -> bool {
    ('0' <= c <= '9') || c == '.'
}

/// The index of the first character that is not a part-path character,
/// or the length.
pub open spec fn find_non_part(s: Seq<char>) -> int
    decreases s.len(),
{
    if s.len() == 0 {
        0
    } else if !is_part_char(s[0]) {
        0
    } else {
        1 + find_non_part(s.drop_first())
    }
}

pub proof fn lemma_find_non_part(s: Seq<char>)
    ensures
        0 <= find_non_part(s) <= s.len(),
        forall|j: int| 0 <= j < find_non_part(s) ==> is_part_char(s[j]),
        find_non_part(s) < s.len() ==> !is_part_char(s[find_non_part(s)]),
    decreases s.len(),
{
    if s.len() > 0 && is_part_char(s[0]) {
        lemma_find_non_part(s.drop_first());
        assert forall|j: int| 0 <= j < find_non_part(s) implies is_part_char(s[j]) by {
            if j > 0 {
                assert(s[j] == s.drop_first()[j - 1]);
            }
        }
    }
}

pub proof fn lemma_find_non_part_unique(s: Seq<char>, i: int)
    requires
        0 <= i <= s.len(),
        forall|j: int| 0 <= j < i ==> is_part_char(s[j]),
        i < s.len() ==> !is_part_char(s[i]),
    ensures
        find_non_part(s) == i,
{
    lemma_find_non_part(s);
    if find_non_part(s) < i {
        assert(!is_part_char(s[find_non_part(s)]));
    }
    if find_non_part(s) > i {
        assert(is_part_char(s[i]));
    }
}

/// The numbers of a part path `1.2.3`; empty pieces are skipped and a piece
/// that does not parse as a `u32` is an error.
pub open spec fn part_nums_spec(s: Seq<char>) -> Result<Seq<u32>, Seq<char>>
    decreases s.len(),
{
    let k = find_char(s, '.');
    let p = s.take(k);
    let head: Result<Seq<u32>, Seq<char>> = if p.len() == 0 {
        Ok(Seq::empty())
    } else {
        match parse_u32_std(p) {
            Some(n) => Ok(seq![n]),
            None => Err("bad part: "@ + p),
        }
    };
    match head {
        Err(e) => Err(e),
        Ok(h) => if k < s.len() {
            proof {
                lemma_find_char(s, '.');
            }
            match part_nums_spec(s.skip(k + 1)) {
                Ok(r) => Ok(h + r),
                Err(e) => Err(e),
            }
        } else {
            Ok(h)
        },
    }
}

/// The field names of a `(A B C)` list.
pub open spec fn field_list_spec(s: Seq<char>) -> Seq<Seq<char>> {
    split_ws(strip_trailing(strip_leading(trim(s), '('), ')'))
}

/// A body section as written inside `[...]`: the part path, then the
/// specifier (matched in upper case).
pub open spec fn body_section_spec(spec: Seq<char>) -> Result<(Seq<u32>, SpecifierView), Seq<char>> {
    let inner = strip_trailing(strip_leading(spec, '['), ']');
    if inner.len() == 0 {
        Ok((Seq::empty(), SpecifierView::Whole))
    } else {
        let d = find_non_part(inner);
        match part_nums_spec(inner.take(d)) {
            Err(e) => Err(e),
            Ok(parts) => match specifier_spec(inner.skip(d)) {
                Ok(sp) => Ok((parts, sp)),
                Err(e) => Err(e),
            },
        }
    }
}

/// The specifier after a section's part path (after any leading dots),
/// matched in upper case.
pub open spec fn specifier_spec(spec_str: Seq<char>) -> Result<SpecifierView, Seq<char>> {
    let u = upper_chars(strip_leading(spec_str, '.'));
    if u.len() == 0 || u == "NONE"@ {
        Ok(SpecifierView::Whole)
    } else if u == "HEADER"@ {
        Ok(SpecifierView::Header)
    } else if u == "TEXT"@ {
        Ok(SpecifierView::Text)
    } else if u == "MIME"@ {
        Ok(SpecifierView::Mime)
    } else if has_prefix(u, "HEADER.FIELDS "@) {
        Ok(SpecifierView::HeaderFields(field_list_spec(u.skip(14))))
    } else if has_prefix(u, "HEADER.FIELDS.NOT "@) {
        Ok(SpecifierView::HeaderFieldsNot(field_list_spec(u.skip(18))))
    } else {
        Err("bad section specifier: "@ + spec_str)
    }
}

/// `message + detail` as a `String`.
fn error_with(message: &str, detail: &[char]) -> (r: String)
    ensures
        r@ == message@ + detail@,
{
    let mut out: Vec<char> = Vec::new();
    push_str_chars(&mut out, message);
    let mut i: usize = 0;
    let ghost base = out@;
    while i < detail.len()
        invariant
            i <= detail.len(),
            out@ == base + detail@.take(i as int),
        decreases detail.len() - i,
    {
        out.push(detail[i]);
        i += 1;
        assert(out@ =~= base + detail@.take(i as int));
    }
    assert(detail@.take(detail@.len() as int) =~= detail@);
    string_from_chars(&out)
}

/// A copy of `s[a..b]`.
pub(crate) fn sub_chars(s: &[char], a: usize, b: usize) -> (r: Vec<char>)
    requires
        a <= b <= s.len(),
    ensures
        r@ == s@.subrange(a as int, b as int),
{
    let mut r: Vec<char> = Vec::new();
    let mut i = a;
    while i < b
        invariant
            a <= i <= b <= s.len(),
            r@ == s@.subrange(a as int, i as int),
        decreases b - i,
    {
        r.push(s[i]);
        i += 1;
        assert(r@ =~= s@.subrange(a as int, i as int));
    }
    r
}

/// Parses a part path.
fn parse_part_nums(s: &[char]) -> (r: Result<Vec<u32>, String>)
    ensures
        match part_nums_spec(s@) {
            Ok(v) => r is Ok && r->Ok_0@ == v,
            Err(e) => r is Err && r->Err_0@ == e,
        },
{
    let mut nums: Vec<u32> = Vec::new();
    let mut pos: usize = 0;
    assert(s@.skip(0) =~= s@);
    proof {
        match part_nums_spec(s@) {
            Ok(r) => {
                assert(nums@ + r =~= r);
            },
            Err(e) => {},
        }
    }
    loop
        invariant
            pos <= s.len(),
            part_nums_spec(s@) == match part_nums_spec(s@.skip(pos as int)) {
                Ok(r) => Ok(nums@ + r),
                Err(e) => Err(e),
            },
        decreases s.len() - pos,
    {
        let ghost rest = s@.skip(pos as int);
        let k = find_char_from(s, '.', pos);
        assert(rest.take(k - pos) =~= s@.subrange(pos as int, k as int));
        let ghost before = nums@;
        if k > pos {
            let p = sub_chars(s, pos, k);
            match parse_u32_chars(&p) {
                Some(n) => {
                    nums.push(n);
                },
                None => {
                    return Err(error_with("bad part: ", &p));
                },
            }
        }
        let ghost h: Seq<u32> = if k == pos {
            Seq::empty()
        } else {
            seq![nums@.last()]
        };
        assert(nums@ =~= before + h);
        if k == s.len() {
            return Ok(nums);
        }
        assert(rest.skip(k - pos + 1) =~= s@.skip(k + 1));
        proof {
            match part_nums_spec(s@.skip(k + 1)) {
                Ok(r) => {
                    assert(before + (h + r) =~= nums@ + r);
                },
                Err(e) => {},
            }
        }
        pos = k + 1;
    }
}

/// Whether `u` is exactly the word `w`.
pub(crate) fn is_word(u: &[char], w: &str) -> (r: bool)
    ensures
        r == (u@ == w@),
{
    let wc = chars_of(w);
    chars_eq(u, &wc)
}

/// Whether `u` begins with `w`.
pub(crate) fn has_word_prefix(u: &[char], w: &str) -> (r: bool)
    ensures
        r == has_prefix(u@, w@),
{
    let wc = chars_of(w);
    starts_with_chars(u, &wc)
}

/// The field names of `(A B C)` held in `s[from..]`.
pub(crate) fn parse_field_list(s: &[char], from: usize) -> (r: Vec<String>)
    requires
        from <= s.len(),
    ensures
        strings_view(r@) == field_list_spec(s@.skip(from as int)),
{
    let (a, b) = trim_bounds(s, from, s.len());
    assert(s@.subrange(from as int, s@.len() as int) =~= s@.skip(from as int));
    let (c, d) = strip_bounds(s, a, b, '(', ')');
    let r = split_whitespace_chars(s, c, d);
    assert(strings_view(r@) =~= field_list_spec(s@.skip(from as int)));
    r
}

/// Parses the section of a `BODY[...]` attribute; `spec` may still carry
/// its brackets.
fn parse_body_section(spec: &str, peek: bool) -> (r: Result<FetchAtt, String>)
    ensures
        match body_section_spec(spec@) {
            Ok((parts, sp)) => r is Ok && fetch_att_view(r->Ok_0) == FetchAttView::BodySection(
                peek,
                parts,
                sp,
                None,
            ),
            Err(e) => r is Err && r->Err_0@ == e,
        },
{
    let cs = chars_of(spec);
    let (a, b) = strip_bounds(&cs, 0, cs.len(), '[', ']');
    assert(cs@.subrange(0, cs@.len() as int) =~= cs@);
    let inner = sub_chars(&cs, a, b);
    if inner.len() == 0 {
        let section = BodySection {
            part: Vec::new(),
            specifier: SectionSpecifier::Whole,
            peek,
            partial: None,
        };
        assert(section.part@ =~= Seq::<u32>::empty());
        return Ok(FetchAtt::BodySection(section));
    }
    let mut d: usize = 0;
    while d < inner.len() && (('0' <= inner[d] && inner[d] <= '9') || inner[d] == '.')
        invariant
            d <= inner.len(),
            forall|j: int| 0 <= j < d ==> is_part_char(inner@[j]),
        decreases inner.len() - d,
    {
        d += 1;
    }
    proof {
        lemma_find_non_part_unique(inner@, d as int);
    }
    let part_str = sub_chars(&inner, 0, d);
    let spec_str = sub_chars(&inner, d, inner.len());
    assert(part_str@ =~= inner@.take(d as int));
    assert(spec_str@ =~= inner@.skip(d as int));
    let parts = parse_part_nums(&part_str)?;
    let specifier = parse_specifier(&spec_str)?;
    let section = BodySection { part: parts, specifier, peek, partial: None };
    Ok(FetchAtt::BodySection(section))
}

/// Parses the specifier that follows a section's part path.
fn parse_specifier(spec_str: &[char]) -> (r: Result<SectionSpecifier, String>)
    ensures
        match specifier_spec(spec_str@) {
            Ok(sp) => r is Ok && specifier_view(r->Ok_0) == sp,
            Err(e) => r is Err && r->Err_0@ == e,
        },
{
    let e = skip_leading(spec_str, '.');
    let stripped = sub_chars(spec_str, e, spec_str.len());
    assert(stripped@ =~= spec_str@.skip(e as int));
    let u = upper_char_vec(&stripped);
    if u.len() == 0 || is_word(&u, "NONE") {
        Ok(SectionSpecifier::Whole)
    } else if is_word(&u, "HEADER") {
        Ok(SectionSpecifier::Header)
    } else if is_word(&u, "TEXT") {
        Ok(SectionSpecifier::Text)
    } else if is_word(&u, "MIME") {
        Ok(SectionSpecifier::Mime)
    } else if has_word_prefix(&u, "HEADER.FIELDS ") {
        proof {
            reveal_strlit("HEADER.FIELDS ");
        }
        Ok(SectionSpecifier::HeaderFields(parse_field_list(&u, 14)))
    } else if has_word_prefix(&u, "HEADER.FIELDS.NOT ") {
        proof {
            reveal_strlit("HEADER.FIELDS.NOT ");
        }
        Ok(SectionSpecifier::HeaderFieldsNot(parse_field_list(&u, 18)))
    } else {
        Err(error_with("bad section specifier: ", spec_str))
    }
}

/// The attribute keyword of a FETCH item, in upper case.
pub open spec fn fetch_att_spec(name: Seq<char>, rest: Seq<char>) -> Result<
    FetchAttView,
    Seq<char>,
> {
    let u = upper_chars(name);
    if u == "ALL"@ {
        Ok(FetchAttView::Macro(FetchMacro::All))
    } else if u == "FAST"@ {
        Ok(FetchAttView::Macro(FetchMacro::Fast))
    } else if u == "FULL"@ {
        Ok(FetchAttView::Macro(FetchMacro::Full))
    } else if u == "FLAGS"@ {
        Ok(FetchAttView::Flags)
    } else if u == "UID"@ {
        Ok(FetchAttView::Uid)
    } else if u == "INTERNALDATE"@ {
        Ok(FetchAttView::InternalDate)
    } else if u == "RFC822.SIZE"@ {
        Ok(FetchAttView::Rfc822Size)
    } else if u == "ENVELOPE"@ {
        Ok(FetchAttView::Envelope)
    } else if u == "BODYSTRUCTURE"@ {
        Ok(FetchAttView::BodyStructure)
    } else if u == "BODY"@ {
        if rest.len() > 0 && rest[0] == '[' {
            match body_section_spec(rest) {
                Ok((p, s)) => Ok(FetchAttView::BodySection(false, p, s, None)),
                Err(e) => Err(e),
            }
        } else {
            Ok(FetchAttView::BodyStructure)
        }
    } else if u == "BODY.PEEK"@ {
        match body_section_spec(rest) {
            Ok((p, s)) => Ok(FetchAttView::BodySection(true, p, s, None)),
            Err(e) => Err(e),
        }
    } else if u == "RFC822"@ {
        Ok(FetchAttView::Rfc822)
    } else if u == "RFC822.HEADER"@ {
        Ok(FetchAttView::Rfc822Header)
    } else if u == "RFC822.TEXT"@ {
        Ok(FetchAttView::Rfc822Text)
    } else {
        Err("unknown FETCH item: "@ + name)
    }
}

/// Parse FETCH attribute name from wire (e.g. "FLAGS", "BODY[]",
/// "BODY.PEEK[HEADER]"); `rest` is what follows the keyword.
pub fn parse_fetch_att(name: &str, rest: &str) -> (r: Result<FetchAtt, String>)
    ensures
        match fetch_att_spec(name@, rest@) {
            Ok(v) => r is Ok && fetch_att_view(r->Ok_0) == v,
            Err(e) => r is Err && r->Err_0@ == e,
        },
{
    let cs = chars_of(name);
    let u = upper_char_vec(&cs);
    if is_word(&u, "ALL") {
        Ok(FetchAtt::Macro(FetchMacro::All))
    } else if is_word(&u, "FAST") {
        Ok(FetchAtt::Macro(FetchMacro::Fast))
    } else if is_word(&u, "FULL") {
        Ok(FetchAtt::Macro(FetchMacro::Full))
    } else if is_word(&u, "FLAGS") {
        Ok(FetchAtt::Flags)
    } else if is_word(&u, "UID") {
        Ok(FetchAtt::Uid)
    } else if is_word(&u, "INTERNALDATE") {
        Ok(FetchAtt::InternalDate)
    } else if is_word(&u, "RFC822.SIZE") {
        Ok(FetchAtt::Rfc822Size)
    } else if is_word(&u, "ENVELOPE") {
        Ok(FetchAtt::Envelope)
    } else if is_word(&u, "BODYSTRUCTURE") {
        Ok(FetchAtt::BodyStructure)
    } else if is_word(&u, "BODY") {
        let rc = chars_of(rest);
        if rc.len() > 0 && rc[0] == '[' {
            parse_body_section(rest, false)
        } else {
            Ok(FetchAtt::BodyStructure)
        }
    } else if is_word(&u, "BODY.PEEK") {
        parse_body_section(rest, true)
    } else if is_word(&u, "RFC822") {
        Ok(FetchAtt::Rfc822)
    } else if is_word(&u, "RFC822.HEADER") {
        Ok(FetchAtt::Rfc822Header)
    } else if is_word(&u, "RFC822.TEXT") {
        Ok(FetchAtt::Rfc822Text)
    } else {
        Err(error_with("unknown FETCH item: ", &cs))
    }
}

} // verus!
