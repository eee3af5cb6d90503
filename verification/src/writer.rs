//! Writers for the parts of responses that several commands share: flag
//! lists, addresses, envelopes, body structures, FETCH items, LIST lines
//! and unsolicited updates.
use vstd::prelude::*;
use vstd::utf8::encode_utf8;
use vstd::string::StringSliceAdditionalSpecFns;
use crate::bodystructure::{
    BodyStructure, BodyStructureDisposition, BodyStructureMessageRFC822, MultiPartExt,
    SinglePartExt,
};
use crate::codec::{Encoder, nstring_bytes, quoted_bytes, string_bytes};
use crate::text::{bytes_eq_ignore_case, chars_of, dec_digits, dec_signed, eq_ignore_case, string_from_chars};
use crate::types::{Address, Envelope, Flag, MailboxAttr};
use crate::fetch::{BodySection, join_space, specifier_view, specifier_wire};
use crate::tracker::TrackerUpdate;
use crate::select::ListData;

verus! {

// ── Shapes ──────────────────────────────────────────────────────────

/// The UTF-8 bytes of a string.
pub open spec fn utf8(s: String) -> Seq<u8> {
    encode_utf8(s@)
}

/// `NIL`.
pub open spec fn nil_bytes() -> Seq<u8> {
    seq![78u8, 73, 76]
}

/// Items separated by SP.
pub open spec fn join_sp(items: Seq<Seq<u8>>) -> Seq<u8>
    decreases items.len(),
{
    if items.len() == 0 {
        Seq::empty()
    } else if items.len() == 1 {
        items[0]
    } else {
        join_sp(items.drop_last()) + seq![32u8] + items.last()
    }
}

/// `(`, the bytes, `)`.
pub open spec fn paren(b: Seq<u8>) -> Seq<u8> {
    seq![40u8] + b + seq![41u8]
}

pub proof fn lemma_join_sp_push(items: Seq<Seq<u8>>, i: int)
    requires
        0 <= i < items.len(),
    ensures
        join_sp(items.take(i + 1)) == join_sp(items.take(i)) + (if i > 0 {
            seq![32u8]
        } else {
            Seq::<u8>::empty()
        }) + items[i],
{
    assert(items.take(i + 1).drop_last() =~= items.take(i));
    if i == 0 {
        assert(join_sp(items.take(1)) == items[0]);
        assert(Seq::<u8>::empty() + Seq::<u8>::empty() + items[0] =~= items[0]);
    }
}

/// A flag list: `(` flags separated by SP `)`.
pub open spec fn flags_bytes(flags: Seq<Flag>) -> Seq<u8> {
    paren(join_sp(flags.map_values(|f: Flag| utf8(f.0))))
}

/// An address: `(name NIL mailbox host)`, each part an nstring.
pub open spec fn address_bytes(a: Address) -> Seq<u8> {
    paren(nstring_bytes(utf8(a.name)) + seq![32u8] + nil_bytes() + seq![32u8] + nstring_bytes(
        utf8(a.mailbox),
    ) + seq![32u8] + nstring_bytes(utf8(a.host)))
}

/// SP, then an address list: `NIL` when empty, else the addresses in
/// parentheses.
pub open spec fn address_list_bytes(addrs: Seq<Address>) -> Seq<u8> {
    seq![32u8] + if addrs.len() == 0 {
        nil_bytes()
    } else {
        paren(join_sp(addrs.map_values(|a: Address| address_bytes(a))))
    }
}

/// The date and subject of an envelope.
pub open spec fn envelope_head_bytes(e: Envelope) -> Seq<u8> {
    nstring_bytes(utf8(e.date)) + seq![32u8] + nstring_bytes(utf8(e.subject))
}

/// The six address lists of an envelope.
pub open spec fn envelope_addrs_bytes(e: Envelope) -> Seq<u8> {
    address_list_bytes(e.from@) + address_list_bytes(e.sender@) + address_list_bytes(
        e.reply_to@,
    ) + address_list_bytes(e.to@) + address_list_bytes(e.cc@) + address_list_bytes(e.bcc@)
}

/// The In-Reply-To and Message-ID of an envelope.
pub open spec fn envelope_tail_bytes(e: Envelope) -> Seq<u8> {
    seq![32u8] + (if e.in_reply_to@.len() == 0 {
        nil_bytes()
    } else {
        nstring_bytes(encode_utf8(join_space(e.in_reply_to@.map_values(|s: String| s@))))
    }) + seq![32u8] + nstring_bytes(utf8(e.message_id))
}

/// An ENVELOPE (RFC 3501 section 7.4.2).
pub open spec fn envelope_bytes(e: Envelope) -> Seq<u8> {
    paren(envelope_head_bytes(e) + envelope_addrs_bytes(e) + envelope_tail_bytes(e))
}

/// Law: an ENVELOPE lists its addresses in RFC 3501 order after the date
/// and subject: from, sender, reply-to, to, cc, bcc; the fourth list is
/// the envelope's To recipients and the fifth its Cc recipients.
pub proof fn law_envelope_list_order(e: Envelope)
    ensures
        envelope_bytes(e) == seq![40u8] + nstring_bytes(utf8(e.date)) + seq![32u8] + nstring_bytes(utf8(e.subject))
            + address_list_bytes(e.from@) + address_list_bytes(e.sender@) + address_list_bytes(e.reply_to@)
            + address_list_bytes(e.to@) + address_list_bytes(e.cc@) + address_list_bytes(e.bcc@)
            + envelope_tail_bytes(e) + seq![41u8],
{
    assert(envelope_bytes(e) =~= seq![40u8] + nstring_bytes(utf8(e.date)) + seq![32u8] + nstring_bytes(utf8(e.subject))
        + address_list_bytes(e.from@) + address_list_bytes(e.sender@) + address_list_bytes(e.reply_to@)
        + address_list_bytes(e.to@) + address_list_bytes(e.cc@) + address_list_bytes(e.bcc@)
        + envelope_tail_bytes(e) + seq![41u8]);
}

/// A body-fld-param: `NIL`, or `(name value ...)` as strings.
pub open spec fn fld_param_bytes(ps: Seq<(String, String)>) -> Seq<u8> {
    if ps.len() == 0 {
        nil_bytes()
    } else {
        paren(
            join_sp(
                ps.map_values(
                    |p: (String, String)| string_bytes(utf8(p.0)) + seq![32u8] + string_bytes(
                        utf8(p.1),
                    ),
                ),
            ),
        )
    }
}

/// A body-fld-dsp: `(value params)`.
pub open spec fn fld_dsp_bytes(d: BodyStructureDisposition) -> Seq<u8> {
    paren(string_bytes(utf8(d.value)) + seq![32u8] + fld_param_bytes(d.params@))
}

/// A disposition or `NIL`.
pub open spec fn opt_dsp_bytes(d: Option<BodyStructureDisposition>) -> Seq<u8> {
    match d {
        Some(x) => fld_dsp_bytes(x),
        None => nil_bytes(),
    }
}

/// A body-fld-lang: `NIL`, one string, or strings in parentheses.
pub open spec fn fld_lang_bytes(l: Seq<String>) -> Seq<u8> {
    if l.len() == 0 {
        nil_bytes()
    } else if l.len() == 1 {
        string_bytes(utf8(l[0]))
    } else {
        paren(join_sp(l.map_values(|s: String| string_bytes(utf8(s)))))
    }
}

/// The extension data of a single part, when present.
pub open spec fn single_ext_bytes(ext: Option<SinglePartExt>) -> Seq<u8> {
    match ext {
        Some(x) => seq![32u8] + opt_dsp_bytes(x.disposition) + seq![32u8] + fld_lang_bytes(
            x.language@,
        ) + seq![32u8] + nstring_bytes(utf8(x.location)),
        None => Seq::empty(),
    }
}

/// The extension data of a multi-part, when present.
pub open spec fn multi_ext_bytes(ext: Option<MultiPartExt>) -> Seq<u8> {
    match ext {
        Some(x) => seq![32u8] + fld_param_bytes(x.params@) + seq![32u8] + opt_dsp_bytes(
            x.disposition,
        ) + seq![32u8] + fld_lang_bytes(x.language@) + seq![32u8] + nstring_bytes(
            utf8(x.location),
        ),
        None => Seq::empty(),
    }
}

/// The bytes `message`, `rfc822` and `text`.
pub open spec fn message_word() -> Seq<u8> {
    seq![109u8, 101, 115, 115, 97, 103, 101]
}

pub open spec fn rfc822_word() -> Seq<u8> {
    seq![114u8, 102, 99, 56, 50, 50]
}

pub open spec fn text_word() -> Seq<u8> {
    seq![116u8, 101, 120, 116]
}

/// The basic fields of a single part: type, subtype, parameters, id,
/// description, encoding and size.
pub open spec fn single_head_bytes(
    typ: String,
    subtype: String,
    params: Seq<(String, String)>,
    id: String,
    description: String,
    encoding: String,
    size: u32,
) -> Seq<u8> {
    string_bytes(utf8(typ)) + seq![32u8] + string_bytes(utf8(subtype)) + seq![32u8]
        + fld_param_bytes(params) + seq![32u8] + nstring_bytes(utf8(id)) + seq![32u8]
        + nstring_bytes(utf8(description)) + seq![32u8] + string_bytes(utf8(encoding)) + seq![
        32u8,
    ] + dec_digits(size as nat)
}

/// The fields of a `message/rfc822` part, given the bytes of its body.
pub open spec fn rfc822_bytes(m: BodyStructureMessageRFC822, body: Seq<u8>) -> Seq<u8> {
    seq![32u8] + (match m.envelope {
        Some(e) => envelope_bytes(e),
        None => nil_bytes(),
    }) + seq![32u8] + body + seq![32u8] + dec_signed(m.num_lines as int)
}

/// The part is `message/rfc822` (ASCII case ignored).
pub open spec fn is_message_rfc822(typ: String, subtype: String) -> bool {
    eq_ignore_case(utf8(typ), message_word()) && eq_ignore_case(utf8(subtype), rfc822_word())
}

/// The fields that depend on the media type: those of a `message/rfc822`
/// part (with `body` the bytes of its nested body), or the line count of a
/// `text/*` part.
pub open spec fn single_extra_bytes(
    typ: String,
    subtype: String,
    message_rfc822: Option<BodyStructureMessageRFC822>,
    text: Option<crate::bodystructure::BodyStructureText>,
    body: Seq<u8>,
) -> Seq<u8> {
    if is_message_rfc822(typ, subtype) {
        match message_rfc822 {
            Some(m) => rfc822_bytes(m, body),
            None => Seq::empty(),
        }
    } else if eq_ignore_case(utf8(typ), text_word()) {
        match text {
            Some(t) => seq![32u8] + dec_signed(t.num_lines as int),
            None => Seq::empty(),
        }
    } else {
        Seq::empty()
    }
}

/// A BODYSTRUCTURE (RFC 3501 section 7.4.2): a single part with its
/// fields, the envelope, body and line count of a `message/rfc822` part or
/// the line count of a `text/*` part, and extension data when present; a
/// multi-part with each child followed by SP, the subtype and extension
/// data.
pub open spec fn body_bytes(bs: BodyStructure) -> Seq<u8>
    decreases bs, 0nat,
{
    match bs {
        BodyStructure::SinglePart {
            typ,
            subtype,
            params,
            id,
            description,
            encoding,
            size,
            message_rfc822,
            text,
            extended,
        } => paren(
            single_head_bytes(typ, subtype, params@, id, description, encoding, size)
                + single_extra_bytes(
                typ,
                subtype,
                message_rfc822,
                text,
                match message_rfc822 {
                    Some(m) => match m.body_structure {
                        Some(b) => body_bytes(*b),
                        None => nil_bytes(),
                    },
                    None => Seq::empty(),
                },
            ) + single_ext_bytes(extended),
        ),
        BodyStructure::MultiPart { children, subtype, extended } => paren(
            children_bytes(children@, children@.len()) + sep_bytes(children@.len() > 0)
                + string_bytes(utf8(subtype))
                + multi_ext_bytes(extended),
        ),
    }
}

/// The first `n` children, written one after another with nothing between
/// them (RFC 3501 `1*body`).
pub open spec fn children_bytes(cs: Seq<BodyStructure>, n: nat) -> Seq<u8>
    decreases cs, n,
{
    if n == 0 || n > cs.len() {
        Seq::empty()
    } else {
        children_bytes(cs, (n - 1) as nat) + body_bytes(cs[n - 1])
    }
}

// ── Writers ─────────────────────────────────────────────────────────

/// Writes a parenthesized flag list.
pub fn write_flag_list_enc(enc: &mut Encoder, flags: &[Flag])
    ensures
        final(enc)@ == old(enc)@ + flags_bytes(flags@),
{
    let ghost items = flags@.map_values(|f: Flag| utf8(f.0));
    enc.special(40u8);
    let ghost start = enc@;
    let mut i: usize = 0;
    while i < flags.len()
        invariant
            i <= flags.len(),
            items == flags@.map_values(|f: Flag| utf8(f.0)),
            enc@ == start + join_sp(items.take(i as int)),
        decreases flags.len() - i,
    {
        proof {
            lemma_join_sp_push(items, i as int);
        }
        if i > 0 {
            enc.sp();
        }
        enc.flag(flags[i].0.as_str());
        i += 1;
        assert(enc@ =~= start + join_sp(items.take(i as int)));
    }
    enc.special(41u8);
    assert(items.take(flags@.len() as int) =~= items);
    assert(enc@ =~= old(enc)@ + flags_bytes(flags@));
}

/// Writes an address.
fn write_address(enc: &mut Encoder, a: &Address)
    ensures
        final(enc)@ == old(enc)@ + address_bytes(*a),
{
    enc.special(40u8);
    enc.nstring(a.name.as_str());
    enc.sp();
    enc.nil();
    enc.sp();
    enc.nstring(a.mailbox.as_str());
    enc.sp();
    enc.nstring(a.host.as_str());
    enc.special(41u8);
    assert(enc@ =~= old(enc)@ + address_bytes(*a));
}

/// Writes SP and an address list (`NIL` when empty).
pub fn write_address_list(enc: &mut Encoder, addrs: &[Address])
    ensures
        final(enc)@ == old(enc)@ + address_list_bytes(addrs@),
{
    enc.sp();
    if addrs.len() == 0 {
        enc.nil();
        assert(enc@ =~= old(enc)@ + address_list_bytes(addrs@));
        return;
    }
    let ghost items = addrs@.map_values(|a: Address| address_bytes(a));
    enc.special(40u8);
    let ghost start = enc@;
    let mut i: usize = 0;
    while i < addrs.len()
        invariant
            i <= addrs.len(),
            items == addrs@.map_values(|a: Address| address_bytes(a)),
            enc@ == start + join_sp(items.take(i as int)),
        decreases addrs.len() - i,
    {
        proof {
            lemma_join_sp_push(items, i as int);
        }
        if i > 0 {
            enc.sp();
        }
        write_address(enc, &addrs[i]);
        i += 1;
        assert(enc@ =~= start + join_sp(items.take(i as int)));
    }
    enc.special(41u8);
    assert(items.take(addrs@.len() as int) =~= items);
    assert(enc@ =~= old(enc)@ + address_list_bytes(addrs@));
}

/// The strings joined by one space.
fn join_with_space(ss: &[String]) -> (r: String)
    ensures
        r@ == join_space(ss@.map_values(|s: String| s@)),
{
    let ghost items = ss@.map_values(|s: String| s@);
    let mut out: Vec<char> = Vec::new();
    let mut i: usize = 0;
    while i < ss.len()
        invariant
            i <= ss.len(),
            items == ss@.map_values(|s: String| s@),
            out@ == join_space(items.take(i as int)),
        decreases ss.len() - i,
    {
        assert(items.take(i + 1).drop_last() =~= items.take(i as int));
        if i > 0 {
            out.push(' ');
        }
        let cs = chars_of(ss[i].as_str());
        let mut j: usize = 0;
        let ghost before = out@;
        while j < cs.len()
            invariant
                j <= cs.len(),
                out@ == before + cs@.take(j as int),
            decreases cs.len() - j,
        {
            out.push(cs[j]);
            j += 1;
            assert(out@ =~= before + cs@.take(j as int));
        }
        assert(cs@.take(cs@.len() as int) =~= cs@);
        i += 1;
        assert(out@ =~= join_space(items.take(i as int)));
    }
    assert(items.take(ss@.len() as int) =~= items);
    string_from_chars(&out)
}

fn write_envelope_addrs(enc: &mut Encoder, env: &Envelope)
    ensures
        final(enc)@ == old(enc)@ + envelope_addrs_bytes(*env),
{
    write_address_list(enc, &env.from);
    write_address_list(enc, &env.sender);
    write_address_list(enc, &env.reply_to);
    write_address_list(enc, &env.to);
    write_address_list(enc, &env.cc);
    write_address_list(enc, &env.bcc);
    assert(enc@ =~= old(enc)@ + envelope_addrs_bytes(*env));
}

fn write_envelope_tail(enc: &mut Encoder, env: &Envelope)
    ensures
        final(enc)@ == old(enc)@ + envelope_tail_bytes(*env),
{
    enc.sp();
    if env.in_reply_to.len() == 0 {
        enc.nil();
    } else {
        let joined = join_with_space(&env.in_reply_to);
        enc.nstring(joined.as_str());
    }
    enc.sp();
    enc.nstring(env.message_id.as_str());
    assert(enc@ =~= old(enc)@ + envelope_tail_bytes(*env));
}

/// Writes an ENVELOPE.
pub fn write_envelope(enc: &mut Encoder, env: &Envelope)
    ensures
        final(enc)@ == old(enc)@ + envelope_bytes(*env),
{
    enc.special(40u8);
    let ghost e1 = enc@;
    write_envelope_head(enc, env);
    let ghost e2 = enc@;
    write_envelope_addrs(enc, env);
    let ghost e3 = enc@;
    write_envelope_tail(enc, env);
    let ghost e4 = enc@;
    enc.special(41u8);
    assert(e1 == old(enc)@ + seq![40u8]);
    assert(e4 == old(enc)@ + seq![40u8] + envelope_head_bytes(*env) + envelope_addrs_bytes(*env)
        + envelope_tail_bytes(*env));
    assert(enc@ =~= old(enc)@ + envelope_bytes(*env));
}

fn write_envelope_head(enc: &mut Encoder, env: &Envelope)
    ensures
        final(enc)@ == old(enc)@ + envelope_head_bytes(*env),
{
    enc.nstring(env.date.as_str());
    enc.sp();
    enc.nstring(env.subject.as_str());
    assert(enc@ =~= old(enc)@ + envelope_head_bytes(*env));
}

/// Writes a body-fld-param.
pub fn write_fld_param(enc: &mut Encoder, params: &[(String, String)])
    ensures
        final(enc)@ == old(enc)@ + fld_param_bytes(params@),
{
    if params.len() == 0 {
        enc.nil();
        return;
    }
    let ghost items = params@.map_values(
        |p: (String, String)| string_bytes(utf8(p.0)) + seq![32u8] + string_bytes(utf8(p.1)),
    );
    enc.special(40u8);
    let ghost start = enc@;
    let mut i: usize = 0;
    while i < params.len()
        invariant
            i <= params.len(),
            items == params@.map_values(
                |p: (String, String)| string_bytes(utf8(p.0)) + seq![32u8] + string_bytes(
                    utf8(p.1),
                ),
            ),
            enc@ == start + join_sp(items.take(i as int)),
        decreases params.len() - i,
    {
        proof {
            lemma_join_sp_push(items, i as int);
        }
        if i > 0 {
            enc.sp();
        }
        enc.string(params[i].0.as_str());
        enc.sp();
        enc.string(params[i].1.as_str());
        i += 1;
        assert(enc@ =~= start + join_sp(items.take(i as int)));
    }
    enc.special(41u8);
    assert(items.take(params@.len() as int) =~= items);
    assert(enc@ =~= old(enc)@ + fld_param_bytes(params@));
}

/// Writes a body-fld-dsp.
pub fn write_fld_dsp(enc: &mut Encoder, disp: &BodyStructureDisposition)
    ensures
        final(enc)@ == old(enc)@ + fld_dsp_bytes(*disp),
{
    enc.special(40u8);
    enc.string(disp.value.as_str());
    enc.sp();
    write_fld_param(enc, &disp.params);
    enc.special(41u8);
    assert(enc@ =~= old(enc)@ + fld_dsp_bytes(*disp));
}

fn write_opt_dsp(enc: &mut Encoder, disp: &Option<BodyStructureDisposition>)
    ensures
        final(enc)@ == old(enc)@ + opt_dsp_bytes(*disp),
{
    match disp {
        Some(d) => write_fld_dsp(enc, d),
        None => enc.nil(),
    }
}

/// Writes a body-fld-lang.
pub fn write_fld_lang(enc: &mut Encoder, lang: &[String])
    ensures
        final(enc)@ == old(enc)@ + fld_lang_bytes(lang@),
{
    if lang.len() == 0 {
        enc.nil();
        return;
    }
    if lang.len() == 1 {
        enc.string(lang[0].as_str());
        return;
    }
    let ghost items = lang@.map_values(|s: String| string_bytes(utf8(s)));
    enc.special(40u8);
    let ghost start = enc@;
    let mut i: usize = 0;
    while i < lang.len()
        invariant
            i <= lang.len(),
            items == lang@.map_values(|s: String| string_bytes(utf8(s))),
            enc@ == start + join_sp(items.take(i as int)),
        decreases lang.len() - i,
    {
        proof {
            lemma_join_sp_push(items, i as int);
        }
        if i > 0 {
            enc.sp();
        }
        enc.string(lang[i].as_str());
        i += 1;
        assert(enc@ =~= start + join_sp(items.take(i as int)));
    }
    enc.special(41u8);
    assert(items.take(lang@.len() as int) =~= items);
    assert(enc@ =~= old(enc)@ + fld_lang_bytes(lang@));
}

fn write_single_ext(enc: &mut Encoder, ext: &Option<SinglePartExt>)
    ensures
        final(enc)@ == old(enc)@ + single_ext_bytes(*ext),
{
    match ext {
        Some(x) => {
            enc.sp();
            write_opt_dsp(enc, &x.disposition);
            enc.sp();
            write_fld_lang(enc, &x.language);
            enc.sp();
            enc.nstring(x.location.as_str());
            assert(enc@ =~= old(enc)@ + single_ext_bytes(*ext));
        },
        None => {
            assert(enc@ =~= old(enc)@ + single_ext_bytes(*ext));
        },
    }
}

fn write_multi_ext(enc: &mut Encoder, ext: &Option<MultiPartExt>)
    ensures
        final(enc)@ == old(enc)@ + multi_ext_bytes(*ext),
{
    match ext {
        Some(x) => {
            enc.sp();
            write_fld_param(enc, &x.params);
            enc.sp();
            write_opt_dsp(enc, &x.disposition);
            enc.sp();
            write_fld_lang(enc, &x.language);
            enc.sp();
            enc.nstring(x.location.as_str());
            assert(enc@ =~= old(enc)@ + multi_ext_bytes(*ext));
        },
        None => {
            assert(enc@ =~= old(enc)@ + multi_ext_bytes(*ext));
        },
    }
}

fn write_single_head(
    enc: &mut Encoder,
    typ: &String,
    subtype: &String,
    params: &Vec<(String, String)>,
    id: &String,
    description: &String,
    encoding: &String,
    size: u32,
)
    ensures
        final(enc)@ == old(enc)@ + single_head_bytes(
            *typ,
            *subtype,
            params@,
            *id,
            *description,
            *encoding,
            size,
        ),
{
    enc.string(typ.as_str());
    enc.sp();
    enc.string(subtype.as_str());
    enc.sp();
    write_fld_param(enc, params);
    enc.sp();
    enc.nstring(id.as_str());
    enc.sp();
    enc.nstring(description.as_str());
    enc.sp();
    enc.string(encoding.as_str());
    enc.sp();
    enc.number(size);
    assert(enc@ =~= old(enc)@ + single_head_bytes(
        *typ,
        *subtype,
        params@,
        *id,
        *description,
        *encoding,
        size,
    ));
}

/// Writes the fields of a single part that depend on its media type.
#[verifier::rlimit(80)]
fn write_single_extra(enc: &mut Encoder, bs: &BodyStructure)
    requires
        bs is SinglePart,
    ensures
        final(enc)@ == old(enc)@ + single_extra_bytes(
            bs->SinglePart_typ,
            bs->SinglePart_subtype,
            bs->message_rfc822,
            bs->text,
            match bs->message_rfc822 {
                Some(m) => match m.body_structure {
                    Some(b) => body_bytes(*b),
                    None => nil_bytes(),
                },
                None => Seq::empty(),
            },
        ),
    decreases bs, 0nat,
{
    match bs {
        BodyStructure::SinglePart { typ, subtype, message_rfc822, text, .. } => {
            let tb = typ.as_str().as_bytes();
            let sb = subtype.as_str().as_bytes();
            let is_msg = bytes_eq_ignore_case(tb, &[109u8, 101, 115, 115, 97, 103, 101])
                && bytes_eq_ignore_case(sb, &[114u8, 102, 99, 56, 50, 50]);
            if is_msg {
                match message_rfc822 {
                    Some(msg) => {
                        enc.sp();
                        match &msg.envelope {
                            Some(env) => write_envelope(enc, env),
                            None => enc.nil(),
                        }
                        enc.sp();
                        match &msg.body_structure {
                            Some(body) => write_body_structure(enc, body),
                            None => enc.nil(),
                        }
                        enc.sp();
                        enc.number64(msg.num_lines);
                        assert(enc@ =~= old(enc)@ + single_extra_bytes(
                            bs->SinglePart_typ,
                            bs->SinglePart_subtype,
                            bs->message_rfc822,
                            bs->text,
                            match bs->message_rfc822 {
                                Some(m) => match m.body_structure {
                                    Some(b) => body_bytes(*b),
                                    None => nil_bytes(),
                                },
                                None => Seq::empty(),
                            },
                        ));
                    },
                    None => {},
                }
            } else if bytes_eq_ignore_case(tb, &[116u8, 101, 120, 116]) {
                match text {
                    Some(t) => {
                        enc.sp();
                        enc.number64(t.num_lines);
                        assert(enc@ =~= old(enc)@ + seq![32u8] + dec_signed(t.num_lines as int));
                    },
                    None => {},
                }
            }
        },
        BodyStructure::MultiPart { .. } => {},
    }
}

/// Writes a single-part BODYSTRUCTURE.
#[verifier::rlimit(40)]
fn write_single_part(enc: &mut Encoder, bs: &BodyStructure)
    requires
        bs is SinglePart,
    ensures
        final(enc)@ == old(enc)@ + body_bytes(*bs),
    decreases bs, 1nat,
{
    match bs {
        BodyStructure::SinglePart {
            typ,
            subtype,
            params,
            id,
            description,
            encoding,
            size,
            extended,
            ..
        } => {
            enc.special(40u8);
            write_single_head(enc, typ, subtype, params, id, description, encoding, *size);
            write_single_extra(enc, bs);
            write_single_ext(enc, extended);
            enc.special(41u8);
            assert(enc@ =~= old(enc)@ + body_bytes(*bs));
        },
        BodyStructure::MultiPart { .. } => {},
    }
}

/// Writes a BODYSTRUCTURE.
pub fn write_body_structure(enc: &mut Encoder, bs: &BodyStructure)
    ensures
        final(enc)@ == old(enc)@ + body_bytes(*bs),
    decreases bs, 2nat,
{
    match bs {
        BodyStructure::SinglePart { .. } => write_single_part(enc, bs),
        BodyStructure::MultiPart { children, subtype, extended } => {
            enc.special(40u8);
            let ghost start = enc@;
            let mut i: usize = 0;
            while i < children.len()
                invariant
                    i <= children.len(),
                    bs is MultiPart,
                    *children == bs->children,
                    enc@ == start + children_bytes(children@, i as nat),
                decreases children.len() - i,
            {
                proof {
                    assert(decreases_to!(*bs => bs->children));
                    assert(decreases_to!(bs->children => bs->children@));
                    assert(decreases_to!(bs->children@ => bs->children@[i as int]));
                }
                write_body_structure(enc, &children[i]);
                i += 1;
                assert(enc@ =~= start + children_bytes(children@, i as nat));
            }
            if children.len() > 0 {
                enc.sp();
            }
            enc.string(subtype.as_str());
            write_multi_ext(enc, extended);
            enc.special(41u8);
            assert(enc@ =~= old(enc)@ + body_bytes(*bs));
        },
    }
}


// ── FETCH items ─────────────────────────────────────────────────────

/// The UTF-8 bytes of a text.
pub open spec fn lit(s: Seq<char>) -> Seq<u8> {
    encode_utf8(s)
}

/// Part numbers joined by `.`.
pub open spec fn part_path_bytes(part: Seq<u32>) -> Seq<u8>
    decreases part.len(),
{
    if part.len() == 0 {
        Seq::empty()
    } else if part.len() == 1 {
        dec_digits(part[0] as nat)
    } else {
        part_path_bytes(part.drop_last()) + seq![46u8] + dec_digits(part.last() as nat)
    }
}

fn write_part_path(enc: &mut Encoder, part: &[u32])
    ensures
        final(enc)@ == old(enc)@ + part_path_bytes(part@),
{
    let mut i: usize = 0;
    while i < part.len()
        invariant
            i <= part.len(),
            enc@ == old(enc)@ + part_path_bytes(part@.take(i as int)),
        decreases part.len() - i,
    {
        assert(part@.take(i + 1).drop_last() =~= part@.take(i as int));
        if i > 0 {
            enc.special(46u8);
        }
        enc.number(part[i]);
        i += 1;
        assert(enc@ =~= old(enc)@ + part_path_bytes(part@.take(i as int)));
    }
    assert(part@.take(part@.len() as int) =~= part@);
}

/// A literal header `{N}` CRLF, then the data.
pub open spec fn data_literal_bytes(data: Seq<u8>) -> Seq<u8> {
    seq![123u8] + dec_digits(data.len()) + seq![125u8, 13, 10] + data
}

/// The section part of a `BODY[...]` item: the part path, `.` between it
/// and a specifier, the specifier.
pub open spec fn section_bytes(section: BodySection) -> Seq<u8> {
    let spec = lit(specifier_wire(specifier_view(section.specifier)));
    part_path_bytes(section.part@) + (if spec.len() > 0 && section.part@.len() > 0 {
        seq![46u8]
    } else {
        Seq::<u8>::empty()
    }) + spec
}

/// A `BODY[section]<partial> {N}` item with its data.
pub open spec fn body_section_bytes(section: BodySection, data: Seq<u8>) -> Seq<u8> {
    (if section.peek {
        lit("BODY.PEEK"@)
    } else {
        lit("BODY"@)
    }) + seq![91u8] + section_bytes(section) + seq![93u8] + match section.partial {
        Some((off, size)) => seq![60u8] + dec_signed((off as i64) as int) + seq![46u8]
            + dec_signed((size as i64) as int) + seq![62u8],
        None => Seq::empty(),
    } + seq![32u8] + data_literal_bytes(data)
}

/// SP before every FETCH item but the first.
pub open spec fn sep_bytes(has_item: bool) -> Seq<u8> {
    if has_item {
        seq![32u8]
    } else {
        Seq::empty()
    }
}

/// Writes the items of one FETCH response, SP between them.
pub struct FetchResponseWriter {
    pub has_item: bool,
}

impl FetchResponseWriter {
    /// A writer that has written no item.
    pub fn new() -> (r: Self)
        ensures
            !r.has_item,
    {
        FetchResponseWriter { has_item: false }
    }

    fn sep(&mut self, enc: &mut Encoder)
        ensures
            final(enc)@ == old(enc)@ + sep_bytes(old(self).has_item),
            final(self).has_item,
    {
        if self.has_item {
            enc.sp();
        }
        self.has_item = true;
        assert(enc@ =~= old(enc)@ + sep_bytes(old(self).has_item));
    }

    /// Writes `UID n`.
    pub fn uid(&mut self, enc: &mut Encoder, uid: u32)
        ensures
            final(enc)@ == old(enc)@ + sep_bytes(old(self).has_item) + lit("UID"@) + seq![32u8]
                + dec_digits(uid as nat),
            final(self).has_item,
    {
        self.sep(enc);
        enc.atom("UID");
        enc.sp();
        enc.number(uid);
        assert(enc@ =~= old(enc)@ + sep_bytes(old(self).has_item) + lit("UID"@) + seq![32u8]
            + dec_digits(uid as nat));
    }

    /// Writes `FLAGS (...)`.
    pub fn flags(&mut self, enc: &mut Encoder, flags: &[Flag])
        ensures
            final(enc)@ == old(enc)@ + sep_bytes(old(self).has_item) + lit("FLAGS"@) + seq![32u8]
                + flags_bytes(flags@),
            final(self).has_item,
    {
        self.sep(enc);
        enc.atom("FLAGS");
        enc.sp();
        write_flag_list_enc(enc, flags);
        assert(enc@ =~= old(enc)@ + sep_bytes(old(self).has_item) + lit("FLAGS"@) + seq![32u8]
            + flags_bytes(flags@));
    }

    /// Writes `INTERNALDATE "date"`.
    pub fn internal_date(&mut self, enc: &mut Encoder, date: &str)
        ensures
            final(enc)@ == old(enc)@ + sep_bytes(old(self).has_item) + lit("INTERNALDATE"@)
                + seq![32u8] + quoted_bytes(date.spec_bytes()),
            final(self).has_item,
    {
        self.sep(enc);
        enc.atom("INTERNALDATE");
        enc.sp();
        enc.quoted(date);
        assert(enc@ =~= old(enc)@ + sep_bytes(old(self).has_item) + lit("INTERNALDATE"@)
            + seq![32u8] + quoted_bytes(date.spec_bytes()));
    }

    /// Writes `RFC822.SIZE n`.
    pub fn rfc822_size(&mut self, enc: &mut Encoder, size: u32)
        ensures
            final(enc)@ == old(enc)@ + sep_bytes(old(self).has_item) + lit("RFC822.SIZE"@)
                + seq![32u8] + dec_digits(size as nat),
            final(self).has_item,
    {
        self.sep(enc);
        enc.atom("RFC822.SIZE");
        enc.sp();
        enc.number(size);
        assert(enc@ =~= old(enc)@ + sep_bytes(old(self).has_item) + lit("RFC822.SIZE"@)
            + seq![32u8] + dec_digits(size as nat));
    }

    /// Writes `ENVELOPE (...)`.
    pub fn envelope(&mut self, enc: &mut Encoder, env: &Envelope)
        ensures
            final(enc)@ == old(enc)@ + sep_bytes(old(self).has_item) + lit("ENVELOPE"@)
                + seq![32u8] + envelope_bytes(*env),
            final(self).has_item,
    {
        self.sep(enc);
        enc.atom("ENVELOPE");
        enc.sp();
        write_envelope(enc, env);
        assert(enc@ =~= old(enc)@ + sep_bytes(old(self).has_item) + lit("ENVELOPE"@)
            + seq![32u8] + envelope_bytes(*env));
    }

    /// Writes `BODYSTRUCTURE (...)` when `extended`, else `BODY (...)`.
    pub fn body_structure(&mut self, enc: &mut Encoder, bs: &BodyStructure, extended: bool)
        ensures
            final(enc)@ == old(enc)@ + sep_bytes(old(self).has_item) + (if extended {
                lit("BODYSTRUCTURE"@)
            } else {
                lit("BODY"@)
            }) + seq![32u8] + body_bytes(*bs),
            final(self).has_item,
    {
        self.sep(enc);
        if extended {
            enc.atom("BODYSTRUCTURE");
        } else {
            enc.atom("BODY");
        }
        enc.sp();
        write_body_structure(enc, bs);
        assert(enc@ =~= old(enc)@ + sep_bytes(old(self).has_item) + (if extended {
            lit("BODYSTRUCTURE"@)
        } else {
            lit("BODY"@)
        }) + seq![32u8] + body_bytes(*bs));
    }

    /// Writes `MODSEQ (n)`; the value is written as a signed 64-bit number.
    pub fn modseq(&mut self, enc: &mut Encoder, modseq: u64)
        ensures
            final(enc)@ == old(enc)@ + sep_bytes(old(self).has_item) + lit("MODSEQ"@) + seq![
                32u8,
                40,
            ] + dec_signed((modseq as i64) as int) + seq![41u8],
            final(self).has_item,
    {
        self.sep(enc);
        enc.atom("MODSEQ");
        enc.sp();
        enc.special(40u8);
        enc.number64(modseq as i64);
        enc.special(41u8);
        assert(enc@ =~= old(enc)@ + sep_bytes(old(self).has_item) + lit("MODSEQ"@) + seq![
            32u8,
            40,
        ] + dec_signed((modseq as i64) as int) + seq![41u8]);
    }

    pub(crate) fn data_literal(enc: &mut Encoder, data: &[u8])
        ensures
            final(enc)@ == old(enc)@ + data_literal_bytes(data@),
    {
        enc.literal(data);
    }

    /// Writes `BODY[] {N}` and the data.
    pub fn body(&mut self, enc: &mut Encoder, data: &[u8])
        ensures
            final(enc)@ == old(enc)@ + sep_bytes(old(self).has_item) + lit("BODY[]"@) + seq![32u8]
                + data_literal_bytes(data@),
            final(self).has_item,
    {
        self.sep(enc);
        enc.atom("BODY[]");
        enc.sp();
        Self::data_literal(enc, data);
        assert(enc@ =~= old(enc)@ + sep_bytes(old(self).has_item) + lit("BODY[]"@) + seq![32u8]
            + data_literal_bytes(data@));
    }

    pub(crate) fn section(enc: &mut Encoder, section: &BodySection)
        ensures
            final(enc)@ == old(enc)@ + section_bytes(*section),
    {
        write_part_path(enc, &section.part);
        let spec = section.specifier.to_wire();
        let sb = spec.as_str().as_bytes();
        if sb.len() > 0 {
            if section.part.len() > 0 {
                enc.special(46u8);
            }
            enc.atom(spec.as_str());
        }
        assert(enc@ =~= old(enc)@ + section_bytes(*section));
    }

    /// Writes a body section item, `BODY[...]` or `BODY.PEEK[...]` with its
    /// partial range, and the data.
    pub fn body_section(&mut self, enc: &mut Encoder, section: &BodySection, data: &[u8])
        ensures
            final(enc)@ == old(enc)@ + sep_bytes(old(self).has_item) + body_section_bytes(
                *section,
                data@,
            ),
            final(self).has_item,
    {
        self.sep(enc);
        let ghost start = enc@;
        if section.peek {
            enc.atom("BODY.PEEK");
        } else {
            enc.atom("BODY");
        }
        enc.special(91u8);
        Self::section(enc, section);
        enc.special(93u8);
        match section.partial {
            Some((offset, size)) => {
                enc.special(60u8);
                enc.number64(offset as i64);
                enc.special(46u8);
                enc.number64(size as i64);
                enc.special(62u8);
            },
            None => {},
        }
        enc.sp();
        Self::data_literal(enc, data);
        assert(enc@ =~= start + body_section_bytes(*section, data@));
    }

    /// Writes `BINARY[part] ~{N}` and the (already encoded) data.
    pub fn binary_section(&mut self, enc: &mut Encoder, part: &[u32], data: &[u8])
        ensures
            final(enc)@ == old(enc)@ + sep_bytes(old(self).has_item) + lit("BINARY"@) + seq![91u8]
                + part_path_bytes(part@) + seq![93u8, 32, 126] + data_literal_bytes(data@),
            final(self).has_item,
    {
        self.sep(enc);
        enc.atom("BINARY");
        enc.special(91u8);
        write_part_path(enc, part);
        enc.special(93u8);
        enc.sp();
        enc.special(126u8);
        Self::data_literal(enc, data);
        assert(enc@ =~= old(enc)@ + sep_bytes(old(self).has_item) + lit("BINARY"@) + seq![91u8]
            + part_path_bytes(part@) + seq![93u8, 32, 126] + data_literal_bytes(data@));
    }

    /// Writes `BINARY.SIZE[part] n`.
    pub fn binary_section_size(&mut self, enc: &mut Encoder, part: &[u32], size: u32)
        ensures
            final(enc)@ == old(enc)@ + sep_bytes(old(self).has_item) + lit("BINARY.SIZE"@)
                + seq![91u8] + part_path_bytes(part@) + seq![93u8, 32] + dec_digits(size as nat),
            final(self).has_item,
    {
        self.sep(enc);
        enc.atom("BINARY.SIZE");
        enc.special(91u8);
        write_part_path(enc, part);
        enc.special(93u8);
        enc.sp();
        enc.number(size);
        assert(enc@ =~= old(enc)@ + sep_bytes(old(self).has_item) + lit("BINARY.SIZE"@)
            + seq![91u8] + part_path_bytes(part@) + seq![93u8, 32] + dec_digits(size as nat));
    }

    /// Ends the FETCH response: `)` and CRLF.
    pub fn close(&mut self, enc: &mut Encoder)
        ensures
            final(enc)@ == old(enc)@ + seq![41u8, 13, 10],
    {
        enc.special(41u8);
        enc.crlf();
        assert(enc@ =~= old(enc)@ + seq![41u8, 13, 10]);
    }
}

// ── LIST, EXPUNGE and updates ───────────────────────────────────────

/// The bytes `INBOX`.
pub open spec fn inbox_word() -> Seq<u8> {
    seq![73u8, 78, 66, 79, 88]
}

/// A mailbox name: `INBOX` (any case) as `INBOX`, else a string.
pub open spec fn mailbox_name_bytes(name: Seq<u8>) -> Seq<u8> {
    if eq_ignore_case(name, inbox_word()) {
        inbox_word()
    } else {
        string_bytes(name)
    }
}

/// A LIST or LSUB line for one mailbox.
pub open spec fn list_line_bytes(lsub: bool, data: ListData) -> Seq<u8> {
    seq![42u8, 32] + (if lsub {
        lit("LSUB"@)
    } else {
        lit("LIST"@)
    }) + seq![32u8] + paren(join_sp(data.attrs@.map_values(|a: MailboxAttr| utf8(a.0))))
        + seq![32u8] + (if data.delimiter@.len() == 0 {
        nil_bytes()
    } else {
        quoted_bytes(utf8(data.delimiter))
    }) + seq![32u8] + mailbox_name_bytes(utf8(data.name)) + seq![13u8, 10]
}

/// Writes `INBOX` for the inbox (any case), else the name as a string.
fn write_mailbox_name(enc: &mut Encoder, name: &str)
    ensures
        final(enc)@ == old(enc)@ + mailbox_name_bytes(name.spec_bytes()),
{
    if bytes_eq_ignore_case(name.as_bytes(), &[73u8, 78, 66, 79, 88]) {
        enc.write_raw(&[73u8, 78, 66, 79, 88]);
    } else {
        enc.string(name);
    }
}

/// Writes LIST (or LSUB) lines.
pub struct ListWriter {
    pub lsub: bool,
}

impl ListWriter {
    pub fn new(lsub: bool) -> (r: Self)
        ensures
            r.lsub == lsub,
    {
        ListWriter { lsub }
    }

    /// Writes the line for one mailbox.
    pub fn write_list(&self, enc: &mut Encoder, data: &ListData)
        ensures
            final(enc)@ == old(enc)@ + list_line_bytes(self.lsub, *data),
    {
        enc.special(42u8);
        enc.sp();
        if self.lsub {
            enc.atom("LSUB");
        } else {
            enc.atom("LIST");
        }
        enc.sp();
        let ghost items = data.attrs@.map_values(|a: MailboxAttr| utf8(a.0));
        enc.special(40u8);
        let ghost start = enc@;
        let mut i: usize = 0;
        while i < data.attrs.len()
            invariant
                i <= data.attrs.len(),
                items == data.attrs@.map_values(|a: MailboxAttr| utf8(a.0)),
                enc@ == start + join_sp(items.take(i as int)),
            decreases data.attrs.len() - i,
        {
            proof {
                lemma_join_sp_push(items, i as int);
            }
            if i > 0 {
                enc.sp();
            }
            enc.atom(data.attrs[i].0.as_str());
            i += 1;
            assert(enc@ =~= start + join_sp(items.take(i as int)));
        }
        assert(items.take(data.attrs@.len() as int) =~= items);
        enc.special(41u8);
        enc.sp();
        if data.delimiter.as_str().as_bytes().len() == 0 {
            enc.nil();
        } else {
            enc.quoted(data.delimiter.as_str());
        }
        enc.sp();
        write_mailbox_name(enc, data.name.as_str());
        enc.crlf();
        assert(enc@ =~= old(enc)@ + list_line_bytes(self.lsub, *data));
    }
}

/// Writes MOVE and COPY responses; COPYUID goes in the tagged OK.
pub struct MoveWriter {}

impl MoveWriter {
    pub fn new() -> (r: Self) {
        MoveWriter {  }
    }

    /// Writes nothing: COPYUID is part of the tagged OK that the command
    /// handler writes.
    pub fn write_copy_uid(&self, enc: &mut Encoder, uid_validity: u32, source_uids: &[u32], dest_uids: &[u32])
        ensures
            final(enc)@ == old(enc)@,
    {
    }
}

/// `* n EXPUNGE` CRLF.
pub open spec fn expunge_line(seq: u32) -> Seq<u8> {
    seq![42u8, 32] + dec_digits(seq as nat) + seq![32u8] + lit("EXPUNGE"@) + seq![13u8, 10]
}

/// `* n EXISTS` CRLF.
pub open spec fn exists_line(n: u32) -> Seq<u8> {
    seq![42u8, 32] + dec_digits(n as nat) + seq![32u8] + lit("EXISTS"@) + seq![13u8, 10]
}

/// `* FLAGS (...)` CRLF.
pub open spec fn flags_line(flags: Seq<Flag>) -> Seq<u8> {
    seq![42u8, 32] + lit("FLAGS"@) + seq![32u8] + flags_bytes(flags) + seq![13u8, 10]
}

/// `* seq FETCH (FLAGS (...))` CRLF.
pub open spec fn message_flags_line(seq: u32, flags: Seq<Flag>) -> Seq<u8> {
    seq![42u8, 32] + dec_digits(seq as nat) + seq![32u8] + lit("FETCH"@) + seq![32u8, 40]
        + lit("FLAGS"@) + seq![32u8] + flags_bytes(flags) + seq![41u8, 13, 10]
}

/// The line for a mailbox update.
pub open spec fn update_line(u: TrackerUpdate) -> Seq<u8> {
    match u {
        TrackerUpdate::Expunge(seq) => expunge_line(seq),
        TrackerUpdate::NumMessages(n) => exists_line(n),
        TrackerUpdate::MailboxFlags(flags) => flags_line(flags@),
        TrackerUpdate::MessageFlags { seq, flags, .. } => message_flags_line(seq, flags@),
    }
}

fn write_expunge_line(enc: &mut Encoder, seq: u32)
    ensures
        final(enc)@ == old(enc)@ + expunge_line(seq),
{
    enc.special(42u8);
    enc.sp();
    enc.number(seq);
    enc.sp();
    enc.atom("EXPUNGE");
    enc.crlf();
    assert(enc@ =~= old(enc)@ + expunge_line(seq));
}

/// Writes unsolicited EXPUNGE responses.
pub struct ExpungeWriter {}

impl ExpungeWriter {
    pub fn new() -> (r: Self) {
        ExpungeWriter {  }
    }

    /// Writes `* seq EXPUNGE`.
    pub fn write_expunge(&self, enc: &mut Encoder, seq: u32)
        ensures
            final(enc)@ == old(enc)@ + expunge_line(seq),
    {
        write_expunge_line(enc, seq);
    }
}

/// Writes unsolicited updates: EXPUNGE, EXISTS, FLAGS and FETCH FLAGS.
pub struct UpdateWriter {}

impl UpdateWriter {
    pub fn new() -> (r: Self) {
        UpdateWriter {  }
    }

    /// Writes the line for one update.
    pub fn write_update(&self, enc: &mut Encoder, update: &TrackerUpdate)
        ensures
            final(enc)@ == old(enc)@ + update_line(*update),
    {
        match update {
            TrackerUpdate::Expunge(seq) => self.write_expunge(enc, *seq),
            TrackerUpdate::NumMessages(n) => self.write_num_messages(enc, *n),
            TrackerUpdate::MailboxFlags(flags) => self.write_mailbox_flags(enc, flags),
            TrackerUpdate::MessageFlags { seq, uid: _, flags } => self.write_message_flags(
                enc,
                *seq,
                flags,
            ),
        }
    }

    /// Writes `* seq EXPUNGE`.
    pub fn write_expunge(&self, enc: &mut Encoder, seq: u32)
        ensures
            final(enc)@ == old(enc)@ + expunge_line(seq),
    {
        write_expunge_line(enc, seq);
    }

    /// Writes `* n EXISTS`.
    pub fn write_num_messages(&self, enc: &mut Encoder, n: u32)
        ensures
            final(enc)@ == old(enc)@ + exists_line(n),
    {
        enc.special(42u8);
        enc.sp();
        enc.number(n);
        enc.sp();
        enc.atom("EXISTS");
        enc.crlf();
        assert(enc@ =~= old(enc)@ + exists_line(n));
    }

    /// Writes `* FLAGS (...)`.
    pub fn write_mailbox_flags(&self, enc: &mut Encoder, flags: &[Flag])
        ensures
            final(enc)@ == old(enc)@ + flags_line(flags@),
    {
        enc.special(42u8);
        enc.sp();
        enc.atom("FLAGS");
        enc.sp();
        write_flag_list_enc(enc, flags);
        enc.crlf();
        assert(enc@ =~= old(enc)@ + flags_line(flags@));
    }

    /// Writes `* seq FETCH (FLAGS (...))`.
    pub fn write_message_flags(&self, enc: &mut Encoder, seq: u32, flags: &[Flag])
        ensures
            final(enc)@ == old(enc)@ + message_flags_line(seq, flags@),
    {
        enc.special(42u8);
        enc.sp();
        enc.number(seq);
        enc.sp();
        enc.atom("FETCH");
        enc.sp();
        enc.special(40u8);
        enc.atom("FLAGS");
        enc.sp();
        write_flag_list_enc(enc, flags);
        enc.special(41u8);
        enc.crlf();
        assert(enc@ =~= old(enc)@ + message_flags_line(seq, flags@));
    }
}

} // verus!
