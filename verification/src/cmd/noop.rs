//! NOOP, CHECK, ENABLE and NAMESPACE.
use vstd::prelude::*;
use vstd::string::StringSliceAdditionalSpecFns;
use vstd::utf8::encode_utf8;
use crate::codec::{crlf_result, quoted_bytes, status_bytes, ByteClass};
use crate::conn::Conn;
use crate::error::{ImapError, ImapResult, is_bad};
use crate::select::NamespaceDescriptor;
use crate::select::NamespaceData;
use crate::text::{upper_vec, string_from_latin1};
use crate::types::{Cap, ConnState};
use crate::writer::{join_sp, lit, nil_bytes, paren, utf8, lemma_join_sp_push};

verus! {

/// The connection is unchanged but for its decoder.
pub open spec fn only_decoder_moved(c0: Conn, c1: Conn) -> bool {
    &&& c1.state == c0.state
    &&& c1.enabled == c0.enabled
    &&& c1.encoder == c0.encoder
    &&& c1.insecure_auth == c0.insecure_auth
    &&& c1.tls_available == c0.tls_available
}

/// Reads the end of a NOOP command.
pub fn noop_args(conn: &mut Conn) -> (r: ImapResult<()>)
    requires
        old(conn).wf(),
    ensures
        final(conn).wf(),
        only_decoder_moved(*old(conn), *final(conn)),
        crlf_result(&old(conn).decoder, &final(conn).decoder, r),
{
    conn.decoder.expect_crlf()
}

/// Ends a NOOP: `tag OK NOOP completed`.
pub fn noop_done(conn: &mut Conn, tag: &str)
    ensures
        final(conn).encoder@ == old(conn).encoder@ + status_bytes(
            tag.spec_bytes(),
            encode_utf8("OK"@),
            None,
            encode_utf8("NOOP completed"@),
        ),
        final(conn).state == old(conn).state,
        final(conn).decoder == old(conn).decoder,
        final(conn).enabled == old(conn).enabled,
{
    conn.write_ok(tag, "NOOP completed");
}

/// Reads a CHECK command: the Selected state is required.
pub fn check_args(conn: &mut Conn) -> (r: ImapResult<()>)
    requires
        old(conn).wf(),
    ensures
        final(conn).wf(),
        only_decoder_moved(*old(conn), *final(conn)),
        old(conn).state == ConnState::Selected ==> crlf_result(
            &old(conn).decoder,
            &final(conn).decoder,
            r,
        ),
        old(conn).state != ConnState::Selected ==> r is Err && final(conn).decoder == old(
            conn,
        ).decoder,
{
    conn.require_selected()?;
    conn.decoder.expect_crlf()
}

/// Ends a CHECK: `tag OK CHECK completed`.
pub fn check_done(conn: &mut Conn, tag: &str)
    ensures
        final(conn).encoder@ == old(conn).encoder@ + status_bytes(
            tag.spec_bytes(),
            encode_utf8("OK"@),
            None,
            encode_utf8("CHECK completed"@),
        ),
        final(conn).state == old(conn).state,
        final(conn).decoder == old(conn).decoder,
        final(conn).enabled == old(conn).enabled,
{
    conn.write_ok(tag, "CHECK completed");
}

/// `* ENABLED` and each capability after SP, CRLF.
pub open spec fn enabled_line(caps: Seq<Seq<u8>>) -> Seq<u8> {
    seq![42u8, 32] + lit("ENABLED"@) + crate::codec::caps_bytes(caps) + seq![13u8, 10]
}

/// Handles ENABLE: `ENABLE cap [cap ...]`. Each named capability that the
/// server advertises (compared in upper case) is enabled; `* ENABLED` lists
/// them when there are any; then `tag OK ENABLE completed`.
pub fn handle_enable(conn: &mut Conn, tag: &str) -> (r: ImapResult<()>)
    requires
        old(conn).wf(),
    ensures
        final(conn).wf(),
        final(conn).state == old(conn).state,
        !(old(conn).state == ConnState::Authenticated || old(conn).state == ConnState::Selected)
            ==> r is Err && is_bad(r->Err_0, None, "Not authenticated"@) && *final(conn) == *old(conn),
        r is Ok ==> exists|names: Seq<Seq<char>>|
            {
                &&& forall|i: int| 0 <= i < names.len() ==> old(conn).caps().contains(#[trigger] names[i])
                &&& #[trigger] final(conn).enabled@.to_set() == old(conn).enabled@.to_set().union(names.to_set())
                &&& final(conn).encoder@ == old(conn).encoder@ + (if names.len() > 0 {
                    enabled_line(names.map_values(|c: Seq<char>| encode_utf8(c)))
                } else {
                    Seq::<u8>::empty()
                }) + status_bytes(
                    tag.spec_bytes(),
                    encode_utf8("OK"@),
                    None,
                    encode_utf8("ENABLE completed"@),
                )
            },
        r is Err ==> final(conn).enabled == old(conn).enabled && final(conn).encoder == old(conn).encoder,
{
    match conn.state {
        ConnState::Authenticated | ConnState::Selected => {},
        _ => {
            return Err(ImapError::bad("Not authenticated"));
        },
    }
    let server_caps = conn.available_caps();
    let mut enabled: Vec<String> = Vec::new();
    loop
        invariant
            conn.wf(),
            only_decoder_moved(*old(conn), *conn),
            conn.state == ConnState::Authenticated || conn.state == ConnState::Selected,
            server_caps@.to_set() == old(conn).caps(),
            forall|i: int| 0 <= i < enabled@.len() ==> old(conn).caps().contains(#[trigger] enabled@[i]@),
        ensures
            conn.wf(),
            only_decoder_moved(*old(conn), *conn),
            forall|i: int| 0 <= i < enabled@.len() ==> old(conn).caps().contains(#[trigger] enabled@[i]@),
        decreases conn.decoder.stream().len(),
    {
        let ghost d0 = conn.decoder;
        conn.decoder.expect_sp()?;
        let ghost d1 = conn.decoder;
        let raw = conn.decoder.read_class(ByteClass::Atom)?;
        if raw.len() == 0 {
            return Err(ImapError::bad("expected atom"));
        }
        let ghost d2 = conn.decoder;
        let up = upper_vec(&raw);
        let cap = Cap(string_from_latin1(&up));
        if server_caps.contains(&cap) {
            enabled.push(cap.0);
        }
        let b = conn.decoder.read_byte()?;
        let ghost d3 = conn.decoder;
        conn.decoder.unread_byte(b);
        proof {
            let n = crate::codec::span(d1.stream(), ByteClass::Atom);
            if d0.stream().len() > 0 && d0.stream()[0] == 32 {
                d0.lemma_advanced_pub(&d1, 1, true);
            } else {
                d0.lemma_advanced_pub(&d1, 0, true);
            }
            d1.lemma_advanced_pub(&d2, n, true);
            d2.lemma_advanced_pub(&d3, 1, false);
            assert(conn.decoder.stream() =~= d2.stream());
        }
        if b == 13u8 || b == 10u8 {
            break;
        }
    }
    conn.decoder.expect_crlf()?;
    let ghost names = enabled@.map_values(|s: String| s@);
    let mut i: usize = 0;
    while i < enabled.len()
        invariant
            i <= enabled.len(),
            conn.enabled.wf(),
            names == enabled@.map_values(|s: String| s@),
            conn.enabled@.to_set() == old(conn).enabled@.to_set().union(names.take(i as int).to_set()),
            conn.encoder == old(conn).encoder,
            conn.state == old(conn).state,
            conn.decoder.wf(),
        decreases enabled.len() - i,
    {
        conn.enabled.insert(Cap(enabled[i].clone()));
        proof {
            names.take(i as int).lemma_push_to_set_commute(names[i as int]);
            assert(names.take(i + 1) =~= names.take(i as int).push(names[i as int]));
        }
        i += 1;
        assert(conn.enabled@.to_set() =~= old(conn).enabled@.to_set().union(names.take(i as int).to_set()));
    }
    assert(names.take(enabled@.len() as int) =~= names);
    let ghost before = conn.encoder@;
    if enabled.len() > 0 {
        conn.encoder.special(42u8);
        conn.encoder.sp();
        conn.encoder.atom("ENABLED");
        let ghost mid = conn.encoder@;
        let ghost dec0 = conn.decoder;
        let ghost en0 = conn.enabled;
        let mut j: usize = 0;
        while j < enabled.len()
            invariant
                j <= enabled.len(),
                conn.decoder == dec0,
                conn.enabled == en0,
                conn.state == old(conn).state,
                names == enabled@.map_values(|s: String| s@),
                conn.encoder@ == mid + crate::codec::caps_bytes(names.map_values(|c: Seq<char>| encode_utf8(c)).take(j as int)),
            decreases enabled.len() - j,
        {
            conn.encoder.sp();
            conn.encoder.atom(enabled[j].as_str());
            j += 1;
            assert(names.map_values(|c: Seq<char>| encode_utf8(c)).take(j as int).drop_last()
                =~= names.map_values(|c: Seq<char>| encode_utf8(c)).take(j - 1));
        }
        assert(names.map_values(|c: Seq<char>| encode_utf8(c)).take(enabled@.len() as int)
            =~= names.map_values(|c: Seq<char>| encode_utf8(c)));
        conn.encoder.crlf();
        assert(conn.encoder@ =~= before + enabled_line(names.map_values(|c: Seq<char>| encode_utf8(c))));
    }
    conn.write_ok(tag, "ENABLE completed");
    proof {
        assert(forall|i: int| 0 <= i < names.len() ==> old(conn).caps().contains(#[trigger] names[i]));
    }
    Ok(())
}

/// Reads a NAMESPACE command: an authenticated state is required.
pub fn namespace_args(conn: &mut Conn) -> (r: ImapResult<()>)
    requires
        old(conn).wf(),
    ensures
        final(conn).wf(),
        only_decoder_moved(*old(conn), *final(conn)),
        (old(conn).state == ConnState::Authenticated || old(conn).state == ConnState::Selected)
            ==> crlf_result(&old(conn).decoder, &final(conn).decoder, r),
        !(old(conn).state == ConnState::Authenticated || old(conn).state == ConnState::Selected)
            ==> r is Err && is_bad(r->Err_0, None, "Not authenticated"@) && final(conn).decoder == old(conn).decoder,
{
    conn.require_auth()?;
    conn.decoder.expect_crlf()
}

/// A namespace list: `NIL`, or `(("prefix" "delim") ...)`.
pub open spec fn namespace_list_bytes(ns: Seq<NamespaceDescriptor>) -> Seq<u8> {
    if ns.len() == 0 {
        nil_bytes()
    } else {
        paren(join_sp(ns.map_values(|d: NamespaceDescriptor| paren(quoted_bytes(utf8(d.prefix)) + seq![32u8] + quoted_bytes(utf8(d.delimiter))))))
    }
}

/// Writes a namespace list.
pub fn write_namespace_list(conn: &mut Conn, namespaces: &[NamespaceDescriptor])
    ensures
        final(conn).encoder@ == old(conn).encoder@ + namespace_list_bytes(namespaces@),
        final(conn).state == old(conn).state,
        final(conn).decoder == old(conn).decoder,
        final(conn).enabled == old(conn).enabled,
{
    if namespaces.len() == 0 {
        conn.encoder.nil();
        return;
    }
    let ghost items = namespaces@.map_values(|d: NamespaceDescriptor| paren(quoted_bytes(utf8(d.prefix)) + seq![32u8] + quoted_bytes(utf8(d.delimiter))));
    conn.encoder.special(40u8);
    let ghost start = conn.encoder@;
    let mut i: usize = 0;
    while i < namespaces.len()
        invariant
            i <= namespaces.len(),
            items == namespaces@.map_values(|d: NamespaceDescriptor| paren(quoted_bytes(utf8(d.prefix)) + seq![32u8] + quoted_bytes(utf8(d.delimiter)))),
            conn.encoder@ == start + join_sp(items.take(i as int)),
            conn.state == old(conn).state,
            conn.decoder == old(conn).decoder,
            conn.enabled == old(conn).enabled,
        decreases namespaces.len() - i,
    {
        proof {
            lemma_join_sp_push(items, i as int);
        }
        if i > 0 {
            conn.encoder.sp();
        }
        conn.encoder.special(40u8);
        conn.encoder.quoted(namespaces[i].prefix.as_str());
        conn.encoder.sp();
        conn.encoder.quoted(namespaces[i].delimiter.as_str());
        conn.encoder.special(41u8);
        i += 1;
        assert(conn.encoder@ =~= start + join_sp(items.take(i as int)));
    }
    conn.encoder.special(41u8);
    assert(items.take(namespaces@.len() as int) =~= items);
    assert(conn.encoder@ =~= old(conn).encoder@ + namespace_list_bytes(namespaces@));
}

/// The NAMESPACE response: `* NAMESPACE personal other shared`.
pub open spec fn namespace_line(data: NamespaceData) -> Seq<u8> {
    seq![42u8, 32] + lit("NAMESPACE"@) + seq![32u8] + namespace_list_bytes(data.personal@) + seq![32u8]
        + namespace_list_bytes(data.other@) + seq![32u8] + namespace_list_bytes(data.shared@) + seq![13u8, 10]
}

/// Writes the NAMESPACE response and `tag OK NAMESPACE completed`.
pub fn namespace_done(conn: &mut Conn, tag: &str, data: &NamespaceData)
    ensures
        final(conn).encoder@ == old(conn).encoder@ + namespace_line(*data) + status_bytes(
            tag.spec_bytes(),
            encode_utf8("OK"@),
            None,
            encode_utf8("NAMESPACE completed"@),
        ),
        final(conn).state == old(conn).state,
        final(conn).decoder == old(conn).decoder,
        final(conn).enabled == old(conn).enabled,
{
    conn.encoder.special(42u8);
    conn.encoder.sp();
    conn.encoder.atom("NAMESPACE");
    conn.encoder.sp();
    write_namespace_list(conn, &data.personal);
    conn.encoder.sp();
    write_namespace_list(conn, &data.other);
    conn.encoder.sp();
    write_namespace_list(conn, &data.shared);
    conn.encoder.crlf();
    let ghost mid = conn.encoder@;
    assert(mid =~= old(conn).encoder@ + namespace_line(*data));
    conn.write_ok(tag, "NAMESPACE completed");
}

} // verus!
