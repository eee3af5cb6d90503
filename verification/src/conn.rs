//! One IMAP connection's protocol state: the decoder over what the client
//! sent, the encoder of what goes back, the connection state and the
//! enabled extensions. The transport and the mail store are driven from
//! outside; every decision on the protocol is made here.
use vstd::prelude::*;
use vstd::string::StringSliceAdditionalSpecFns;
use vstd::utf8::encode_utf8;
use crate::codec::{AsyncDecoder, Encoder, capability_status_bytes, status_bytes};
use crate::error::{ImapError, ImapResult, is_bad};
use crate::types::{Cap, CapSet, ConnState, caps_sorted};

verus! {

/// An IMAP connection's protocol state.
#[derive(Clone)]
pub struct Conn {
    pub decoder: AsyncDecoder,
    pub encoder: Encoder,
    pub state: ConnState,
    pub enabled: CapSet,
    pub insecure_auth: bool,
    /// The backend offers TLS (STARTTLS is advertised before login).
    pub tls_available: bool,
}

/// The capabilities every connection advertises.
pub open spec fn base_caps() -> Set<Seq<char>> {
    set![
        "IMAP4rev1"@,
        "LITERAL+"@,
        "IDLE"@,
        "MOVE"@,
        "NAMESPACE"@,
        "UIDPLUS"@,
        "ENABLE"@,
        "UNSELECT"@,
        "CHILDREN"@,
        "SASL-IR"@,
        "ID"@,
    ]
}

/// The capabilities advertised in a state: the base ones, STARTTLS before
/// login when TLS is offered, LOGINDISABLED before login when login is not
/// allowed, and the enabled extensions.
pub open spec fn caps_spec(
    state: ConnState,
    tls_available: bool,
    can_auth: bool,
    enabled: Set<Seq<char>>,
) -> Set<Seq<char>> {
    base_caps().union(
        if tls_available && state == ConnState::NotAuthenticated {
            set!["STARTTLS"@]
        } else {
            Set::empty()
        },
    ).union(
        if !can_auth && state == ConnState::NotAuthenticated {
            set!["LOGINDISABLED"@]
        } else {
            Set::empty()
        },
    ).union(enabled)
}

/// Law: every connection advertises IMAP4rev1, LITERAL+, IDLE, MOVE,
/// NAMESPACE and UIDPLUS; STARTTLS is advertised before login when TLS is
/// offered, and never when it is not (unless a client enabled it).
pub proof fn law_advertised_caps(
    state: ConnState,
    tls_available: bool,
    can_auth: bool,
    enabled: Set<Seq<char>>,
)
    ensures
        ({
            let caps = caps_spec(state, tls_available, can_auth, enabled);
            &&& caps.contains("IMAP4rev1"@)
            &&& caps.contains("LITERAL+"@)
            &&& caps.contains("IDLE"@)
            &&& caps.contains("MOVE"@)
            &&& caps.contains("NAMESPACE"@)
            &&& caps.contains("UIDPLUS"@)
            &&& (tls_available && state == ConnState::NotAuthenticated ==> caps.contains("STARTTLS"@))
            &&& (!tls_available && !enabled.contains("STARTTLS"@) ==> !caps.contains("STARTTLS"@))
        }),
{
    reveal_strlit("STARTTLS");
    reveal_strlit("LOGINDISABLED");
    reveal_strlit("IMAP4rev1");
    reveal_strlit("LITERAL+");
    reveal_strlit("IDLE");
    reveal_strlit("MOVE");
    reveal_strlit("NAMESPACE");
    reveal_strlit("UIDPLUS");
    reveal_strlit("ENABLE");
    reveal_strlit("UNSELECT");
    reveal_strlit("CHILDREN");
    reveal_strlit("SASL-IR");
    reveal_strlit("ID");
    assert("STARTTLS"@[0] != "LITERAL+"@[0]);
    assert("STARTTLS"@[0] != "UNSELECT"@[0]);
    assert("STARTTLS"@[0] != "CHILDREN"@[0]);
    assert("STARTTLS"@ != "LITERAL+"@);
    assert("STARTTLS"@ != "UNSELECT"@);
    assert("STARTTLS"@ != "CHILDREN"@);
    assert("STARTTLS"@.len() != "LOGINDISABLED"@.len());
    assert(!base_caps().contains("STARTTLS"@));
}

/// The UTF-8 bytes of each string.
pub open spec fn strings_utf8(cs: Seq<Seq<char>>) -> Seq<Seq<u8>> {
    cs.map_values(|c: Seq<char>| encode_utf8(c))
}

impl Conn {
    /// The decoder and the enabled set are well formed.
    pub open spec fn wf(&self) -> bool {
        self.decoder.wf() && self.enabled.wf()
    }

    /// The capabilities this connection advertises now.
    pub open spec fn caps(&self) -> Set<Seq<char>> {
        caps_spec(self.state, self.tls_available, self.insecure_auth, self.enabled@.to_set())
    }

    /// A connection before the greeting: not authenticated, nothing
    /// enabled, nothing read or written.
    pub fn new(insecure_auth: bool, tls_available: bool) -> (r: Self)
        ensures
            r.wf(),
            r.state == ConnState::NotAuthenticated,
            r.enabled@ == Seq::<Seq<char>>::empty(),
            r.encoder@ == Seq::<u8>::empty(),
            r.decoder.raw() == Seq::<u8>::empty(),
            r.decoder.pushed() is None,
            r.insecure_auth == insecure_auth,
            r.tls_available == tls_available,
    {
        Conn {
            decoder: AsyncDecoder::new(Vec::new()),
            encoder: Encoder::new(),
            state: ConnState::NotAuthenticated,
            enabled: CapSet::new(),
            insecure_auth,
            tls_available,
        }
    }

    /// Whether authentication is allowed on this connection (plain-text
    /// login must be allowed; TLS is not implemented).
    pub fn can_auth(&self) -> (r: bool)
        ensures
            r == self.insecure_auth,
    {
        self.insecure_auth
    }

    /// The capabilities advertised now, in order.
    pub fn available_caps(&self) -> (r: CapSet)
        requires
            self.enabled.wf(),
        ensures
            r.wf(),
            r@.to_set() == self.caps(),
    {
        let mut caps = CapSet::new();
        caps.insert(Cap::imap4rev1());
        caps.insert(Cap::literal_plus());
        caps.insert(Cap::idle());
        caps.insert(Cap::move_cap());
        caps.insert(Cap::namespace());
        caps.insert(Cap::uidplus());
        caps.insert(Cap::enable());
        caps.insert(Cap::unselect());
        caps.insert(Cap::children());
        caps.insert(Cap::sasl_ir());
        caps.insert(Cap::id());
        let ghost base = caps@.to_set();
        assert(base =~= base_caps());
        let not_auth = match self.state {
            ConnState::NotAuthenticated => true,
            _ => false,
        };
        if self.tls_available && not_auth {
            caps.insert(Cap::starttls());
        }
        let ghost with_tls = caps@.to_set();
        if !self.can_auth() && not_auth {
            caps.insert(Cap::login_disabled());
        }
        let ghost with_login = caps@.to_set();
        let list = self.enabled.to_vec();
        let mut i: usize = 0;
        while i < list.len()
            invariant
                i <= list.len(),
                caps.wf(),
                list@.len() == self.enabled@.len(),
                forall|j: int| 0 <= j < list@.len() ==> #[trigger] list@[j].0@ == self.enabled@[j],
                caps@.to_set() == with_login.union(self.enabled@.take(i as int).to_set()),
            decreases list.len() - i,
        {
            let c = Cap(list[i].0.clone());
            caps.insert(c);
            proof {
                assert(self.enabled@.take(i + 1) =~= self.enabled@.take(i as int).push(
                    self.enabled@[i as int],
                ));
                self.enabled@.take(i as int).lemma_push_to_set_commute(self.enabled@[i as int]);
            }
            i += 1;
            assert(caps@.to_set() =~= with_login.union(self.enabled@.take(i as int).to_set()));
        }
        assert(self.enabled@.take(list@.len() as int) =~= self.enabled@);
        assert(caps@.to_set() =~= self.caps());
        caps
    }

    /// The advertised capabilities as strings, in order.
    pub fn cap_strings_pub(&self) -> (r: Vec<String>)
        requires
            self.enabled.wf(),
        ensures
            caps_sorted(r@.map_values(|s: String| s@)),
            r@.map_values(|s: String| s@).to_set() == self.caps(),
    {
        let caps = self.available_caps();
        let list = caps.to_vec();
        let mut out: Vec<String> = Vec::new();
        let mut i: usize = 0;
        while i < list.len()
            invariant
                i <= list.len(),
                list@.len() == caps@.len(),
                forall|j: int| 0 <= j < list@.len() ==> #[trigger] list@[j].0@ == caps@[j],
                out@.len() == i,
                forall|j: int| 0 <= j < i ==> #[trigger] out@[j]@ == caps@[j],
            decreases list.len() - i,
        {
            out.push(list[i].0.clone());
            i += 1;
        }
        assert(out@.map_values(|s: String| s@) =~= caps@);
        out
    }

    /// Writes the greeting: `* OK [CAPABILITY ...] IMAP server ready`.
    pub fn write_greeting(&mut self)
        requires
            old(self).wf(),
        ensures
            final(self).wf(),
            final(self).state == old(self).state,
            final(self).decoder == old(self).decoder,
            final(self).enabled == old(self).enabled,
            exists|cs: Seq<Seq<char>>|
                caps_sorted(cs) && cs.to_set() == old(self).caps() && #[trigger] strings_utf8(cs)
                    == strings_utf8(cs) && final(self).encoder@ == old(self).encoder@
                    + capability_status_bytes(
                    encode_utf8(""@),
                    encode_utf8("OK"@),
                    strings_utf8(cs),
                    encode_utf8("IMAP server ready"@),
                ),
    {
        let caps = self.cap_strings_pub();
        self.encoder.write_capability_status("", "OK", &caps, "IMAP server ready");
        proof {
            let cs = caps@.map_values(|s: String| s@);
            assert(caps@.map_values(|c: String| encode_utf8(c@)) =~= strings_utf8(cs));
        }
    }


    /// Writes `* BYE text` and moves to the Logout state.
    pub fn write_bye(&mut self, text: &str)
        ensures
            final(self).state == ConnState::Logout,
            final(self).encoder@ == old(self).encoder@ + status_bytes(
                encode_utf8("*"@),
                encode_utf8("BYE"@),
                None,
                text.spec_bytes(),
            ),
            final(self).decoder == old(self).decoder,
            final(self).enabled == old(self).enabled,
    {
        self.encoder.write_status("*", "BYE", None, text);
        self.state = ConnState::Logout;
    }

    /// Writes a status line.
    pub fn write_status(&mut self, tag: &str, typ: &str, code: Option<&str>, text: &str)
        ensures
            final(self).encoder@ == old(self).encoder@ + status_bytes(
                tag.spec_bytes(),
                typ.spec_bytes(),
                match code {
                    Some(c) => Some(c.spec_bytes()),
                    None => None,
                },
                text.spec_bytes(),
            ),
            final(self).state == old(self).state,
            final(self).decoder == old(self).decoder,
            final(self).enabled == old(self).enabled,
    {
        self.encoder.write_status(tag, typ, code, text);
    }

    /// Writes an untagged status line and moves to the Logout state.
    pub fn write_status_bye(&mut self, typ: &str, text: &str)
        ensures
            final(self).encoder@ == old(self).encoder@ + status_bytes(
                encode_utf8(""@),
                typ.spec_bytes(),
                None,
                text.spec_bytes(),
            ),
            final(self).state == ConnState::Logout,
            final(self).decoder == old(self).decoder,
            final(self).enabled == old(self).enabled,
    {
        self.encoder.write_status("", typ, None, text);
        self.state = ConnState::Logout;
    }

    /// Writes `tag OK text`.
    pub fn write_ok(&mut self, tag: &str, text: &str)
        ensures
            final(self).encoder@ == old(self).encoder@ + status_bytes(
                tag.spec_bytes(),
                encode_utf8("OK"@),
                None,
                text.spec_bytes(),
            ),
            final(self).state == old(self).state,
            final(self).decoder == old(self).decoder,
            final(self).enabled == old(self).enabled,
    {
        self.encoder.write_status(tag, "OK", None, text);
    }

    /// Writes `tag NO text`.
    pub fn write_no(&mut self, tag: &str, text: &str)
        ensures
            final(self).encoder@ == old(self).encoder@ + status_bytes(
                tag.spec_bytes(),
                encode_utf8("NO"@),
                None,
                text.spec_bytes(),
            ),
            final(self).state == old(self).state,
            final(self).decoder == old(self).decoder,
            final(self).enabled == old(self).enabled,
    {
        self.encoder.write_status(tag, "NO", None, text);
    }

    /// Writes a continuation request `+ text`.
    pub fn write_continuation(&mut self, text: &str)
        ensures
            final(self).encoder@ == old(self).encoder@ + seq![43u8, 32] + text.spec_bytes() + seq![13u8, 10],
            final(self).state == old(self).state,
            final(self).decoder == old(self).decoder,
            final(self).enabled == old(self).enabled,
    {
        self.encoder.write_continuation(text);
    }

    /// Requires the Authenticated or Selected state.
    pub fn require_auth(&self) -> (r: ImapResult<()>)
        ensures
            (self.state == ConnState::Authenticated || self.state == ConnState::Selected) ==> r is Ok,
            !(self.state == ConnState::Authenticated || self.state == ConnState::Selected) ==> r is Err
                && is_bad(r->Err_0, None, "Not authenticated"@),
    {
        match self.state {
            ConnState::Authenticated | ConnState::Selected => Ok(()),
            _ => Err(ImapError::bad("Not authenticated")),
        }
    }

    /// Requires the Selected state.
    pub fn require_selected(&self) -> (r: ImapResult<()>)
        ensures
            self.state == ConnState::Selected ==> r is Ok,
            self.state == ConnState::Authenticated ==> r is Err && is_bad(
                r->Err_0,
                None,
                "No mailbox selected"@,
            ),
            self.state == ConnState::NotAuthenticated || self.state == ConnState::Logout ==> r is Err
                && is_bad(r->Err_0, None, "Not authenticated"@),
    {
        match self.state {
            ConnState::Selected => Ok(()),
            ConnState::Authenticated => Err(ImapError::bad("No mailbox selected")),
            _ => Err(ImapError::bad("Not authenticated")),
        }
    }
}

} // verus!
