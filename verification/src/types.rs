//! Protocol values: flags, addresses, envelopes, mailbox attributes,
//! capabilities and the connection state.
use vstd::prelude::*;
use crate::text::{chars_eq, chars_of, string_from_chars};

pub use crate::seqset::{SeqSet, UIDSet};

verus! {

/// IMAP message flag (e.g. `\Seen`, `\Answered`).
#[derive(Debug, Clone, PartialEq, Eq, Hash, PartialOrd, Ord)]
pub struct Flag(pub String);

impl Flag {
    pub fn seen() -> (r: Self)
        ensures
            r.0@ == "\\Seen"@,
    {
        Self(String::from_str("\\Seen"))
    }

    pub fn answered() -> (r: Self)
        ensures
            r.0@ == "\\Answered"@,
    {
        Self(String::from_str("\\Answered"))
    }

    pub fn flagged() -> (r: Self)
        ensures
            r.0@ == "\\Flagged"@,
    {
        Self(String::from_str("\\Flagged"))
    }

    pub fn deleted() -> (r: Self)
        ensures
            r.0@ == "\\Deleted"@,
    {
        Self(String::from_str("\\Deleted"))
    }

    pub fn draft() -> (r: Self)
        ensures
            r.0@ == "\\Draft"@,
    {
        Self(String::from_str("\\Draft"))
    }

    pub fn recent() -> (r: Self)
        ensures
            r.0@ == "\\Recent"@,
    {
        Self(String::from_str("\\Recent"))
    }

    /// The flag as text.
    pub fn to_string(&self) -> (r: String)
        ensures
            r@ == self.0@,
    {
        self.0.clone()
    }
}

/// UID — 32-bit unsigned, 0 is invalid per RFC 3501.
pub type UID = u32;

/// IMAP address (RFC 3501).
#[derive(Debug, Clone, Default, PartialEq, Eq)]
pub struct Address {
    pub name: String,
    pub mailbox: String,
    pub host: String,
}

impl Address {
    /// `mailbox@host`, or empty when either part is empty.
    pub fn addr(&self) -> (r: String)
        ensures
            r@ == (if self.mailbox@.len() == 0 || self.host@.len() == 0 {
                Seq::<char>::empty()
            } else {
                self.mailbox@ + seq!['@'] + self.host@
            }),
    {
        if self.mailbox.as_str().is_empty() || self.host.as_str().is_empty() {
            String::new()
        } else {
            let mut cs = chars_of(self.mailbox.as_str());
            cs.push('@');
            let h = chars_of(self.host.as_str());
            let mut i: usize = 0;
            let ghost base = cs@;
            while i < h.len()
                invariant
                    i <= h.len(),
                    cs@ == base + h@.take(i as int),
                decreases h.len() - i,
            {
                cs.push(h[i]);
                i += 1;
                assert(cs@ =~= base + h@.take(i as int));
            }
            assert(h@.take(h@.len() as int) =~= h@);
            string_from_chars(&cs)
        }
    }

    /// The address opens a group (`mailbox` holds the group name, no host).
    pub fn is_group_start(&self) -> (r: bool)
        ensures
            r == (self.host@.len() == 0 && self.mailbox@.len() != 0),
    {
        self.host.as_str().is_empty() && !self.mailbox.as_str().is_empty()
    }

    /// The address closes a group (no mailbox, no host).
    pub fn is_group_end(&self) -> (r: bool)
        ensures
            r == (self.host@.len() == 0 && self.mailbox@.len() == 0),
    {
        self.host.as_str().is_empty() && self.mailbox.as_str().is_empty()
    }
}

/// IMAP envelope structure.
#[derive(Debug, Clone, Default, PartialEq, Eq)]
pub struct Envelope {
    pub date: String,
    pub subject: String,
    pub from: Vec<Address>,
    pub sender: Vec<Address>,
    pub reply_to: Vec<Address>,
    pub to: Vec<Address>,
    pub cc: Vec<Address>,
    pub bcc: Vec<Address>,
    pub in_reply_to: Vec<String>,
    pub message_id: String,
}

/// Mailbox attribute (RFC 9051 section 7.3.1).
#[derive(Debug, Clone, PartialEq, Eq, Hash, PartialOrd, Ord)]
pub struct MailboxAttr(pub String);

impl MailboxAttr {
    pub const NON_EXISTENT: &'static str = "\\NonExistent";
    pub const NO_INFERIORS: &'static str = "\\Noinferiors";
    pub const NO_SELECT: &'static str = "\\Noselect";
    pub const HAS_CHILDREN: &'static str = "\\HasChildren";
    pub const HAS_NO_CHILDREN: &'static str = "\\HasNoChildren";
    pub const MARKED: &'static str = "\\Marked";
    pub const UNMARKED: &'static str = "\\Unmarked";
    pub const SUBSCRIBED: &'static str = "\\Subscribed";
    pub const REMOTE: &'static str = "\\Remote";
    pub const ALL: &'static str = "\\All";
    pub const ARCHIVE: &'static str = "\\Archive";
    pub const DRAFTS: &'static str = "\\Drafts";
    pub const FLAGGED: &'static str = "\\Flagged";
    pub const JUNK: &'static str = "\\Junk";
    pub const SENT: &'static str = "\\Sent";
    pub const TRASH: &'static str = "\\Trash";
    pub const IMPORTANT: &'static str = "\\Important";

    /// The attribute as text.
    pub fn to_string(&self) -> (r: String)
        ensures
            r@ == self.0@,
    {
        self.0.clone()
    }
}

/// IMAP capability string.
#[derive(Debug, Clone, PartialEq, Eq, Hash, PartialOrd, Ord)]
pub struct Cap(pub String);

impl Cap {
    pub fn imap4rev1() -> (r: Self)
        ensures
            r.0@ == "IMAP4rev1"@,
    {
        Self(String::from_str("IMAP4rev1"))
    }

    pub fn imap4rev2() -> (r: Self)
        ensures
            r.0@ == "IMAP4rev2"@,
    {
        Self(String::from_str("IMAP4rev2"))
    }

    pub fn starttls() -> (r: Self)
        ensures
            r.0@ == "STARTTLS"@,
    {
        Self(String::from_str("STARTTLS"))
    }

    pub fn login_disabled() -> (r: Self)
        ensures
            r.0@ == "LOGINDISABLED"@,
    {
        Self(String::from_str("LOGINDISABLED"))
    }

    pub fn idle() -> (r: Self)
        ensures
            r.0@ == "IDLE"@,
    {
        Self(String::from_str("IDLE"))
    }

    pub fn move_cap() -> (r: Self)
        ensures
            r.0@ == "MOVE"@,
    {
        Self(String::from_str("MOVE"))
    }

    pub fn namespace() -> (r: Self)
        ensures
            r.0@ == "NAMESPACE"@,
    {
        Self(String::from_str("NAMESPACE"))
    }

    pub fn literal_plus() -> (r: Self)
        ensures
            r.0@ == "LITERAL+"@,
    {
        Self(String::from_str("LITERAL+"))
    }

    pub fn enable() -> (r: Self)
        ensures
            r.0@ == "ENABLE"@,
    {
        Self(String::from_str("ENABLE"))
    }

    pub fn uidplus() -> (r: Self)
        ensures
            r.0@ == "UIDPLUS"@,
    {
        Self(String::from_str("UIDPLUS"))
    }

    pub fn unselect() -> (r: Self)
        ensures
            r.0@ == "UNSELECT"@,
    {
        Self(String::from_str("UNSELECT"))
    }

    pub fn esearch() -> (r: Self)
        ensures
            r.0@ == "ESEARCH"@,
    {
        Self(String::from_str("ESEARCH"))
    }

    pub fn searchres() -> (r: Self)
        ensures
            r.0@ == "SEARCHRES"@,
    {
        Self(String::from_str("SEARCHRES"))
    }

    pub fn sasl_ir() -> (r: Self)
        ensures
            r.0@ == "SASL-IR"@,
    {
        Self(String::from_str("SASL-IR"))
    }

    pub fn list_extended() -> (r: Self)
        ensures
            r.0@ == "LIST-EXTENDED"@,
    {
        Self(String::from_str("LIST-EXTENDED"))
    }

    pub fn list_status() -> (r: Self)
        ensures
            r.0@ == "LIST-STATUS"@,
    {
        Self(String::from_str("LIST-STATUS"))
    }

    pub fn literal_minus() -> (r: Self)
        ensures
            r.0@ == "LITERAL-"@,
    {
        Self(String::from_str("LITERAL-"))
    }

    pub fn status_size() -> (r: Self)
        ensures
            r.0@ == "STATUS=SIZE"@,
    {
        Self(String::from_str("STATUS=SIZE"))
    }

    pub fn children() -> (r: Self)
        ensures
            r.0@ == "CHILDREN"@,
    {
        Self(String::from_str("CHILDREN"))
    }

    pub fn acl() -> (r: Self)
        ensures
            r.0@ == "ACL"@,
    {
        Self(String::from_str("ACL"))
    }

    pub fn append_limit() -> (r: Self)
        ensures
            r.0@ == "APPENDLIMIT"@,
    {
        Self(String::from_str("APPENDLIMIT"))
    }

    pub fn binary() -> (r: Self)
        ensures
            r.0@ == "BINARY"@,
    {
        Self(String::from_str("BINARY"))
    }

    pub fn condstore() -> (r: Self)
        ensures
            r.0@ == "CONDSTORE"@,
    {
        Self(String::from_str("CONDSTORE"))
    }

    pub fn qresync() -> (r: Self)
        ensures
            r.0@ == "QRESYNC"@,
    {
        Self(String::from_str("QRESYNC"))
    }

    pub fn create_special_use() -> (r: Self)
        ensures
            r.0@ == "CREATE-SPECIAL-USE"@,
    {
        Self(String::from_str("CREATE-SPECIAL-USE"))
    }

    pub fn metadata() -> (r: Self)
        ensures
            r.0@ == "METADATA"@,
    {
        Self(String::from_str("METADATA"))
    }

    pub fn multi_append() -> (r: Self)
        ensures
            r.0@ == "MULTIAPPEND"@,
    {
        Self(String::from_str("MULTIAPPEND"))
    }

    pub fn notify() -> (r: Self)
        ensures
            r.0@ == "NOTIFY"@,
    {
        Self(String::from_str("NOTIFY"))
    }

    pub fn quota() -> (r: Self)
        ensures
            r.0@ == "QUOTA"@,
    {
        Self(String::from_str("QUOTA"))
    }

    pub fn sort() -> (r: Self)
        ensures
            r.0@ == "SORT"@,
    {
        Self(String::from_str("SORT"))
    }

    pub fn special_use() -> (r: Self)
        ensures
            r.0@ == "SPECIAL-USE"@,
    {
        Self(String::from_str("SPECIAL-USE"))
    }

    pub fn unauthenticate() -> (r: Self)
        ensures
            r.0@ == "UNAUTHENTICATE"@,
    {
        Self(String::from_str("UNAUTHENTICATE"))
    }

    pub fn id() -> (r: Self)
        ensures
            r.0@ == "ID"@,
    {
        Self(String::from_str("ID"))
    }

    pub fn utf8_accept() -> (r: Self)
        ensures
            r.0@ == "UTF8=ACCEPT"@,
    {
        Self(String::from_str("UTF8=ACCEPT"))
    }

    pub fn within() -> (r: Self)
        ensures
            r.0@ == "WITHIN"@,
    {
        Self(String::from_str("WITHIN"))
    }

    pub fn uid_only() -> (r: Self)
        ensures
            r.0@ == "UIDONLY"@,
    {
        Self(String::from_str("UIDONLY"))
    }

    /// `AUTH=<mechanism>`.
    pub fn auth(mechanism: &str) -> (r: Self)
        ensures
            r.0@ == "AUTH="@ + mechanism@,
    {
        let mut s = String::from_str("AUTH=");
        s.append(mechanism);
        Self(s)
    }

    /// The capability as text.
    pub fn to_string(&self) -> (r: String)
        ensures
            r@ == self.0@,
    {
        self.0.clone()
    }
}

/// Character strings compare below: the lexicographic order of `String`.
pub open spec fn str_less(a: Seq<char>, b: Seq<char>) -> bool
    decreases a.len(),
{
    if a.len() == 0 {
        b.len() > 0
    } else if b.len() == 0 {
        false
    } else if a[0] != b[0] {
        a[0] < b[0]
    } else {
        str_less(a.drop_first(), b.drop_first())
    }
}

/// `a` sorts before `b`.
pub fn chars_less(a: &[char], b: &[char]) -> (r: bool)
    ensures
        r == str_less(a@, b@),
{
    let mut i: usize = 0;
    assert(a@.skip(0) =~= a@);
    assert(b@.skip(0) =~= b@);
    while i < a.len() && i < b.len() && a[i] == b[i]
        invariant
            i <= a.len(),
            i <= b.len(),
            str_less(a@, b@) == str_less(a@.skip(i as int), b@.skip(i as int)),
        decreases a.len() - i,
    {
        assert(a@.skip(i as int).drop_first() =~= a@.skip(i + 1));
        assert(b@.skip(i as int).drop_first() =~= b@.skip(i + 1));
        i += 1;
    }
    if i == a.len() {
        i < b.len()
    } else if i == b.len() {
        false
    } else {
        a[i] < b[i]
    }
}

proof fn lemma_str_less_irrefl(a: Seq<char>)
    ensures
        !str_less(a, a),
    decreases a.len(),
{
    if a.len() > 0 {
        lemma_str_less_irrefl(a.drop_first());
    }
}

proof fn lemma_str_less_total(a: Seq<char>, b: Seq<char>)
    ensures
        a == b || str_less(a, b) || str_less(b, a),
    decreases a.len(),
{
    if a.len() > 0 && b.len() > 0 && a[0] == b[0] {
        lemma_str_less_total(a.drop_first(), b.drop_first());
        if a.drop_first() == b.drop_first() {
            assert(a =~= seq![a[0]] + a.drop_first());
            assert(b =~= seq![b[0]] + b.drop_first());
        }
    } else if a.len() == 0 && b.len() == 0 {
        assert(a =~= b);
    }
}

proof fn lemma_str_less_trans(a: Seq<char>, b: Seq<char>, c: Seq<char>)
    requires
        str_less(a, b),
        str_less(b, c),
    ensures
        str_less(a, c),
    decreases a.len(),
{
    if a.len() > 0 && b.len() > 0 && c.len() > 0 && a[0] == b[0] && b[0] == c[0] {
        lemma_str_less_trans(a.drop_first(), b.drop_first(), c.drop_first());
    }
}

/// Capabilities in strictly increasing order: each held once, in the order
/// in which a `BTreeSet` of them is walked.
pub open spec fn caps_sorted(cs: Seq<Seq<char>>) -> bool {
    forall|i: int, j: int| 0 <= i < j < cs.len() ==> str_less(#[trigger] cs[i], #[trigger] cs[j])
}

/// The capability sorts before `key`.
fn cap_less(a: &Cap, key: &[char]) -> (r: bool)
    ensures
        r == str_less(a.0@, key@),
{
    let k = chars_of(a.0.as_str());
    chars_less(&k, key)
}

/// A set of capabilities, kept sorted and without repeats.
#[derive(Debug, Clone)]
pub struct CapSet {
    caps: Vec<Cap>,
}

impl View for CapSet {
    type V = Seq<Seq<char>>;

    closed spec fn view(&self) -> Seq<Seq<char>> {
        Seq::new(self.caps@.len(), |i: int| self.caps@[i].0@)
    }
}

impl CapSet {
    /// The capabilities are held in strictly increasing order.
    pub open spec fn wf(&self) -> bool {
        caps_sorted(self@)
    }

    /// An empty set.
    pub fn new() -> (r: Self)
        ensures
            r.wf(),
            r@ == Seq::<Seq<char>>::empty(),
    {
        let r = CapSet { caps: Vec::new() };
        assert(r@ =~= Seq::<Seq<char>>::empty());
        r
    }

    /// The number of capabilities.
    pub fn len(&self) -> (r: usize)
        ensures
            r == self@.len(),
    {
        self.caps.len()
    }

    /// Whether `c` is in the set.
    pub fn contains(&self, c: &Cap) -> (r: bool)
        ensures
            r == self@.contains(c.0@),
    {
        let key = chars_of(c.0.as_str());
        let mut i: usize = 0;
        while i < self.caps.len()
            invariant
                i <= self.caps@.len(),
                key@ == c.0@,
                forall|j: int| 0 <= j < i ==> self@[j] != c.0@,
            decreases self.caps@.len() - i,
        {
            let k = chars_of(self.caps[i].0.as_str());
            if chars_eq(&k, &key) {
                assert(self@[i as int] == c.0@);
                return true;
            }
            i += 1;
        }
        false
    }

    /// Inserts `c` at its place in the order; no change when it is already
    /// there. Returns whether it was added.
    pub fn insert(&mut self, c: Cap) -> (r: bool)
        requires
            old(self).wf(),
        ensures
            final(self).wf(),
            r == !old(self)@.contains(c.0@),
            final(self)@.to_set() == old(self)@.to_set().insert(c.0@),
    {
        let key = chars_of(c.0.as_str());
        let mut i: usize = 0;
        while i < self.caps.len() && cap_less(&self.caps[i], &key)
            invariant
                i <= self.caps@.len(),
                key@ == c.0@,
                forall|j: int| 0 <= j < i ==> str_less(#[trigger] self@[j], c.0@),
            decreases self.caps@.len() - i,
        {
            i += 1;
        }
        let ghost old_v = self@;
        if i < self.caps.len() {
            let k = chars_of(self.caps[i].0.as_str());
            if chars_eq(&k, &key) {
                assert(old_v[i as int] == c.0@);
                assert(self@.to_set() =~= old_v.to_set().insert(c.0@));
                return false;
            }
        }
        proof {
            assert forall|j: int| i <= j < old_v.len() implies str_less(c.0@, #[trigger] old_v[j]) by {
                lemma_str_less_total(old_v[i as int], c.0@);
                assert(str_less(old_v[i as int], old_v[j]) || j == i);
                if j > i {
                    lemma_str_less_trans(c.0@, old_v[i as int], old_v[j]);
                }
            }
            assert forall|j: int| 0 <= j < old_v.len() implies old_v[j] != c.0@ by {
                if j < i {
                    lemma_str_less_irrefl(c.0@);
                } else {
                    lemma_str_less_irrefl(c.0@);
                }
            }
        }
        self.caps.insert(i, c);
        proof {
            let nv = self@;
            assert(nv =~= old_v.take(i as int).push(c.0@) + old_v.skip(i as int));
            assert forall|a: int, b: int| 0 <= a < b < nv.len() implies str_less(
                #[trigger] nv[a],
                #[trigger] nv[b],
            ) by {
                if b < i {
                } else if a < i && b == i {
                } else if a < i {
                    assert(nv[b] == old_v[b - 1]);
                } else if a == i {
                    assert(nv[b] == old_v[b - 1]);
                } else {
                    assert(nv[a] == old_v[a - 1]);
                    assert(nv[b] == old_v[b - 1]);
                }
            }
            assert forall|x: Seq<char>| nv.to_set().contains(x) <==> old_v.to_set().insert(
                c.0@,
            ).contains(x) by {
                if nv.contains(x) {
                    let k = choose|k: int| 0 <= k < nv.len() && nv[k] == x;
                    if k < i {
                        assert(old_v[k] == x);
                    } else if k > i {
                        assert(old_v[k - 1] == x);
                    }
                }
                if old_v.contains(x) {
                    let k = choose|k: int| 0 <= k < old_v.len() && old_v[k] == x;
                    if k < i {
                        assert(nv[k] == x);
                    } else {
                        assert(nv[k + 1] == x);
                    }
                }
                if x == c.0@ {
                    assert(nv[i as int] == x);
                }
            }
            assert(nv.to_set() =~= old_v.to_set().insert(c.0@));
        }
        true
    }

    /// Removes every capability.
    pub fn clear(&mut self)
        ensures
            final(self).wf(),
            final(self)@ == Seq::<Seq<char>>::empty(),
    {
        self.caps.clear();
        assert(self@ =~= Seq::<Seq<char>>::empty());
    }

    /// The capabilities in order.
    pub fn to_vec(&self) -> (r: Vec<Cap>)
        ensures
            r@.len() == self@.len(),
            forall|i: int| 0 <= i < r@.len() ==> #[trigger] r@[i].0@ == self@[i],
    {
        let mut r: Vec<Cap> = Vec::new();
        let mut i: usize = 0;
        while i < self.caps.len()
            invariant
                i <= self.caps@.len(),
                r@.len() == i,
                forall|j: int| 0 <= j < i ==> #[trigger] r@[j].0@ == self@[j],
            decreases self.caps@.len() - i,
        {
            let c = Cap(self.caps[i].0.clone());
            r.push(c);
            i += 1;
        }
        r
    }
}

/// Connection state machine.
#[derive(Debug, Clone, Copy, PartialEq, Eq, Structural)]
pub enum ConnState {
    NotAuthenticated,
    Authenticated,
    Selected,
    Logout,
}

} // verus!
