//! What the mail store hands back for FETCH and STORE, and the UID set of
//! a list of UIDs.
use vstd::prelude::*;
use crate::seqset::SeqSet;
use crate::types::Flag;

verus! {

broadcast use vstd::seq_lib::group_to_multiset_ensures;

/// Data for one fetched message.
#[derive(Debug, Clone)]
pub struct FetchedMessage {
    pub seq: u32,
    pub uid: u32,
    pub flags: Vec<Flag>,
    pub internal_date: String,
    pub rfc822_size: u32,
    pub body: Vec<u8>,
}

/// Data returned by STORE for one message.
#[derive(Debug, Clone)]
pub struct StoredMessage {
    pub seq: u32,
    pub uid: u32,
    pub flags: Vec<Flag>,
}

/// The numbers are in non-decreasing order.
pub open spec fn sorted_u32(s: Seq<u32>) -> bool {
    forall|i: int, j: int| 0 <= i <= j < s.len() ==> s[i] <= s[j]
}

/// The ranges of consecutive numbers of a sorted sequence, in order: a
/// number one past the end of the last range extends it; any other number
/// (a repeat too) starts a new range.
pub open spec fn uid_runs(s: Seq<u32>) -> Seq<(u32, u32)>
    decreases s.len(),
{
    if s.len() == 0 {
        Seq::empty()
    } else {
        let r = uid_runs(s.drop_last());
        let u = s.last();
        if r.len() > 0 && u == r.last().1 + 1 {
            r.update(r.len() - 1, (r.last().0, u))
        } else {
            r.push((u, u))
        }
    }
}

/// The numbers sorted (insertion sort).
fn sort_u32(v: &[u32]) -> (r: Vec<u32>)
    ensures
        sorted_u32(r@),
        r@.to_multiset() == v@.to_multiset(),
{
    let mut out: Vec<u32> = Vec::new();
    let mut i: usize = 0;
    assert(v@.take(0) =~= Seq::<u32>::empty());
    assert(out@ =~= Seq::<u32>::empty());
    while i < v.len()
        invariant
            i <= v.len(),
            sorted_u32(out@),
            out@.to_multiset() == v@.take(i as int).to_multiset(),
        decreases v.len() - i,
    {
        let x = v[i];
        let mut k: usize = 0;
        while k < out.len() && out[k] <= x
            invariant
                k <= out.len(),
                forall|j: int| 0 <= j < k ==> out@[j] <= x,
            decreases out.len() - k,
        {
            k += 1;
        }
        let ghost before = out@;
        out.insert(k, x);
        proof {
            assert(v@.take(i + 1) =~= v@.take(i as int).push(x));
            assert forall|a: int, b: int| 0 <= a <= b < out@.len() implies out@[a] <= out@[b] by {
                if a < k && b < k {
                } else if a < k && b == k {
                } else if a < k {
                    assert(out@[b] == before[b - 1]);
                } else if a == k && b == k {
                } else if a == k {
                    assert(out@[b] == before[b - 1]);
                    assert(before[k as int] > x);
                } else {
                    assert(out@[a] == before[a - 1]);
                    assert(out@[b] == before[b - 1]);
                }
            }
        }
        i += 1;
    }
    assert(v@.take(v@.len() as int) =~= v@);
    out
}

/// The UID set covering the UIDs: they are sorted and each run of
/// consecutive UIDs becomes one range. `u32::MAX` may occur at most once
/// (one past it does not exist).
pub fn seq_set_from_uids(uids: &[u32]) -> (r: SeqSet)
    requires
        uids@.to_multiset().count(u32::MAX) <= 1,
    ensures
        exists|s: Seq<u32>|
            #[trigger] sorted_u32(s) && s.to_multiset() == uids@.to_multiset() && r@ == uid_runs(s),
{
    if uids.len() == 0 {
        let r = SeqSet(Vec::new());
        assert(sorted_u32(uids@) && r@ =~= uid_runs(uids@));
        return r;
    }
    let sorted = sort_u32(uids);
    proof {
        vstd::seq_lib::to_multiset_len(sorted@);
        vstd::seq_lib::to_multiset_len(uids@);
    }
    let mut ranges: Vec<(u32, u32)> = Vec::new();
    let mut start = sorted[0];
    let mut end = sorted[0];
    let mut i: usize = 1;
    proof {
        assert(sorted@.take(1).drop_last() =~= Seq::<u32>::empty());
        assert(uid_runs(Seq::<u32>::empty()) =~= Seq::<(u32, u32)>::empty());
        assert(uid_runs(sorted@.take(1)) =~= seq![(start, end)]);
        assert(ranges@.push((start, end)) =~= seq![(start, end)]);
    }
    while i < sorted.len()
        invariant
            1 <= i <= sorted.len(),
            sorted_u32(sorted@),
            sorted@.to_multiset().count(u32::MAX) <= 1,
            end == sorted@[i - 1],
            uid_runs(sorted@.take(i as int)) == ranges@.push((start, end)),
        decreases sorted.len() - i,
    {
        let u = sorted[i];
        proof {
            assert(sorted@.take(i + 1).drop_last() =~= sorted@.take(i as int));
            if end == u32::MAX {
                assert(u == u32::MAX);
                lemma_count_two(sorted@, (i - 1) as int, i as int);
            }
        }
        if u == end + 1 {
            end = u;
            assert(uid_runs(sorted@.take(i + 1)) =~= ranges@.push((start, end)));
        } else {
            ranges.push((start, end));
            start = u;
            end = u;
            assert(uid_runs(sorted@.take(i + 1)) =~= ranges@.push((start, end)));
        }
        i += 1;
    }
    ranges.push((start, end));
    assert(sorted@.take(sorted@.len() as int) =~= sorted@);
    SeqSet(ranges)
}

/// Two positions holding `u32::MAX` count twice.
proof fn lemma_count_two(s: Seq<u32>, a: int, b: int)
    requires
        0 <= a < b < s.len(),
        s[a] == u32::MAX,
        s[b] == u32::MAX,
    ensures
        s.to_multiset().count(u32::MAX) >= 2,
    decreases s.len(),
{
    if b == s.len() - 1 {
        assert(s =~= s.drop_last().push(s.last()));
        assert(s.drop_last()[a] == u32::MAX);
        assert(s.drop_last().to_multiset().count(u32::MAX) >= 1) by {
            assert(s.drop_last().contains(u32::MAX));
        }
    } else {
        assert(s =~= s.drop_last().push(s.last()));
        lemma_count_two(s.drop_last(), a, b);
    }
}

} // verus!
