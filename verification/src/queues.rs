//! The three queue operations of one update: evicting stale entries from
//! the front, and the monotonic insertions at the back of the maximum and
//! minimum candidate queues.
use std::collections::VecDeque;
use vstd::prelude::*;

use crate::tick::Tick;
use crate::tick::lemma_stale_count;
use crate::tick::stale_count;

verus! {

/// How many entries at the back of `s` the maximum queue gives up for a new
/// tick `x`: everything priced at or below `x` goes, so the survivors are
/// exactly the first `keep_max(s, x)` entries.
pub open spec fn keep_max(s: Seq<Tick>, x: Tick) -> int
    decreases s.len(),
{
    if s.len() == 0 {
        0
    } else if s.last().mid2() > x.mid2() {
        s.len() as int
    } else {
        keep_max(s.drop_last(), x)
    }
}

/// What [`keep_max`] promises: it is a valid index bound, everything from it
/// on is priced at or below `x`, and the last survivor (if any) is priced
/// strictly above `x`.
pub proof fn lemma_keep_max(s: Seq<Tick>, x: Tick)
    ensures
        0 <= keep_max(s, x) <= s.len(),
        forall|j: int| keep_max(s, x) <= j < s.len() ==> s[j].mid2() <= x.mid2(),
        keep_max(s, x) > 0 ==> s[keep_max(s, x) - 1].mid2() > x.mid2(),
    decreases s.len(),
{
    if s.len() == 0 {
    } else if s.last().mid2() > x.mid2() {
    } else {
        lemma_keep_max(s.drop_last(), x);
        assert forall|j: int| keep_max(s, x) <= j < s.len() implies s[j].mid2() <= x.mid2() by {
            if j < s.len() - 1 {
                assert(s.drop_last()[j].mid2() <= x.mid2());
            }
        }
        if keep_max(s, x) > 0 {
            assert(s.drop_last()[keep_max(s, x) - 1].mid2() > x.mid2());
        }
    }
}

/// Mirror of [`keep_max`] for the minimum queue: entries priced at or above
/// the new tick `x` go.
pub open spec fn keep_min(s: Seq<Tick>, x: Tick) -> int
    decreases s.len(),
{
    if s.len() == 0 {
        0
    } else if s.last().mid2() < x.mid2() {
        s.len() as int
    } else {
        keep_min(s.drop_last(), x)
    }
}

/// Mirror of [`lemma_keep_max`] for the minimum queue.
pub proof fn lemma_keep_min(s: Seq<Tick>, x: Tick)
    ensures
        0 <= keep_min(s, x) <= s.len(),
        forall|j: int| keep_min(s, x) <= j < s.len() ==> s[j].mid2() >= x.mid2(),
        keep_min(s, x) > 0 ==> s[keep_min(s, x) - 1].mid2() < x.mid2(),
    decreases s.len(),
{
    if s.len() == 0 {
    } else if s.last().mid2() < x.mid2() {
    } else {
        lemma_keep_min(s.drop_last(), x);
        assert forall|j: int| keep_min(s, x) <= j < s.len() implies s[j].mid2() >= x.mid2() by {
            if j < s.len() - 1 {
                assert(s.drop_last()[j].mid2() >= x.mid2());
            }
        }
        if keep_min(s, x) > 0 {
            assert(s.drop_last()[keep_min(s, x) - 1].mid2() < x.mid2());
        }
    }
}

/// Pop entries strictly older than `cutoff_timestamp` from the front of the
/// queue, stopping at the first entry that is recent enough.
pub fn remove_outdated_entry(cutoff_timestamp: u64, dq: VecDeque<Tick>) -> (r: VecDeque<Tick>)
    ensures
        r@ == dq@.subrange(stale_count(dq@, cutoff_timestamp as int), dq@.len() as int),
{
    let mut dq = dq;
    let ghost orig: Seq<Tick> = dq@;
    let ghost c: int = cutoff_timestamp as int;
    proof {
        assert(dq@ =~= orig.subrange(0, orig.len() as int));
    }
    while dq.len() > 0 && dq[0].ts < cutoff_timestamp
        invariant
            c == cutoff_timestamp as int,
            0 <= orig.len() - dq@.len() <= orig.len(),
            dq@ == orig.subrange(orig.len() - dq@.len(), orig.len() as int),
            stale_count(orig, c) == orig.len() - dq@.len() + stale_count(dq@, c),
        decreases dq@.len(),
    {
        let ghost pre: Seq<Tick> = dq@;
        dq.pop_front();
        proof {
            assert(stale_count(pre, c) == 1 + stale_count(pre.drop_first(), c));
            assert(dq@ =~= orig.subrange(orig.len() - dq@.len(), orig.len() as int));
        }
    }
    proof {
        assert(stale_count(dq@, c) == 0);
        lemma_stale_count(orig, c);
    }
    dq
}

/// Insert the new tick `x` at the back of the maximum candidate queue:
/// first pop every back entry priced at or below `x` (an equal price is
/// popped too, since the newer tick outlives it), then push `x`.
pub fn push_max(dq: VecDeque<Tick>, x: Tick) -> (r: VecDeque<Tick>)
    requires
        forall|j: int| 0 <= j < dq@.len() ==> (#[trigger] dq@[j]).fits(),
        x.fits(),
    ensures
        r@ == dq@.subrange(0, keep_max(dq@, x)).push(x),
{
    let mut dq = dq;
    let ghost orig: Seq<Tick> = dq@;
    proof {
        assert(dq@ =~= orig.subrange(0, dq@.len() as int));
    }
    while dq.len() > 0 && dq[dq.len() - 1].bid + dq[dq.len() - 1].ask <= x.bid + x.ask
        invariant
            dq@.len() <= orig.len(),
            dq@ == orig.subrange(0, dq@.len() as int),
            keep_max(orig, x) == keep_max(dq@, x),
            forall|j: int| 0 <= j < orig.len() ==> (#[trigger] orig[j]).fits(),
            x.fits(),
        decreases dq@.len(),
    {
        let ghost pre: Seq<Tick> = dq@;
        dq.pop_back();
        proof {
            assert(keep_max(pre, x) == keep_max(pre.drop_last(), x));
            assert(dq@ =~= orig.subrange(0, dq@.len() as int));
        }
    }
    proof {
        if dq.len() > 0 {
            assert(dq@.last().mid2() > x.mid2());
        }
        assert(keep_max(dq@, x) == dq@.len());
    }
    dq.push_back(x);
    proof {
        assert(dq@ =~= orig.subrange(0, keep_max(orig, x)).push(x));
    }
    dq
}

/// Mirror of [`push_max`] for the minimum candidate queue: pop every back
/// entry priced at or above `x`, then push `x`.
pub fn push_min(dq: VecDeque<Tick>, x: Tick) -> (r: VecDeque<Tick>)
    requires
        forall|j: int| 0 <= j < dq@.len() ==> (#[trigger] dq@[j]).fits(),
        x.fits(),
    ensures
        r@ == dq@.subrange(0, keep_min(dq@, x)).push(x),
{
    let mut dq = dq;
    let ghost orig: Seq<Tick> = dq@;
    proof {
        assert(dq@ =~= orig.subrange(0, dq@.len() as int));
    }
    while dq.len() > 0 && dq[dq.len() - 1].bid + dq[dq.len() - 1].ask >= x.bid + x.ask
        invariant
            dq@.len() <= orig.len(),
            dq@ == orig.subrange(0, dq@.len() as int),
            keep_min(orig, x) == keep_min(dq@, x),
            forall|j: int| 0 <= j < orig.len() ==> (#[trigger] orig[j]).fits(),
            x.fits(),
        decreases dq@.len(),
    {
        let ghost pre: Seq<Tick> = dq@;
        dq.pop_back();
        proof {
            assert(keep_min(pre, x) == keep_min(pre.drop_last(), x));
            assert(dq@ =~= orig.subrange(0, dq@.len() as int));
        }
    }
    proof {
        if dq.len() > 0 {
            assert(dq@.last().mid2() < x.mid2());
        }
        assert(keep_min(dq@, x) == dq@.len());
    }
    dq.push_back(x);
    proof {
        assert(dq@ =~= orig.subrange(0, keep_min(orig, x)).push(x));
    }
    dq
}

} // verus!
