//! The tick data model: one bid/ask observation with a timestamp, and the
//! OHLC bar computed from a window of ticks.
use vstd::prelude::*;

verus! {

/// One quote observation: a timestamp in milliseconds and the bid and ask
/// prices as fixed-point integers in the caller's unit.
#[derive(Clone, Copy, Debug, PartialEq, Eq, Structural)]
pub struct Tick {
    pub ts: u64,
    pub bid: u64,
    pub ask: u64,
}

impl Tick {
    /// Twice the midpoint price of this tick: `bid + ask`. Comparing ticks
    /// by this value is exactly comparing them by midpoint, with no
    /// rounding.
    pub open spec fn mid2(self) -> int {
        self.bid + self.ask
    }

    /// `bid + ask` stays representable, so the bar fields below can hold it.
    pub open spec fn fits(self) -> bool {
        self.bid + self.ask <= u64::MAX
    }
}

/// One bar of results. Each field is twice the midpoint price of the tick
/// it comes from (see [`Tick::mid2`]): `open` from the oldest tick still in
/// the window, `high` and `low` from the extreme ticks of the window, and
/// `close` from the tick that was just inserted.
#[derive(Clone, Copy, Debug, PartialEq, Eq, Structural)]
pub struct OHLC {
    pub open: u64,
    pub high: u64,
    pub low: u64,
    pub close: u64,
}

/// Timestamps never decrease along the sequence.
pub open spec fn ts_sorted(s: Seq<Tick>) -> bool {
    forall|i: int, j: int| 0 <= i <= j < s.len() ==> s[i].ts <= s[j].ts
}

/// The lower edge of the trailing window that ends at `now`: `now` minus the
/// window span, saturating at zero so that early timestamps mean an
/// unbounded window rather than wrapping around.
pub open spec fn cutoff(now: u64, win_ms: u64) -> int {
    if now >= win_ms {
        now - win_ms
    } else {
        0
    }
}

/// How many leading entries of `s` are stale, that is strictly older than
/// the cutoff `c`. Counting stops at the first entry that is recent enough.
pub open spec fn stale_count(s: Seq<Tick>, c: int) -> int
    decreases s.len(),
{
    if s.len() == 0 || s[0].ts >= c {
        0
    } else {
        1 + stale_count(s.drop_first(), c)
    }
}

/// What [`stale_count`] promises: it is a valid index bound, everything
/// before it is stale, and the entry at it (if any) is recent enough.
pub proof fn lemma_stale_count(s: Seq<Tick>, c: int)
    ensures
        0 <= stale_count(s, c) <= s.len(),
        forall|j: int| 0 <= j < stale_count(s, c) ==> s[j].ts < c,
        stale_count(s, c) < s.len() ==> s[stale_count(s, c)].ts >= c,
    decreases s.len(),
{
    if s.len() == 0 || s[0].ts >= c {
    } else {
        lemma_stale_count(s.drop_first(), c);
        assert forall|j: int| 0 <= j < stale_count(s, c) implies s[j].ts < c by {
            if j > 0 {
                assert(s.drop_first()[j - 1].ts < c);
            }
        }
    }
}

/// [`stale_count`] is the unique boundary between a stale prefix and a
/// recent-enough next entry.
pub proof fn lemma_stale_count_unique(s: Seq<Tick>, c: int, k: int)
    requires
        0 <= k <= s.len(),
        forall|j: int| 0 <= j < k ==> s[j].ts < c,
        k < s.len() ==> s[k].ts >= c,
    ensures
        stale_count(s, c) == k,
    decreases s.len(),
{
    if s.len() == 0 {
    } else if s[0].ts >= c {
        assert(k == 0);
    } else {
        assert(forall|j: int| 0 <= j < k - 1 ==> s.drop_first()[j].ts < c);
        lemma_stale_count_unique(s.drop_first(), c, k - 1);
    }
}

} // verus!
