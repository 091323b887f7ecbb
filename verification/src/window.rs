//! Per-symbol state: the window queue and the two monotonic candidate
//! queues, the invariant tying them to the full tick history, and one
//! update step with its proof.
use std::collections::VecDeque;
use vstd::prelude::*;

use crate::queues::keep_max;
use crate::queues::keep_min;
use crate::queues::lemma_keep_max;
use crate::queues::lemma_keep_min;
use crate::queues::push_max;
use crate::queues::push_min;
use crate::queues::remove_outdated_entry;
use crate::tick::OHLC;
use crate::tick::Tick;
use crate::tick::cutoff;
use crate::tick::lemma_stale_count;
use crate::tick::lemma_stale_count_unique;
use crate::tick::stale_count;
use crate::tick::ts_sorted;

verus! {

/// Every tick of the sequence has a representable `bid + ask`.
pub open spec fn all_fit(s: Seq<Tick>) -> bool {
    forall|i: int| 0 <= i < s.len() ==> (#[trigger] s[i]).fits()
}

/// Every tick of the sequence is at or after the cutoff `c`.
pub open spec fn all_recent(s: Seq<Tick>, c: int) -> bool {
    forall|i: int| 0 <= i < s.len() ==> (#[trigger] s[i]).ts >= c
}

/// Prices strictly decrease from front to back (the maximum queue shape).
pub open spec fn desc_mid2(s: Seq<Tick>) -> bool {
    forall|i: int, j: int|
        0 <= i < j < s.len() ==> (#[trigger] s[i]).mid2() > (#[trigger] s[j]).mid2()
}

/// Prices strictly increase from front to back (the minimum queue shape).
pub open spec fn asc_mid2(s: Seq<Tick>) -> bool {
    forall|i: int, j: int|
        0 <= i < j < s.len() ==> (#[trigger] s[i]).mid2() < (#[trigger] s[j]).mid2()
}

/// Some entry of the queue is at least as new and at least as high-priced
/// as `x`: whatever is evicted later, `x` never outlives every tick that
/// beats it as the running maximum.
pub open spec fn max_covered(x: Tick, q: Seq<Tick>) -> bool {
    exists|j: int| 0 <= j < q.len() && (#[trigger] q[j]).ts >= x.ts && q[j].mid2() >= x.mid2()
}

/// Mirror of [`max_covered`] for the running minimum.
pub open spec fn min_covered(x: Tick, q: Seq<Tick>) -> bool {
    exists|j: int| 0 <= j < q.len() && (#[trigger] q[j]).ts >= x.ts && q[j].mid2() <= x.mid2()
}

/// The window-queue half of the invariant: the window queue `w` is exactly
/// the suffix of the history `h` at or after the cutoff `c` of the trailing
/// window ending at the newest tick.
pub open spec fn window_inv(h: Seq<Tick>, w: Seq<Tick>, c: int) -> bool {
    &&& 0 < w.len() <= h.len()
    &&& w == h.subrange(h.len() - w.len(), h.len() as int)
    &&& all_recent(w, c)
    &&& (w.len() < h.len() ==> h[h.len() - w.len() - 1].ts < c)
}

/// The candidate-queue half of the invariant, for the maximum queue `mx`:
/// time-ordered, strictly decreasing in price, ending at the newest tick,
/// drawn from the window queue `w`, and covering every tick of it.
pub open spec fn maxq_inv(h: Seq<Tick>, w: Seq<Tick>, mx: Seq<Tick>) -> bool {
    &&& ts_sorted(mx)
    &&& desc_mid2(mx)
    &&& mx.len() > 0
    &&& mx.last() == h.last()
    &&& forall|i: int| 0 <= i < mx.len() ==> #[trigger] w.contains(mx[i])
    &&& forall|i: int| 0 <= i < w.len() ==> #[trigger] max_covered(w[i], mx)
}

/// Mirror of [`maxq_inv`] for the minimum queue.
pub open spec fn minq_inv(h: Seq<Tick>, w: Seq<Tick>, mn: Seq<Tick>) -> bool {
    &&& ts_sorted(mn)
    &&& asc_mid2(mn)
    &&& mn.len() > 0
    &&& mn.last() == h.last()
    &&& forall|i: int| 0 <= i < mn.len() ==> #[trigger] w.contains(mn[i])
    &&& forall|i: int| 0 <= i < w.len() ==> #[trigger] min_covered(w[i], mn)
}

/// The invariant of one symbol's state after any number of updates: `h` is
/// the whole tick history for the symbol, time-ordered with representable
/// prices; `w` is the window queue; `mx` and `mn` are the maximum and
/// minimum candidate queues.
#[verifier::opaque]
pub open spec fn queues_inv(
    h: Seq<Tick>,
    w: Seq<Tick>,
    mx: Seq<Tick>,
    mn: Seq<Tick>,
    win_ms: u64,
) -> bool {
    &&& h.len() > 0
    &&& ts_sorted(h)
    &&& all_fit(h)
    &&& window_inv(h, w, cutoff(h.last().ts, win_ms))
    &&& maxq_inv(h, w, mx)
    &&& minq_inv(h, w, mn)
}

/// A queue after evicting its stale front entries.
pub open spec fn after_evict(s: Seq<Tick>, c: int) -> Seq<Tick> {
    s.subrange(stale_count(s, c), s.len() as int)
}

/// The window queue after one update: the new tick appended, then the stale
/// front evicted.
pub open spec fn window_step(w: Seq<Tick>, nt: Tick, c: int) -> Seq<Tick> {
    after_evict(w.push(nt), c)
}

/// The maximum queue after one update: the stale front evicted, then every
/// back entry priced at or below the new tick popped, then the new tick
/// appended.
pub open spec fn max_step(mx: Seq<Tick>, nt: Tick, c: int) -> Seq<Tick> {
    let m = after_evict(mx, c);
    m.subrange(0, keep_max(m, nt)).push(nt)
}

/// Mirror of [`max_step`] for the minimum queue.
pub open spec fn min_step(mn: Seq<Tick>, nt: Tick, c: int) -> Seq<Tick> {
    let m = after_evict(mn, c);
    m.subrange(0, keep_min(m, nt)).push(nt)
}

/// A time-ordered queue stays time-ordered on any subrange.
proof fn lemma_sorted_subrange(s: Seq<Tick>, a: int, b: int)
    requires
        ts_sorted(s),
        0 <= a <= b <= s.len(),
    ensures
        ts_sorted(s.subrange(a, b)),
{
    assert forall|i: int, j: int|
        0 <= i <= j < s.subrange(a, b).len() implies s.subrange(a, b)[i].ts <= s.subrange(
        a,
        b,
    )[j].ts by {
        assert(s[a + i].ts <= s[a + j].ts);
    }
}

/// A tick covered in the old maximum queue is still covered after the
/// eviction and the monotonic insertion of one update, provided the tick
/// itself is still inside the window.
proof fn lemma_max_transfer(x: Tick, mx: Seq<Tick>, nt: Tick, c: int)
    requires
        ts_sorted(mx),
        max_covered(x, mx),
        x.ts >= c,
        nt.ts >= x.ts,
    ensures
        max_covered(x, max_step(mx, nt, c)),
{
    let k = stale_count(mx, c);
    let m = after_evict(mx, c);
    let p = keep_max(m, nt);
    let m2 = max_step(mx, nt, c);
    lemma_stale_count(mx, c);
    lemma_keep_max(m, nt);
    let j = choose|j: int|
        0 <= j < mx.len() && (#[trigger] mx[j]).ts >= x.ts && mx[j].mid2() >= x.mid2();
    assert(j >= k);
    if j - k < p {
        assert(m2[j - k] == mx[j]);
        assert(m2[j - k].ts >= x.ts && m2[j - k].mid2() >= x.mid2());
    } else {
        assert(m[j - k].mid2() <= nt.mid2());
        assert(m2[p] == nt);
        assert(m2[p].ts >= x.ts && m2[p].mid2() >= x.mid2());
    }
}

/// Mirror of [`lemma_max_transfer`] for the minimum queue.
proof fn lemma_min_transfer(x: Tick, mn: Seq<Tick>, nt: Tick, c: int)
    requires
        ts_sorted(mn),
        min_covered(x, mn),
        x.ts >= c,
        nt.ts >= x.ts,
    ensures
        min_covered(x, min_step(mn, nt, c)),
{
    let k = stale_count(mn, c);
    let m = after_evict(mn, c);
    let p = keep_min(m, nt);
    let m2 = min_step(mn, nt, c);
    lemma_stale_count(mn, c);
    lemma_keep_min(m, nt);
    let j = choose|j: int|
        0 <= j < mn.len() && (#[trigger] mn[j]).ts >= x.ts && mn[j].mid2() <= x.mid2();
    assert(j >= k);
    if j - k < p {
        assert(m2[j - k] == mn[j]);
        assert(m2[j - k].ts >= x.ts && m2[j - k].mid2() <= x.mid2());
    } else {
        assert(m[j - k].mid2() >= nt.mid2());
        assert(m2[p] == nt);
        assert(m2[p].ts >= x.ts && m2[p].mid2() <= x.mid2());
    }
}

/// One update step keeps the window-queue half of the invariant, and keeps
/// the history time-ordered.
#[verifier::spinoff_prover]
proof fn lemma_step_window(h: Seq<Tick>, w: Seq<Tick>, nt: Tick, win_ms: u64)
    requires
        h.len() == 0 ==> w.len() == 0,
        h.len() > 0 ==> ts_sorted(h) && window_inv(h, w, cutoff(h.last().ts, win_ms)),
        forall|i: int| 0 <= i < h.len() ==> (#[trigger] h[i]).ts <= nt.ts,
    ensures
        ts_sorted(h.push(nt)),
        window_inv(h.push(nt), window_step(w, nt, cutoff(nt.ts, win_ms)), cutoff(nt.ts, win_ms)),
        window_step(w, nt, cutoff(nt.ts, win_ms)).last() == nt,
{
    let c = cutoff(nt.ts, win_ms);
    let h2 = h.push(nt);
    let w1 = w.push(nt);
    let kw = stale_count(w1, c);
    let w2 = window_step(w, nt, c);
    lemma_stale_count(w1, c);
    assert(ts_sorted(h2));
    assert(w1 == h2.subrange(h2.len() - w1.len(), h2.len() as int)) by {
        if h.len() > 0 {
            assert(w1 =~= h2.subrange(h2.len() - w1.len(), h2.len() as int));
        } else {
            assert(w1 =~= h2.subrange(0, 1));
        }
    }
    assert(ts_sorted(w1)) by {
        lemma_sorted_subrange(h2, h2.len() - w1.len(), h2.len() as int);
    }
    // The new tick is never evicted, so the window stays nonempty.
    assert(nt.ts >= c);
    assert(kw < w1.len()) by {
        if kw == w1.len() {
            assert(w1[w1.len() - 1].ts < c);
        }
    }
    assert(0 < w2.len() <= h2.len());
    assert(w2 == h2.subrange(h2.len() - w2.len(), h2.len() as int)) by {
        assert(w2 =~= h2.subrange(h2.len() - w2.len(), h2.len() as int));
    }
    assert(all_recent(w2, c)) by {
        assert(w1[kw].ts >= c);
        assert forall|i: int| 0 <= i < w2.len() implies (#[trigger] w2[i]).ts >= c by {
            assert(w2[i] == w1[kw + i]);
            assert(w1[kw].ts <= w1[kw + i].ts);
        }
    }
    assert(w2.len() < h2.len() ==> h2[h2.len() - w2.len() - 1].ts < c) by {
        if w2.len() < h2.len() {
            if kw > 0 {
                assert(h2[h2.len() - w2.len() - 1] == w1[kw - 1]);
            } else {
                // Nothing was evicted now, so the old boundary still decides,
                // and the cutoff only moved forward.
                assert(w.len() < h.len());
                assert(h2[h2.len() - w2.len() - 1] == h[h.len() - w.len() - 1]);
                assert(cutoff(h.last().ts, win_ms) <= c);
            }
        }
    }
    assert(w2.last() == w1[kw + w2.len() - 1]);
}

/// One update step keeps the maximum-queue half of the invariant, against
/// the new window queue; the evicted queue also keeps prices representable
/// when the history does.
#[verifier::rlimit(100)]
#[verifier::spinoff_prover]
proof fn lemma_step_max(h: Seq<Tick>, w: Seq<Tick>, mx: Seq<Tick>, nt: Tick, win_ms: u64)
    requires
        h.len() == 0 ==> w.len() == 0 && mx.len() == 0,
        h.len() > 0 ==> ts_sorted(h) && all_fit(h) && window_inv(
            h,
            w,
            cutoff(h.last().ts, win_ms),
        ) && maxq_inv(h, w, mx),
        forall|i: int| 0 <= i < h.len() ==> (#[trigger] h[i]).ts <= nt.ts,
        nt.fits(),
    ensures
        maxq_inv(
            h.push(nt),
            window_step(w, nt, cutoff(nt.ts, win_ms)),
            max_step(mx, nt, cutoff(nt.ts, win_ms)),
        ),
        all_fit(after_evict(mx, cutoff(nt.ts, win_ms))),
{
    let c = cutoff(nt.ts, win_ms);
    let h2 = h.push(nt);
    let w1 = w.push(nt);
    let kw = stale_count(w1, c);
    let w2 = window_step(w, nt, c);
    let kx = stale_count(mx, c);
    let mx1 = after_evict(mx, c);
    let px = keep_max(mx1, nt);
    let mx2 = max_step(mx, nt, c);
    lemma_stale_count(w1, c);
    lemma_stale_count(mx, c);
    lemma_keep_max(mx1, nt);
    lemma_step_window(h, w, nt, win_ms);
    assert(nt.ts >= c);
    // Every old maximum-queue entry is a history tick: at or before the new
    // tick in time, and with a representable price.
    assert forall|i: int|
        0 <= i < mx.len() implies (#[trigger] mx[i]).ts <= nt.ts && mx[i].fits() by {
        assert(w.contains(mx[i]));
        let widx = choose|widx: int| 0 <= widx < w.len() && w[widx] == mx[i];
        assert(h[h.len() - w.len() + widx] == mx[i]);
    }
    assert(all_fit(mx1)) by {
        assert forall|j: int| 0 <= j < mx1.len() implies (#[trigger] mx1[j]).fits() by {
            assert(mx1[j] == mx[kx + j]);
        }
    }
    assert(ts_sorted(mx2)) by {
        assert forall|i: int, j: int| 0 <= i <= j < mx2.len() implies mx2[i].ts <= mx2[j].ts by {
            if j < px {
                assert(mx2[i] == mx1[i] && mx2[j] == mx1[j]);
                assert(mx1[i] == mx[kx + i] && mx1[j] == mx[kx + j]);
            } else if i < px {
                assert(mx2[i] == mx1[i] && mx1[i] == mx[kx + i]);
                assert(mx2[j] == nt);
            }
        }
    }
    assert(desc_mid2(mx2)) by {
        assert forall|i: int, j: int|
            0 <= i < j < mx2.len() implies (#[trigger] mx2[i]).mid2() > (
        #[trigger] mx2[j]).mid2() by {
            if j < px {
                assert(mx2[i] == mx1[i] && mx2[j] == mx1[j]);
                assert(mx1[i] == mx[kx + i] && mx1[j] == mx[kx + j]);
            } else {
                assert(mx2[j] == nt);
                assert(mx2[i] == mx1[i]);
                assert(mx1[px - 1].mid2() > nt.mid2());
                if i < px - 1 {
                    assert(mx1[i] == mx[kx + i] && mx1[px - 1] == mx[kx + px - 1]);
                }
            }
        }
    }
    assert(mx2.len() > 0 && mx2.last() == nt && h2.last() == nt);
    // Members of the new maximum queue still sit in the new window queue.
    assert forall|i: int| 0 <= i < mx2.len() implies #[trigger] w2.contains(mx2[i]) by {
        assert(w2 == w1.subrange(kw, w1.len() as int));
        if i < px {
            assert(mx2[i] == mx1[i] && mx1[i] == mx[kx + i]);
            let x = mx[kx + i];
            assert(x.ts >= c) by {
                assert(mx[kx].ts >= c);
                assert(mx[kx].ts <= mx[kx + i].ts);
            }
            assert(w.contains(mx[kx + i]));
            let widx = choose|widx: int| 0 <= widx < w.len() && w[widx] == x;
            assert(w1[widx] == x);
            assert(widx >= kw);
            assert(w2[widx - kw] == x);
            assert(w2.contains(x));
        } else {
            assert(mx2[i] == nt);
            assert(w2[w2.len() - 1] == w1[w1.len() - 1]);
            assert(w2.contains(nt));
        }
    }
    // Every new-window tick is covered in the new maximum queue.
    assert forall|i: int| 0 <= i < w2.len() implies #[trigger] max_covered(w2[i], mx2) by {
        assert(w2 == w1.subrange(kw, w1.len() as int));
        assert(w2[i] == w1[kw + i]);
        if kw + i < w.len() {
            let x = w[kw + i];
            assert(x.ts <= nt.ts) by {
                assert(h[h.len() - w.len() + kw + i] == x);
            }
            assert(x.ts >= c) by {
                assert(w2[i].ts >= c);
            }
            assert(max_covered(w[kw + i], mx));
            lemma_max_transfer(x, mx, nt, c);
        } else {
            assert(w2[i] == nt);
            assert(0 <= mx2.len() - 1 < mx2.len() && mx2[mx2.len() - 1].ts >= nt.ts && mx2[
                mx2.len() - 1
            ].mid2() >= nt.mid2());
            assert(max_covered(nt, mx2));
        }
    }
}

/// Mirror of [`lemma_step_max`] for the minimum queue.
#[verifier::rlimit(100)]
#[verifier::spinoff_prover]
proof fn lemma_step_min(h: Seq<Tick>, w: Seq<Tick>, mn: Seq<Tick>, nt: Tick, win_ms: u64)
    requires
        h.len() == 0 ==> w.len() == 0 && mn.len() == 0,
        h.len() > 0 ==> ts_sorted(h) && all_fit(h) && window_inv(
            h,
            w,
            cutoff(h.last().ts, win_ms),
        ) && minq_inv(h, w, mn),
        forall|i: int| 0 <= i < h.len() ==> (#[trigger] h[i]).ts <= nt.ts,
        nt.fits(),
    ensures
        minq_inv(
            h.push(nt),
            window_step(w, nt, cutoff(nt.ts, win_ms)),
            min_step(mn, nt, cutoff(nt.ts, win_ms)),
        ),
        all_fit(after_evict(mn, cutoff(nt.ts, win_ms))),
{
    let c = cutoff(nt.ts, win_ms);
    let h2 = h.push(nt);
    let w1 = w.push(nt);
    let kw = stale_count(w1, c);
    let w2 = window_step(w, nt, c);
    let kn = stale_count(mn, c);
    let mn1 = after_evict(mn, c);
    let pn = keep_min(mn1, nt);
    let mn2 = min_step(mn, nt, c);
    lemma_stale_count(w1, c);
    lemma_stale_count(mn, c);
    lemma_keep_min(mn1, nt);
    lemma_step_window(h, w, nt, win_ms);
    assert(nt.ts >= c);
    assert forall|i: int|
        0 <= i < mn.len() implies (#[trigger] mn[i]).ts <= nt.ts && mn[i].fits() by {
        assert(w.contains(mn[i]));
        let widx = choose|widx: int| 0 <= widx < w.len() && w[widx] == mn[i];
        assert(h[h.len() - w.len() + widx] == mn[i]);
    }
    assert(all_fit(mn1)) by {
        assert forall|j: int| 0 <= j < mn1.len() implies (#[trigger] mn1[j]).fits() by {
            assert(mn1[j] == mn[kn + j]);
        }
    }
    assert(ts_sorted(mn2)) by {
        assert forall|i: int, j: int| 0 <= i <= j < mn2.len() implies mn2[i].ts <= mn2[j].ts by {
            if j < pn {
                assert(mn2[i] == mn1[i] && mn2[j] == mn1[j]);
                assert(mn1[i] == mn[kn + i] && mn1[j] == mn[kn + j]);
            } else if i < pn {
                assert(mn2[i] == mn1[i] && mn1[i] == mn[kn + i]);
                assert(mn2[j] == nt);
            }
        }
    }
    assert(asc_mid2(mn2)) by {
        assert forall|i: int, j: int|
            0 <= i < j < mn2.len() implies (#[trigger] mn2[i]).mid2() < (
        #[trigger] mn2[j]).mid2() by {
            if j < pn {
                assert(mn2[i] == mn1[i] && mn2[j] == mn1[j]);
                assert(mn1[i] == mn[kn + i] && mn1[j] == mn[kn + j]);
            } else {
                assert(mn2[j] == nt);
                assert(mn2[i] == mn1[i]);
                assert(mn1[pn - 1].mid2() < nt.mid2());
                if i < pn - 1 {
                    assert(mn1[i] == mn[kn + i] && mn1[pn - 1] == mn[kn + pn - 1]);
                }
            }
        }
    }
    assert(mn2.len() > 0 && mn2.last() == nt && h2.last() == nt);
    assert forall|i: int| 0 <= i < mn2.len() implies #[trigger] w2.contains(mn2[i]) by {
        assert(w2 == w1.subrange(kw, w1.len() as int));
        if i < pn {
            assert(mn2[i] == mn1[i] && mn1[i] == mn[kn + i]);
            let x = mn[kn + i];
            assert(x.ts >= c) by {
                assert(mn[kn].ts >= c);
                assert(mn[kn].ts <= mn[kn + i].ts);
            }
            assert(w.contains(mn[kn + i]));
            let widx = choose|widx: int| 0 <= widx < w.len() && w[widx] == x;
            assert(w1[widx] == x);
            assert(widx >= kw);
            assert(w2[widx - kw] == x);
            assert(w2.contains(x));
        } else {
            assert(mn2[i] == nt);
            assert(w2[w2.len() - 1] == w1[w1.len() - 1]);
            assert(w2.contains(nt));
        }
    }
    assert forall|i: int| 0 <= i < w2.len() implies #[trigger] min_covered(w2[i], mn2) by {
        assert(w2 == w1.subrange(kw, w1.len() as int));
        assert(w2[i] == w1[kw + i]);
        if kw + i < w.len() {
            let x = w[kw + i];
            assert(x.ts <= nt.ts) by {
                assert(h[h.len() - w.len() + kw + i] == x);
            }
            assert(x.ts >= c) by {
                assert(w2[i].ts >= c);
            }
            assert(min_covered(w[kw + i], mn));
            lemma_min_transfer(x, mn, nt, c);
        } else {
            assert(w2[i] == nt);
            assert(0 <= mn2.len() - 1 < mn2.len() && mn2[mn2.len() - 1].ts >= nt.ts && mn2[
                mn2.len() - 1
            ].mid2() <= nt.mid2());
            assert(min_covered(nt, mn2));
        }
    }
}

/// One update step preserves the whole invariant: appending the new tick to
/// the history and window, evicting the stale fronts, and doing the two
/// monotonic insertions yields queues satisfying [`queues_inv`] for the new
/// history.
#[verifier::spinoff_prover]
proof fn lemma_step(h: Seq<Tick>, w: Seq<Tick>, mx: Seq<Tick>, mn: Seq<Tick>, nt: Tick, win_ms: u64)
    requires
        h.len() == 0 ==> w.len() == 0 && mx.len() == 0 && mn.len() == 0,
        h.len() > 0 ==> queues_inv(h, w, mx, mn, win_ms),
        forall|i: int| 0 <= i < h.len() ==> (#[trigger] h[i]).ts <= nt.ts,
        nt.fits(),
    ensures
        queues_inv(
            h.push(nt),
            window_step(w, nt, cutoff(nt.ts, win_ms)),
            max_step(mx, nt, cutoff(nt.ts, win_ms)),
            min_step(mn, nt, cutoff(nt.ts, win_ms)),
            win_ms,
        ),
        all_fit(after_evict(mx, cutoff(nt.ts, win_ms))),
        all_fit(after_evict(mn, cutoff(nt.ts, win_ms))),
{
    reveal(queues_inv);
    let h2 = h.push(nt);
    lemma_step_window(h, w, nt, win_ms);
    lemma_step_max(h, w, mx, nt, win_ms);
    lemma_step_min(h, w, mn, nt, win_ms);
    assert(all_fit(h2)) by {
        assert(forall|i: int| 0 <= i < h.len() ==> h2[i] == h[i]);
    }
}

/// In a state satisfying [`queues_inv`], the window queue is exactly the
/// in-window suffix of the history, and the fronts of the candidate queues
/// are the true extremes over every in-window tick of the history.
#[verifier::spinoff_prover]
pub proof fn lemma_extremes(h: Seq<Tick>, w: Seq<Tick>, mx: Seq<Tick>, mn: Seq<Tick>, win_ms: u64)
    requires
        queues_inv(h, w, mx, mn, win_ms),
    ensures
        0 < w.len() <= h.len(),
        mx.len() > 0 && mn.len() > 0,
        stale_count(h, cutoff(h.last().ts, win_ms)) == h.len() - w.len(),
        w[0] == h[h.len() - w.len()],
        w.last() == h.last(),
        h[h.len() - w.len()].ts >= cutoff(h.last().ts, win_ms),
        h.last().ts >= cutoff(h.last().ts, win_ms),
        w[0].fits() && mx[0].fits() && mn[0].fits() && h.last().fits(),
        forall|i: int|
            0 <= i < h.len() && (#[trigger] h[i]).ts >= cutoff(h.last().ts, win_ms) ==> h[i].mid2()
                <= mx[0].mid2(),
        exists|i: int|
            0 <= i < h.len() && (#[trigger] h[i]).ts >= cutoff(h.last().ts, win_ms) && h[i].mid2()
                == mx[0].mid2(),
        forall|i: int|
            0 <= i < h.len() && (#[trigger] h[i]).ts >= cutoff(h.last().ts, win_ms) ==> h[i].mid2()
                >= mn[0].mid2(),
        exists|i: int|
            0 <= i < h.len() && (#[trigger] h[i]).ts >= cutoff(h.last().ts, win_ms) && h[i].mid2()
                == mn[0].mid2(),
{
    reveal(queues_inv);
    let c = cutoff(h.last().ts, win_ms);
    let s = h.len() - w.len();
    assert(stale_count(h, c) == s) by {
        assert forall|j: int| 0 <= j < s implies (#[trigger] h[j]).ts < c by {
            assert(h[j].ts <= h[s - 1].ts);
        }
        assert(h[s] == w[0]);
        lemma_stale_count_unique(h, c, s);
    }
    assert(w[0] == h[s]);
    assert(w.last() == h.last());
    assert(w[0].fits() && h.last().fits());
    assert(w.contains(mx[0]));
    let wx = choose|wx: int| 0 <= wx < w.len() && w[wx] == mx[0];
    assert(h[s + wx] == mx[0]);
    assert(w.contains(mn[0]));
    let wn = choose|wn: int| 0 <= wn < w.len() && w[wn] == mn[0];
    assert(h[s + wn] == mn[0]);
    lemma_front_max(h, w, mx, c);
    lemma_front_min(h, w, mn, c);
}

/// The front of the maximum candidate queue is the highest price among the
/// in-window ticks of the history, and that price is attained in-window.
#[verifier::spinoff_prover]
proof fn lemma_front_max(h: Seq<Tick>, w: Seq<Tick>, mx: Seq<Tick>, c: int)
    requires
        ts_sorted(h),
        window_inv(h, w, c),
        desc_mid2(mx),
        mx.len() > 0,
        forall|i: int| 0 <= i < mx.len() ==> #[trigger] w.contains(mx[i]),
        forall|i: int| 0 <= i < w.len() ==> #[trigger] max_covered(w[i], mx),
    ensures
        forall|i: int|
            0 <= i < h.len() && (#[trigger] h[i]).ts >= c ==> h[i].mid2() <= mx[0].mid2(),
        exists|i: int| 0 <= i < h.len() && (#[trigger] h[i]).ts >= c && h[i].mid2() == mx[0].mid2(),
{
    let s = h.len() - w.len();
    assert forall|i: int| 0 <= i < h.len() && (#[trigger] h[i]).ts >= c implies h[i].mid2()
        <= mx[0].mid2() by {
        assert(i >= s) by {
            if i < s {
                assert(h[i].ts <= h[s - 1].ts);
            }
        }
        assert(w[i - s] == h[i]);
        assert(max_covered(w[i - s], mx));
        let j = choose|j: int|
            0 <= j < mx.len() && (#[trigger] mx[j]).ts >= w[i - s].ts && mx[j].mid2() >= w[
                i - s
            ].mid2();
        assert(mx[0].mid2() >= mx[j].mid2());
    }
    assert(w.contains(mx[0]));
    let wx = choose|wx: int| 0 <= wx < w.len() && w[wx] == mx[0];
    assert(h[s + wx] == mx[0] && h[s + wx].ts >= c);
}

/// Mirror of [`lemma_front_max`] for the minimum candidate queue.
#[verifier::spinoff_prover]
proof fn lemma_front_min(h: Seq<Tick>, w: Seq<Tick>, mn: Seq<Tick>, c: int)
    requires
        ts_sorted(h),
        window_inv(h, w, c),
        asc_mid2(mn),
        mn.len() > 0,
        forall|i: int| 0 <= i < mn.len() ==> #[trigger] w.contains(mn[i]),
        forall|i: int| 0 <= i < w.len() ==> #[trigger] min_covered(w[i], mn),
    ensures
        forall|i: int|
            0 <= i < h.len() && (#[trigger] h[i]).ts >= c ==> h[i].mid2() >= mn[0].mid2(),
        exists|i: int| 0 <= i < h.len() && (#[trigger] h[i]).ts >= c && h[i].mid2() == mn[0].mid2(),
{
    let s = h.len() - w.len();
    assert forall|i: int| 0 <= i < h.len() && (#[trigger] h[i]).ts >= c implies h[i].mid2()
        >= mn[0].mid2() by {
        assert(i >= s) by {
            if i < s {
                assert(h[i].ts <= h[s - 1].ts);
            }
        }
        assert(w[i - s] == h[i]);
        assert(min_covered(w[i - s], mn));
        let j = choose|j: int|
            0 <= j < mn.len() && (#[trigger] mn[j]).ts >= w[i - s].ts && mn[j].mid2() <= w[
                i - s
            ].mid2();
        assert(mn[0].mid2() <= mn[j].mid2());
    }
    assert(w.contains(mn[0]));
    let wn = choose|wn: int| 0 <= wn < w.len() && w[wn] == mn[0];
    assert(h[s + wn] == mn[0] && h[s + wn].ts >= c);
}

/// The state the aggregator keeps for one instrument symbol: the window
/// queue and the two candidate queues, together with the ghost history of
/// every tick ever seen for the symbol.
pub struct SymbolWindow {
    pub symbol: String,
    pub window: VecDeque<Tick>,
    pub maxq: VecDeque<Tick>,
    pub minq: VecDeque<Tick>,
    pub hist: Ghost<Seq<Tick>>,
}

impl SymbolWindow {
    /// The state before the first tick of the symbol: everything empty.
    pub open spec fn is_fresh(self) -> bool {
        &&& self.hist@.len() == 0
        &&& self.window@.len() == 0
        &&& self.maxq@.len() == 0
        &&& self.minq@.len() == 0
    }

    /// See [`queues_inv`].
    pub open spec fn inv(self, win_ms: u64) -> bool {
        queues_inv(self.hist@, self.window@, self.maxq@, self.minq@, win_ms)
    }

    /// A state ready to take a tick: untouched, or invariant-respecting.
    pub open spec fn ready(self, win_ms: u64) -> bool {
        self.is_fresh() || self.inv(win_ms)
    }

    /// An empty state for a symbol seen for the first time.
    pub fn fresh(symbol: String) -> (s: SymbolWindow)
        ensures
            s.is_fresh(),
            s.symbol@ == symbol@,
    {
        SymbolWindow {
            symbol,
            window: VecDeque::new(),
            maxq: VecDeque::new(),
            minq: VecDeque::new(),
            hist: Ghost(Seq::empty()),
        }
    }

    /// Take one tick and report the OHLC bar of the trailing window that
    /// ends at it.
    ///
    /// The bar's `high` and `low` are promised to be the true extremes of
    /// twice-midpoint price over every history tick inside the window,
    /// `open` is the price of the first such tick, and `close` the price of
    /// the tick just taken; see [`bar_reports`].
    #[verifier::rlimit(100)]
    #[verifier::spinoff_prover]
    pub fn step(self, timestamp: u64, bid: u64, ask: u64, win_ms: u64) -> (r: (SymbolWindow, OHLC))
        requires
            self.ready(win_ms),
            forall|i: int| 0 <= i < self.hist@.len() ==> (#[trigger] self.hist@[i]).ts <= timestamp,
            bid + ask <= u64::MAX,
        ensures
            r.0.inv(win_ms),
            r.0.symbol@ == self.symbol@,
            r.0.hist@ == self.hist@.push((Tick { ts: timestamp, bid, ask })),
            bar_reports(r.1, r.0.hist@, win_ms),
            r.1.open == r.0.window@[0].mid2(),
            r.1.high == r.0.maxq@[0].mid2(),
            r.1.low == r.0.minq@[0].mid2(),
            r.1.close == r.0.window@.last().mid2(),
    {
        let nt = Tick { ts: timestamp, bid, ask };
        let ghost h = self.hist@;
        let ghost h2 = h.push(nt);
        let ghost c = cutoff(timestamp, win_ms);
        let SymbolWindow { symbol, window: w0, maxq: mx0, minq: mn0, hist: _ } = self;
        proof {
            if h.len() == 0 {
                reveal(queues_inv);
            }
            lemma_step(h, w0@, mx0@, mn0@, nt, win_ms);
            lemma_extremes(
                h2,
                window_step(w0@, nt, c),
                max_step(mx0@, nt, c),
                min_step(mn0@, nt, c),
                win_ms,
            );
            assert(h2[h2.len() - 1] == nt && h2.last() == nt);
        }
        let mut window = w0;
        window.push_back(nt);
        let cut: u64 = if timestamp >= win_ms {
            timestamp - win_ms
        } else {
            0
        };
        let window = remove_outdated_entry(cut, window);
        let maxq0 = remove_outdated_entry(cut, mx0);
        let minq0 = remove_outdated_entry(cut, mn0);
        let maxq = push_max(maxq0, nt);
        let minq = push_min(minq0, nt);
        proof {
            assert(window@ == window_step(w0@, nt, c));
            assert(maxq@ == max_step(mx0@, nt, c));
            assert(minq@ == min_step(mn0@, nt, c));
        }
        let first = window[0];
        let hi = maxq[0];
        let lo = minq[0];
        let bar = OHLC {
            open: first.bid + first.ask,
            high: hi.bid + hi.ask,
            low: lo.bid + lo.ask,
            close: bid + ask,
        };
        (SymbolWindow { symbol, window, maxq, minq, hist: Ghost(h2) }, bar)
    }
}

/// What one reported bar means against the symbol's full tick history `h`
/// (whose last tick is the one just taken): with `c` the cutoff of the
/// trailing window, `open` is the price of the first in-window tick, `high`
/// and `low` are the true extremes over all in-window ticks, `close` is the
/// price of the newest tick, and the four of them are ordered as an OHLC
/// bar must be. Prices are twice the midpoint, see [`Tick::mid2`].
pub open spec fn bar_reports(bar: OHLC, h: Seq<Tick>, win_ms: u64) -> bool {
    let c = cutoff(h.last().ts, win_ms);
    &&& bar.open == h[stale_count(h, c)].mid2()
    &&& bar.close == h.last().mid2()
    &&& forall|i: int| 0 <= i < h.len() && (#[trigger] h[i]).ts >= c ==> h[i].mid2() <= bar.high
    &&& exists|i: int| 0 <= i < h.len() && (#[trigger] h[i]).ts >= c && h[i].mid2() == bar.high
    &&& forall|i: int| 0 <= i < h.len() && (#[trigger] h[i]).ts >= c ==> h[i].mid2() >= bar.low
    &&& exists|i: int| 0 <= i < h.len() && (#[trigger] h[i]).ts >= c && h[i].mid2() == bar.low
    &&& bar.low <= bar.open <= bar.high
    &&& bar.low <= bar.close <= bar.high
}

} // verus!
