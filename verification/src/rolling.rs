//! The aggregator: a table of per-symbol window states, one update
//! operation, and the laws that hold of every reachable state.
use vstd::prelude::*;

use crate::tick::OHLC;
use crate::tick::Tick;
use crate::tick::cutoff;
use crate::tick::stale_count;
use crate::window::SymbolWindow;
use crate::window::bar_reports;
use crate::window::lemma_extremes;
use crate::window::queues_inv;

verus! {

/// A streaming OHLC aggregator over a trailing time window of a fixed
/// span. Each instrument symbol gets its own window state, created lazily
/// on its first tick.
pub struct RollingOHLC {
    window_ms: u64,
    entries: Vec<SymbolWindow>,
}

impl RollingOHLC {
    /// The span of the trailing window in milliseconds.
    pub closed spec fn window_millis(self) -> u64 {
        self.window_ms
    }

    /// Whether the aggregator has seen a tick for this symbol.
    pub closed spec fn has_symbol(self, sym: Seq<char>) -> bool {
        exists|i: int|
            0 <= i < self.entries@.len() && (#[trigger] self.entries@[i]).symbol@ == sym
    }

    /// The index of the symbol's state in the table.
    pub closed spec fn sym_idx(self, sym: Seq<char>) -> int {
        choose|i: int|
            0 <= i < self.entries@.len() && (#[trigger] self.entries@[i]).symbol@ == sym
    }

    /// Every tick ever taken for the symbol, in arrival order.
    pub closed spec fn history(self, sym: Seq<char>) -> Seq<Tick> {
        self.entries@[self.sym_idx(sym)].hist@
    }

    /// The symbol's history, or the empty sequence before its first tick.
    pub open spec fn history_or_empty(self, sym: Seq<char>) -> Seq<Tick> {
        if self.has_symbol(sym) {
            self.history(sym)
        } else {
            Seq::empty()
        }
    }

    /// The symbol's window queue: the ticks still inside the window.
    pub closed spec fn window_queue(self, sym: Seq<char>) -> Seq<Tick> {
        self.entries@[self.sym_idx(sym)].window@
    }

    /// The symbol's maximum candidate queue.
    pub closed spec fn max_queue(self, sym: Seq<char>) -> Seq<Tick> {
        self.entries@[self.sym_idx(sym)].maxq@
    }

    /// The symbol's minimum candidate queue.
    pub closed spec fn min_queue(self, sym: Seq<char>) -> Seq<Tick> {
        self.entries@[self.sym_idx(sym)].minq@
    }

    /// Well-formed: one state per symbol, each obeying the three-queue
    /// invariant [`queues_inv`] for this window span.
    pub closed spec fn wf(self) -> bool {
        &&& forall|i: int, j: int|
            0 <= i < j < self.entries@.len() ==> (#[trigger] self.entries@[i]).symbol@ != (
            #[trigger] self.entries@[j]).symbol@
        &&& forall|i: int|
            0 <= i < self.entries@.len() ==> (#[trigger] self.entries@[i]).inv(self.window_ms)
    }

    /// With distinct symbols, an entry holding the symbol is the one the
    /// accessors read.
    proof fn lemma_found(self, sym: Seq<char>, i: int)
        requires
            self.wf(),
            0 <= i < self.entries@.len(),
            self.entries@[i].symbol@ == sym,
        ensures
            self.has_symbol(sym),
            self.sym_idx(sym) == i,
    {
        assert(self.has_symbol(sym));
        let j = self.sym_idx(sym);
        if j != i {
            if j < i {
                assert(self.entries@[j].symbol@ != self.entries@[i].symbol@);
            } else {
                assert(self.entries@[i].symbol@ != self.entries@[j].symbol@);
            }
        }
    }

    /// A fresh aggregator over a window of `window_size` minutes, with no
    /// symbols yet. The span in milliseconds saturates at the
    /// representable maximum, which in practice means an unbounded window.
    pub fn new(window_size: usize) -> (r: RollingOHLC)
        requires
            window_size >= 1,
        ensures
            r.wf(),
            forall|sym: Seq<char>| !r.has_symbol(sym),
            r.window_millis() == (if window_size * 60000 <= u64::MAX {
                (window_size * 60000) as u64
            } else {
                u64::MAX
            }),
    {
        let ws = window_size as u64;
        let window_ms: u64 = if ws <= u64::MAX / 60000 {
            ws * 60000
        } else {
            u64::MAX
        };
        RollingOHLC { window_ms, entries: Vec::new() }
    }

    /// Linear search for the symbol's entry.
    fn find(&self, symbol: &String) -> (r: Option<usize>)
        ensures
            match r {
                Some(i) => 0 <= i < self.entries@.len() && self.entries@[i as int].symbol@
                    == symbol@,
                None => forall|j: int|
                    0 <= j < self.entries@.len() ==> (#[trigger] self.entries@[j]).symbol@
                        != symbol@,
            },
    {
        let mut i: usize = 0;
        while i < self.entries.len()
            invariant
                i <= self.entries@.len(),
                forall|j: int|
                    0 <= j < i ==> (#[trigger] self.entries@[j]).symbol@ != symbol@,
            decreases self.entries@.len() - i,
        {
            if self.entries[i].symbol == *symbol {
                return Some(i);
            }
            i = i + 1;
        }
        None
    }

    /// Take one tick for `symbol` and report the OHLC bar of the trailing
    /// window ending at it.
    ///
    /// Ticks of one symbol must arrive with non-decreasing timestamps; the
    /// bar is then exact: its `high` and `low` are the extremes of
    /// twice-midpoint price over every tick of the symbol whose timestamp
    /// is at or after the cutoff, `open` is the price of the first such
    /// tick and `close` the price of this one (see [`bar_reports`]). Other
    /// symbols' states are untouched.
    pub fn update(&mut self, symbol: &str, timestamp: u64, bid: u64, ask: u64) -> (r: OHLC)
        requires
            old(self).wf(),
            bid + ask <= u64::MAX,
            forall|i: int|
                0 <= i < old(self).history_or_empty(symbol@).len()
                    ==> (#[trigger] old(self).history_or_empty(symbol@)[i]).ts <= timestamp,
        ensures
            final(self).wf(),
            final(self).window_millis() == old(self).window_millis(),
            final(self).has_symbol(symbol@),
            final(self).history(symbol@) == old(self).history_or_empty(symbol@).push(
                (Tick { ts: timestamp, bid, ask }),
            ),
            forall|s: Seq<char>|
                s != symbol@ ==> final(self).has_symbol(s) == old(self).has_symbol(s),
            forall|s: Seq<char>|
                s != symbol@ && old(self).has_symbol(s) ==> final(self).history(s)
                    == old(self).history(s) && final(self).window_queue(s)
                    == old(self).window_queue(s) && final(self).max_queue(s)
                    == old(self).max_queue(s) && final(self).min_queue(s)
                    == old(self).min_queue(s),
            bar_reports(r, final(self).history(symbol@), final(self).window_millis()),
    {
        let ghost e0 = self.entries@;
        let sym_string: String = symbol.to_owned();
        let found = self.find(&sym_string);
        match found {
            Some(i) => {
                proof {
                    old(self).lemma_found(symbol@, i as int);
                }
                let sw = self.entries.remove(i);
                proof {
                    assert(sw == e0[i as int]);
                    assert(sw.inv(self.window_ms));
                    assert(sw.hist@ == old(self).history(symbol@));
                    assert(old(self).history_or_empty(symbol@) == sw.hist@);
                    assert forall|k: int| 0 <= k < sw.hist@.len() implies (
                    #[trigger] sw.hist@[k]).ts <= timestamp by {
                        assert(old(self).history_or_empty(symbol@)[k].ts <= timestamp);
                    }
                }
                let (sw2, bar) = sw.step(timestamp, bid, ask, self.window_ms);
                self.entries.insert(i, sw2);
                proof {
                    assert(self.entries@ =~= e0.update(i as int, sw2)) by {
                        e0.remove_ensures(i as int);
                        e0.remove(i as int).insert_ensures(i as int, sw2);
                    }
                    self.lemma_update_post(*old(self), symbol@, i as int, sw2);
                }
                bar
            },
            None => {
                let sw = SymbolWindow::fresh(sym_string);
                let (sw2, bar) = sw.step(timestamp, bid, ask, self.window_ms);
                self.entries.push(sw2);
                proof {
                    self.lemma_push_post(*old(self), symbol@, sw2);
                }
                bar
            },
        }
    }

    /// After replacing the found entry in place, the table is well-formed
    /// again and every accessor reads as expected.
    proof fn lemma_update_post(self, prev: RollingOHLC, sym: Seq<char>, i: int, sw2: SymbolWindow)
        requires
            prev.wf(),
            0 <= i < prev.entries@.len(),
            prev.entries@[i].symbol@ == sym,
            sw2.symbol@ == sym,
            sw2.inv(prev.window_ms),
            self.window_ms == prev.window_ms,
            self.entries@ == prev.entries@.update(i, sw2),
        ensures
            self.wf(),
            self.has_symbol(sym),
            self.history(sym) == sw2.hist@,
            self.window_queue(sym) == sw2.window@,
            self.max_queue(sym) == sw2.maxq@,
            self.min_queue(sym) == sw2.minq@,
            forall|s: Seq<char>| s != sym ==> self.has_symbol(s) == prev.has_symbol(s),
            forall|s: Seq<char>|
                s != sym && prev.has_symbol(s) ==> self.history(s) == prev.history(s)
                    && self.window_queue(s) == prev.window_queue(s) && self.max_queue(s)
                    == prev.max_queue(s) && self.min_queue(s) == prev.min_queue(s),
    {
        assert(forall|j: int|
            0 <= j < self.entries@.len() && j != i ==> self.entries@[j] == prev.entries@[j]);
        assert(self.entries@[i] == sw2);
        assert(self.wf());
        self.lemma_found(sym, i);
        assert forall|s: Seq<char>| s != sym implies self.has_symbol(s) == prev.has_symbol(
            s,
        ) by {
            if prev.has_symbol(s) {
                let j = prev.sym_idx(s);
                assert(self.entries@[j].symbol@ == s);
                assert(self.has_symbol(s));
            }
            if self.has_symbol(s) {
                let j = self.sym_idx(s);
                assert(prev.entries@[j].symbol@ == s);
                assert(prev.has_symbol(s));
            }
        }
        assert forall|s: Seq<char>| s != sym && prev.has_symbol(s) implies self.history(s)
            == prev.history(s) && self.window_queue(s) == prev.window_queue(s) && self.max_queue(s)
            == prev.max_queue(s) && self.min_queue(s) == prev.min_queue(s) by {
            let j = prev.sym_idx(s);
            prev.lemma_found(s, j);
            assert(self.entries@[j].symbol@ == s);
            self.lemma_found(s, j);
        }
    }

    /// After appending a first entry for a new symbol, the table is
    /// well-formed again and every accessor reads as expected.
    proof fn lemma_push_post(self, prev: RollingOHLC, sym: Seq<char>, sw2: SymbolWindow)
        requires
            prev.wf(),
            forall|j: int|
                0 <= j < prev.entries@.len() ==> (#[trigger] prev.entries@[j]).symbol@ != sym,
            sw2.symbol@ == sym,
            sw2.inv(prev.window_ms),
            self.window_ms == prev.window_ms,
            self.entries@ == prev.entries@.push(sw2),
        ensures
            self.wf(),
            self.has_symbol(sym),
            self.history(sym) == sw2.hist@,
            self.window_queue(sym) == sw2.window@,
            self.max_queue(sym) == sw2.maxq@,
            self.min_queue(sym) == sw2.minq@,
            forall|s: Seq<char>| s != sym ==> self.has_symbol(s) == prev.has_symbol(s),
            forall|s: Seq<char>|
                s != sym && prev.has_symbol(s) ==> self.history(s) == prev.history(s)
                    && self.window_queue(s) == prev.window_queue(s) && self.max_queue(s)
                    == prev.max_queue(s) && self.min_queue(s) == prev.min_queue(s),
    {
        let n = prev.entries@.len() as int;
        assert(forall|j: int| 0 <= j < n ==> self.entries@[j] == prev.entries@[j]);
        assert(self.entries@[n] == sw2);
        assert(self.wf());
        self.lemma_found(sym, n);
        assert forall|s: Seq<char>| s != sym implies self.has_symbol(s) == prev.has_symbol(
            s,
        ) by {
            if prev.has_symbol(s) {
                let j = prev.sym_idx(s);
                assert(self.entries@[j].symbol@ == s);
                assert(self.has_symbol(s));
            }
            if self.has_symbol(s) {
                let j = self.sym_idx(s);
                assert(0 <= j < n + 1);
                assert(prev.entries@[j].symbol@ == s);
                assert(prev.has_symbol(s));
            }
        }
        assert forall|s: Seq<char>| s != sym && prev.has_symbol(s) implies self.history(s)
            == prev.history(s) && self.window_queue(s) == prev.window_queue(s) && self.max_queue(s)
            == prev.max_queue(s) && self.min_queue(s) == prev.min_queue(s) by {
            let j = prev.sym_idx(s);
            prev.lemma_found(s, j);
            assert(self.entries@[j].symbol@ == s);
            self.lemma_found(s, j);
        }
    }
}

/// A queue of pairwise-distinct ticks all drawn from `w` cannot be longer
/// than `w`.
proof fn lemma_subseq_len(q: Seq<Tick>, w: Seq<Tick>)
    requires
        q.no_duplicates(),
        forall|i: int| 0 <= i < q.len() ==> #[trigger] w.contains(q[i]),
    ensures
        q.len() <= w.len(),
{
    broadcast use vstd::set::group_set_axioms;
    broadcast use vstd::seq_lib::seq_to_set_is_finite;

    q.unique_seq_to_set();
    w.lemma_cardinality_of_set();
    assert(q.to_set().subset_of(w.to_set())) by {
        assert forall|x: Tick| q.to_set().contains(x) implies w.to_set().contains(x) by {
            assert(q.contains(x));
            let i = choose|i: int| 0 <= i < q.len() && q[i] == x;
            assert(w.contains(q[i]));
        }
    }
    vstd::set_lib::lemma_len_subset(q.to_set(), w.to_set());
}

impl RollingOHLC {
    /// Brings the symbol's state and its invariant into scope.
    proof fn lemma_entry_inv(self, sym: Seq<char>)
        requires
            self.wf(),
            self.has_symbol(sym),
        ensures
            queues_inv(
                self.history(sym),
                self.window_queue(sym),
                self.max_queue(sym),
                self.min_queue(sym),
                self.window_millis(),
            ),
    {
        let i = self.sym_idx(sym);
        assert(0 <= i < self.entries@.len() && self.entries@[i].symbol@ == sym);
        assert(self.entries@[i].inv(self.window_ms));
    }

    /// Eviction correctness: no queue for the symbol holds a tick strictly
    /// older than the cutoff of the trailing window ending at the newest
    /// tick.
    pub proof fn lemma_no_stale_ticks(self, sym: Seq<char>)
        requires
            self.wf(),
            self.has_symbol(sym),
        ensures
            forall|i: int|
                0 <= i < self.window_queue(sym).len() ==> (#[trigger] self.window_queue(
                    sym,
                )[i]).ts >= cutoff(self.history(sym).last().ts, self.window_millis()),
            forall|i: int|
                0 <= i < self.max_queue(sym).len() ==> (#[trigger] self.max_queue(sym)[i]).ts
                    >= cutoff(self.history(sym).last().ts, self.window_millis()),
            forall|i: int|
                0 <= i < self.min_queue(sym).len() ==> (#[trigger] self.min_queue(sym)[i]).ts
                    >= cutoff(self.history(sym).last().ts, self.window_millis()),
    {
        reveal(queues_inv);
        self.lemma_entry_inv(sym);
        let w = self.window_queue(sym);
        let mx = self.max_queue(sym);
        let mn = self.min_queue(sym);
        let c = cutoff(self.history(sym).last().ts, self.window_millis());
        assert forall|i: int| 0 <= i < mx.len() implies (#[trigger] mx[i]).ts >= c by {
            assert(w.contains(mx[i]));
            let widx = choose|widx: int| 0 <= widx < w.len() && w[widx] == mx[i];
            assert(w[widx].ts >= c);
        }
        assert forall|i: int| 0 <= i < mn.len() implies (#[trigger] mn[i]).ts >= c by {
            assert(w.contains(mn[i]));
            let widx = choose|widx: int| 0 <= widx < w.len() && w[widx] == mn[i];
            assert(w[widx].ts >= c);
        }
    }

    /// The candidate queues never outgrow the window queue.
    pub proof fn lemma_queue_sizes(self, sym: Seq<char>)
        requires
            self.wf(),
            self.has_symbol(sym),
        ensures
            self.max_queue(sym).len() <= self.window_queue(sym).len(),
            self.min_queue(sym).len() <= self.window_queue(sym).len(),
    {
        reveal(queues_inv);
        self.lemma_entry_inv(sym);
        let w = self.window_queue(sym);
        let mx = self.max_queue(sym);
        let mn = self.min_queue(sym);
        assert(mx.no_duplicates()) by {
            assert forall|i: int, j: int|
                0 <= i < mx.len() && 0 <= j < mx.len() && i != j implies mx[i] != mx[j] by {
                if i < j {
                    assert(mx[i].mid2() > mx[j].mid2());
                } else {
                    assert(mx[j].mid2() > mx[i].mid2());
                }
            }
        }
        assert(mn.no_duplicates()) by {
            assert forall|i: int, j: int|
                0 <= i < mn.len() && 0 <= j < mn.len() && i != j implies mn[i] != mn[j] by {
                if i < j {
                    assert(mn[i].mid2() < mn[j].mid2());
                } else {
                    assert(mn[j].mid2() < mn[i].mid2());
                }
            }
        }
        lemma_subseq_len(mx, w);
        lemma_subseq_len(mn, w);
    }

    /// The window queue is exactly the suffix of the history at or after
    /// the cutoff, and the candidate-queue fronts are the true extremes of
    /// twice-midpoint price over that suffix, each attained by some
    /// in-window tick.
    pub proof fn lemma_window_exact(self, sym: Seq<char>)
        requires
            self.wf(),
            self.has_symbol(sym),
        ensures
            self.window_queue(sym) == self.history(sym).subrange(
                stale_count(
                    self.history(sym),
                    cutoff(self.history(sym).last().ts, self.window_millis()),
                ),
                self.history(sym).len() as int,
            ),
            self.max_queue(sym).len() > 0,
            self.min_queue(sym).len() > 0,
            forall|i: int|
                0 <= i < self.history(sym).len() && (#[trigger] self.history(sym)[i]).ts >= cutoff(
                    self.history(sym).last().ts,
                    self.window_millis(),
                ) ==> self.history(sym)[i].mid2() <= self.max_queue(sym)[0].mid2(),
            exists|i: int|
                0 <= i < self.history(sym).len() && (#[trigger] self.history(sym)[i]).ts >= cutoff(
                    self.history(sym).last().ts,
                    self.window_millis(),
                ) && self.history(sym)[i].mid2() == self.max_queue(sym)[0].mid2(),
            forall|i: int|
                0 <= i < self.history(sym).len() && (#[trigger] self.history(sym)[i]).ts >= cutoff(
                    self.history(sym).last().ts,
                    self.window_millis(),
                ) ==> self.history(sym)[i].mid2() >= self.min_queue(sym)[0].mid2(),
            exists|i: int|
                0 <= i < self.history(sym).len() && (#[trigger] self.history(sym)[i]).ts >= cutoff(
                    self.history(sym).last().ts,
                    self.window_millis(),
                ) && self.history(sym)[i].mid2() == self.min_queue(sym)[0].mid2(),
    {
        reveal(queues_inv);
        self.lemma_entry_inv(sym);
        let h = self.history(sym);
        let w = self.window_queue(sym);
        lemma_extremes(
            h,
            w,
            self.max_queue(sym),
            self.min_queue(sym),
            self.window_millis(),
        );
        assert(stale_count(h, cutoff(h.last().ts, self.window_millis())) == h.len() - w.len());
    }

    /// How long the three queues for the symbol currently are: window,
    /// maximum and minimum queue, or nothing before the symbol's first
    /// tick.
    pub fn queue_lengths(&self, symbol: &str) -> (r: Option<(usize, usize, usize)>)
        requires
            self.wf(),
        ensures
            r.is_some() == self.has_symbol(symbol@),
            r.is_some() ==> r.unwrap().0 == self.window_queue(symbol@).len() && r.unwrap().1
                == self.max_queue(symbol@).len() && r.unwrap().2 == self.min_queue(
                symbol@,
            ).len(),
    {
        let sym_string: String = symbol.to_owned();
        match self.find(&sym_string) {
            Some(i) => {
                proof {
                    self.lemma_found(symbol@, i as int);
                }
                let e = &self.entries[i];
                Some((e.window.len(), e.maxq.len(), e.minq.len()))
            },
            None => {
                proof {
                    if self.has_symbol(symbol@) {
                        let j = self.sym_idx(symbol@);
                        assert(self.entries@[j].symbol@ != symbol@);
                    }
                }
                None
            },
        }
    }
}

} // verus!
