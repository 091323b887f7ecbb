// Behavioural tests for the rolling OHLC aggregator.
//
// Prices go in as fixed-point integers scaled by 1_000_000 per unit, so a
// quote of 1.1000/1.1002 is (1_100_000, 1_100_200). Every reported bar
// field is `bid + ask` of the tick it comes from, i.e. the midpoint scaled
// by 2_000_000: the midpoint 1.1001 reads back as 2_200_200.
use ohlc_calculator::OHLC;
use ohlc_calculator::RollingOHLC;

#[test]
fn first_tick_reports_its_own_midpoint() {
    // A first-ever tick at t=0 with a 5-minute window: the saturating
    // cutoff must not underflow, and the bar is flat at the tick's price.
    let mut agg = RollingOHLC::new(5);
    let bar = agg.update("EURUSD", 0, 1_100_000, 1_100_200);
    assert_eq!(
        bar,
        OHLC { open: 2_200_200, high: 2_200_200, low: 2_200_200, close: 2_200_200 }
    );
}

#[test]
fn three_ticks_inside_the_window() {
    // 5-minute window, ticks at 0s, 60s and 120s; all three stay inside.
    let mut agg = RollingOHLC::new(5);
    let b1 = agg.update("EURUSD", 0, 1_100_000, 1_100_200);
    assert_eq!(b1, OHLC { open: 2_200_200, high: 2_200_200, low: 2_200_200, close: 2_200_200 });
    let b2 = agg.update("EURUSD", 60_000, 1_101_000, 1_101_200);
    assert_eq!(b2, OHLC { open: 2_200_200, high: 2_202_200, low: 2_200_200, close: 2_202_200 });
    let b3 = agg.update("EURUSD", 120_000, 1_099_000, 1_099_200);
    // Midpoints 1.1001 (open), 1.1011 (high), 1.0991 (low and close).
    assert_eq!(b3, OHLC { open: 2_200_200, high: 2_202_200, low: 2_198_200, close: 2_198_200 });
}

#[test]
fn fourth_tick_evicts_the_first() {
    // A 4th tick at 5.5 minutes: cutoff is 30000, so the t=0 tick leaves
    // and the open becomes the midpoint of the t=60000 tick.
    let mut agg = RollingOHLC::new(5);
    agg.update("EURUSD", 0, 1_100_000, 1_100_200);
    agg.update("EURUSD", 60_000, 1_101_000, 1_101_200);
    agg.update("EURUSD", 120_000, 1_099_000, 1_099_200);
    let b4 = agg.update("EURUSD", 330_000, 1_100_000, 1_100_200);
    assert_eq!(b4.open, 2_202_200);
    assert_eq!(b4.high, 2_202_200);
    assert_eq!(b4.low, 2_198_200);
    assert_eq!(b4.close, 2_200_200);
    // Only the ticks at 60s, 120s and 330s are left in the window.
    assert_eq!(agg.queue_lengths("EURUSD").unwrap().0, 3);
}

#[test]
fn equal_midpoints_keep_only_the_later_candidate() {
    // Two ticks with the same midpoint: the maximum queue keeps only the
    // later one, so evicting the earlier tick does not lower the high.
    let mut agg = RollingOHLC::new(5);
    agg.update("EURUSD", 0, 1_000_000, 1_200_000);
    agg.update("EURUSD", 60_000, 1_100_000, 1_100_000);
    let (window_len, max_len, min_len) = agg.queue_lengths("EURUSD").unwrap();
    assert_eq!(window_len, 2);
    assert_eq!(max_len, 1);
    assert_eq!(min_len, 1);
    // The t=0 tick falls out; the high must still be the shared midpoint,
    // carried by the surviving t=60000 candidate.
    let b3 = agg.update("EURUSD", 330_000, 1_000_000, 1_000_000);
    assert_eq!(b3.high, 2_200_000);
    assert_eq!(b3.open, 2_200_000);
    assert_eq!(b3.low, 2_000_000);
    assert_eq!(b3.close, 2_000_000);
}

#[test]
fn symbols_are_independent() {
    let mut agg = RollingOHLC::new(5);
    agg.update("EURUSD", 0, 1_100_000, 1_100_200);
    agg.update("USDJPY", 10, 144_000_000, 144_020_000);
    let b = agg.update("EURUSD", 60_000, 1_100_000, 1_100_200);
    // The yen prices never leak into the euro bar.
    assert_eq!(b.high, 2_200_200);
    assert_eq!(b.low, 2_200_200);
    assert_eq!(agg.queue_lengths("USDJPY").unwrap().0, 1);
    assert!(agg.queue_lengths("GBPUSD").is_none());
}

#[test]
fn huge_window_never_evicts() {
    // The window span saturates instead of overflowing, which makes the
    // window effectively unbounded: nothing is ever evicted.
    let mut agg = RollingOHLC::new(usize::MAX);
    agg.update("EURUSD", 0, 2_000_000, 2_000_000);
    let b = agg.update("EURUSD", 1_000_000_000_000_000, 1_000_000, 1_000_000);
    assert_eq!(b.open, 4_000_000);
    assert_eq!(b.high, 4_000_000);
    assert_eq!(b.low, 2_000_000);
    assert_eq!(agg.queue_lengths("EURUSD").unwrap().0, 2);
}

/// A naive O(window) recomputation used as the oracle: the bar over all
/// remembered ticks whose timestamp is at or after the cutoff.
fn naive_bar(ticks: &[(u64, u64, u64)], now: u64, window_ms: u64) -> OHLC {
    let cut: u64 = now.saturating_sub(window_ms);
    let in_window: Vec<u64> = ticks
        .iter()
        .filter(|t| t.0 >= cut)
        .map(|t| t.1 + t.2)
        .collect();
    OHLC {
        open: *in_window.first().unwrap(),
        high: *in_window.iter().max().unwrap(),
        low: *in_window.iter().min().unwrap(),
        close: *in_window.last().unwrap(),
    }
}

#[test]
fn matches_naive_recomputation() {
    // A deterministic pseudo-random stream over two symbols; after every
    // update the bar must equal the naive recomputation, the bar must be
    // ordered, and the candidate queues must not outgrow the window queue.
    let window_minutes: usize = 5;
    let window_ms: u64 = window_minutes as u64 * 60_000;
    let mut agg = RollingOHLC::new(window_minutes);
    let mut seen: [Vec<(u64, u64, u64)>; 2] = [Vec::new(), Vec::new()];
    let mut clocks: [u64; 2] = [0, 0];
    let mut state: u64 = 0x2545_F491_4F6C_DD1D;
    for round in 0u64..400 {
        state = state.wrapping_mul(6364136223846793005).wrapping_add(1442695040888963407);
        let which: usize = (round % 2) as usize;
        let symbol = if which == 0 { "EURUSD" } else { "USDJPY" };
        // Advance this symbol's clock by 0..150 seconds, sometimes zero to
        // exercise equal timestamps.
        clocks[which] += (state >> 32) % 150_000;
        let bid: u64 = 1_000_000 + (state % 50_000);
        let ask: u64 = bid + (state >> 48) % 1_000;
        let ts: u64 = clocks[which];
        let bar = agg.update(symbol, ts, bid, ask);
        seen[which].push((ts, bid, ask));
        let expect = naive_bar(&seen[which], ts, window_ms);
        assert_eq!(bar, expect, "bar diverged from the oracle at round {round}");
        assert!(bar.high >= bar.open && bar.high >= bar.close);
        assert!(bar.low <= bar.open && bar.low <= bar.close);
        assert!(bar.low <= bar.high);
        let (window_len, max_len, min_len) = agg.queue_lengths(symbol).unwrap();
        let cut: u64 = ts.saturating_sub(window_ms);
        let expect_window: usize = seen[which].iter().filter(|t| t.0 >= cut).count();
        assert_eq!(window_len, expect_window);
        assert!(max_len <= window_len);
        assert!(min_len <= window_len);
        assert!(max_len >= 1 && min_len >= 1);
    }
}
