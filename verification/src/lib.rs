//! A streaming, time-windowed OHLC (open/high/low/close) aggregator.
//!
//! The aggregator ingests bid/ask quotes ("ticks") per instrument symbol, in
//! timestamp order, and after every tick reports the open, high, low and
//! close of the trailing time window ending at that tick. The high and low
//! are answered in amortized constant time with monotonic double-ended
//! queues.
//!
//! Prices are fixed-point integers in a unit chosen by the caller (for
//! example micro-units). The single scalar price of a tick is its midpoint
//! `(bid + ask) / 2`; to keep the arithmetic exact, every reported price is
//! *twice* the midpoint, that is `bid + ask`, in the caller's unit.
mod queues;
mod rolling;
mod tick;
mod window;

pub use rolling::RollingOHLC;
pub use tick::OHLC;
pub use tick::Tick;
pub use tick::cutoff;
pub use tick::stale_count;
pub use tick::ts_sorted;
pub use window::bar_reports;
