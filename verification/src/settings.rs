//! The refresh interval, shared between the window and the sampling thread.

use vstd::prelude::*;

use std::sync::atomic::{AtomicU64, Ordering};
use std::sync::Arc;

verus! {

/// The refresh interval a new handle starts with, in milliseconds.
pub const DEFAULT_REFRESH_MS: u64 = 1000;

/// The shortest refresh interval accepted, in milliseconds.
pub const MIN_REFRESH_MS: u64 = 100;

/// The longest refresh interval accepted, in milliseconds.
pub const MAX_REFRESH_MS: u64 = 30000;

/// `ms` brought into `[MIN_REFRESH_MS, MAX_REFRESH_MS]`.
pub open spec fn clamped_refresh(ms: u64) -> u64 {
    if ms < MIN_REFRESH_MS {
        MIN_REFRESH_MS
    } else if ms > MAX_REFRESH_MS {
        MAX_REFRESH_MS
    } else {
        ms
    }
}

/// The interval used is always in range, an interval in range is kept as
/// asked, and asking again for the interval in use changes nothing.
pub proof fn law_clamp_refresh(ms: u64)
    ensures
        MIN_REFRESH_MS <= clamped_refresh(ms) <= MAX_REFRESH_MS,
        MIN_REFRESH_MS <= ms <= MAX_REFRESH_MS ==> clamped_refresh(ms) == ms,
        clamped_refresh(clamped_refresh(ms)) == clamped_refresh(ms),
{
}

/// The interval actually used when `ms` is asked for.
pub fn clamp_refresh_ms(ms: u64) -> (r: u64)
    ensures
        r == clamped_refresh(ms),
        MIN_REFRESH_MS <= r <= MAX_REFRESH_MS,
{
    if ms < MIN_REFRESH_MS {
        MIN_REFRESH_MS
    } else if ms > MAX_REFRESH_MS {
        MAX_REFRESH_MS
    } else {
        ms
    }
}

/// The quick-pick intervals offered on the settings page, with their labels.
pub fn refresh_presets() -> (r: Vec<(u64, &'static str)>)
    ensures
        r@.len() == 6,
        r@[0] == (250u64, "4× / s"),
        r@[1] == (500u64, "2× / s"),
        r@[2] == (1000u64, "1× / s"),
        r@[3] == (2000u64, "Every 2 s"),
        r@[4] == (5000u64, "Every 5 s"),
        r@[5] == (10000u64, "Every 10 s"),
{
    vec![
        (250, "4× / s"),
        (500, "2× / s"),
        (1000, "1× / s"),
        (2000, "Every 2 s"),
        (5000, "Every 5 s"),
        (10000, "Every 10 s"),
    ]
}

/// A handle on the refresh interval. Copies share one value: the sampling
/// thread keeps one and reads it on each tick, the window writes through
/// another.
pub struct Settings {
    refresh_ms: Arc<AtomicU64>,
}

impl Settings {
    /// The shared value behind this handle.
    pub closed spec fn shared(&self) -> Arc<AtomicU64> {
        self.refresh_ms
    }

    /// A handle that starts at `DEFAULT_REFRESH_MS`.
    pub fn new() -> (r: Self) {
        Settings { refresh_ms: Arc::new(AtomicU64::new(DEFAULT_REFRESH_MS)) }
    }

    /// The interval now in force. Any holder of a copy of the handle may have
    /// changed it, so nothing is promised of the value read.
    pub fn refresh_ms(&self) -> (r: u64) {
        self.refresh_ms.load(Ordering::Relaxed)
    }

    /// Asks for an interval of `ms`; the value stored is
    /// `clamp_refresh_ms(ms)`.
    pub fn set_refresh_ms(&self, ms: u64) {
        let v = clamp_refresh_ms(ms);
        self.refresh_ms.store(v, Ordering::Relaxed);
    }

    /// The shared value itself, for the sampling thread.
    pub fn refresh_handle(&self) -> (r: Arc<AtomicU64>)
        ensures
            r == self.shared(),
    {
        self.refresh_ms.clone()
    }
}

impl Clone for Settings {
    /// Another handle on the same value.
    fn clone(&self) -> (r: Self)
        ensures
            r.shared() == self.shared(),
    {
        Settings { refresh_ms: self.refresh_ms.clone() }
    }
}

impl Default for Settings {
    fn default() -> (r: Self) {
        Settings::new()
    }
}

} // verus!
