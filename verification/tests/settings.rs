use rproc::settings::{
    clamp_refresh_ms, refresh_presets, Settings, DEFAULT_REFRESH_MS, MAX_REFRESH_MS, MIN_REFRESH_MS,
};
use std::sync::atomic::Ordering;

#[test]
fn clamp_keeps_the_interval_in_range() {
    assert_eq!(clamp_refresh_ms(0), MIN_REFRESH_MS);
    assert_eq!(clamp_refresh_ms(99), 100);
    assert_eq!(clamp_refresh_ms(100), 100);
    assert_eq!(clamp_refresh_ms(2500), 2500);
    assert_eq!(clamp_refresh_ms(30000), 30000);
    assert_eq!(clamp_refresh_ms(u64::MAX), MAX_REFRESH_MS);
}

#[test]
fn new_settings_start_at_the_default() {
    assert_eq!(Settings::new().refresh_ms(), DEFAULT_REFRESH_MS);
    assert_eq!(Settings::default().refresh_ms(), 1000);
}

#[test]
fn set_refresh_stores_the_clamped_value() {
    let s = Settings::new();
    s.set_refresh_ms(5);
    assert_eq!(s.refresh_ms(), 100);
    s.set_refresh_ms(2000);
    assert_eq!(s.refresh_ms(), 2000);
    s.set_refresh_ms(1_000_000);
    assert_eq!(s.refresh_ms(), 30000);
}

#[test]
fn copies_and_handles_share_the_value() {
    let s = Settings::new();
    let t = s.clone();
    let h = s.refresh_handle();
    t.set_refresh_ms(500);
    assert_eq!(s.refresh_ms(), 500);
    assert_eq!(h.load(Ordering::Relaxed), 500);
    h.store(700, Ordering::Relaxed);
    assert_eq!(t.refresh_ms(), 700);
}

#[test]
fn presets_are_listed_in_order() {
    let p = refresh_presets();
    let ms: Vec<u64> = p.iter().map(|x| x.0).collect();
    assert_eq!(ms, vec![250, 500, 1000, 2000, 5000, 10000]);
    assert_eq!(p[0].1, "4× / s");
    assert_eq!(p[5].1, "Every 10 s");
}
