use nodus::glitch::{
    record_buffer, record_dropout_ms, record_lag, record_latency, record_resync, record_stale_dropped, reset,
    snapshot, AudioHealth,
};

#[test]
fn records_and_resets() {
    let mut h = AudioHealth::default();
    reset(&mut h);
    record_lag(&mut h, 7);
    record_lag(&mut h, 3);
    record_dropout_ms(&mut h, 25);
    record_buffer(&mut h);
    record_stale_dropped(&mut h, 4);
    record_resync(&mut h);

    let s = snapshot(&h);
    assert_eq!(s.lag_events, 2);
    assert_eq!(s.lagged_frames, 10);
    assert_eq!(s.dropout_ms, 25);
    assert_eq!(s.buffers_rendered, 1);
    assert_eq!(s.stale_dropped, 4);
    assert_eq!(s.resyncs, 1);

    reset(&mut h);
    assert_eq!(snapshot(&h), AudioHealth::default());
}

#[test]
fn clean_only_without_lag_dropout_or_shed() {
    let mut h = AudioHealth::default();
    reset(&mut h);
    record_buffer(&mut h);
    assert!(snapshot(&h).is_clean());

    record_dropout_ms(&mut h, 12);
    assert!(!snapshot(&h).is_clean());

    reset(&mut h);
    record_stale_dropped(&mut h, 1);
    assert!(!snapshot(&h).is_clean());
    reset(&mut h);
}

#[test]
fn latency_keeps_the_peak() {
    let mut h = AudioHealth::default();
    reset(&mut h);
    record_latency(&mut h, 40);
    record_latency(&mut h, 1800);
    record_latency(&mut h, 55);
    assert_eq!(snapshot(&h).latency_peak_ms, 1800);
    reset(&mut h);
    assert_eq!(snapshot(&h).latency_peak_ms, 0);
}

#[test]
fn zero_shed_is_not_recorded() {
    let mut h = AudioHealth::default();
    reset(&mut h);
    record_stale_dropped(&mut h, 0);
    assert_eq!(snapshot(&h).stale_dropped, 0);
    assert!(snapshot(&h).is_clean());
    reset(&mut h);
}

#[test]
fn counters_wrap_like_atomics() {
    let mut h = AudioHealth::default();
    h.lagged_frames = u64::MAX;
    record_lag(&mut h, 2);
    assert_eq!(h.lagged_frames, 1);
    assert_eq!(h.lag_events, 1);
}

#[test]
fn lag_alone_is_not_clean() {
    let mut h = AudioHealth::default();
    record_lag(&mut h, 0);
    assert!(!h.is_clean());
    record_resync(&mut h);
    assert_eq!(h.resyncs, 1);
}

#[test]
fn counters_only_grow_until_a_reset() {
    let mut h = AudioHealth::default();
    record_latency(&mut h, 40);
    let mut prev = snapshot(&h);
    for step in 0..12u64 {
        match step % 6 {
            0 => record_lag(&mut h, step),
            1 => record_dropout_ms(&mut h, step),
            2 => record_buffer(&mut h),
            3 => record_latency(&mut h, step),
            4 => record_stale_dropped(&mut h, step),
            _ => record_resync(&mut h),
        }
        let now = snapshot(&h);
        assert!(now.lag_events >= prev.lag_events && now.lagged_frames >= prev.lagged_frames);
        assert!(now.dropout_ms >= prev.dropout_ms && now.buffers_rendered >= prev.buffers_rendered);
        assert!(now.latency_peak_ms >= prev.latency_peak_ms && now.stale_dropped >= prev.stale_dropped);
        assert!(now.resyncs >= prev.resyncs);
        prev = now;
    }
    assert_eq!(prev.latency_peak_ms, 40);
    reset(&mut h);
    let once = snapshot(&h);
    reset(&mut h);
    assert_eq!(snapshot(&h), once);
    assert_eq!(once, AudioHealth::default());
}
