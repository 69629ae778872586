//! Audio-path health accounting: the counters of audible damage (lag,
//! dropouts, shed stale audio), the buffers rendered, the peak latency and
//! the resyncs.
//!
//! The counters are monotonic and wrap like the atomics they live in; only
//! the latency is a gauge, and it keeps its peak. The process-wide instance
//! lives with the caller; every operation here takes the counters it acts
//! on.

use vstd::prelude::*;

verus! {

/// A snapshot of the audio-path health counters.
#[derive(Debug, Clone, Copy, PartialEq, Eq, Structural)]
pub struct AudioHealth {
    /// Times the renderer fell behind the capture.
    pub lag_events: u64,
    /// Buffers dropped by those lag events (captured audio never played).
    pub lagged_frames: u64,
    /// Milliseconds of silence played while a stream was flowing.
    pub dropout_ms: u64,
    /// Buffers handed to the device.
    pub buffers_rendered: u64,
    /// Highest end-to-end latency estimate since the last reset, in ms.
    pub latency_peak_ms: u64,
    /// Buffers discarded on purpose to get back to the live edge.
    pub stale_dropped: u64,
    /// Live pipeline resyncs.
    pub resyncs: u64,
}

/// All counters at zero.
pub open spec fn zero_health() -> AudioHealth {
    AudioHealth {
        lag_events: 0,
        lagged_frames: 0,
        dropout_ms: 0,
        buffers_rendered: 0,
        latency_peak_ms: 0,
        stale_dropped: 0,
        resyncs: 0,
    }
}

impl Default for AudioHealth {
    /// All counters at zero.
    fn default() -> (h: Self)
        ensures
            h == zero_health(),
    {
        AudioHealth {
            lag_events: 0,
            lagged_frames: 0,
            dropout_ms: 0,
            buffers_rendered: 0,
            latency_peak_ms: 0,
            stale_dropped: 0,
            resyncs: 0,
        }
    }
}

impl AudioHealth {
    /// Nothing audible went wrong: no lag, no dropout, nothing shed.
    pub open spec fn spec_is_clean(&self) -> bool {
        self.lag_events == 0 && self.dropout_ms == 0 && self.stale_dropped == 0
    }

    /// Did anything audible go wrong at all?
    pub fn is_clean(&self) -> (b: bool)
        ensures
            b == self.spec_is_clean(),
    {
        self.lag_events == 0 && self.dropout_ms == 0 && self.stale_dropped == 0
    }
}

/// The counters after a lag that dropped `frames` buffers.
pub open spec fn after_lag(h: AudioHealth, frames: u64) -> AudioHealth {
    AudioHealth { lag_events: h.lag_events.wrapping_add(1), lagged_frames: h.lagged_frames.wrapping_add(frames), ..h }
}

/// The counters after `ms` of dropout.
pub open spec fn after_dropout(h: AudioHealth, ms: u64) -> AudioHealth {
    AudioHealth { dropout_ms: h.dropout_ms.wrapping_add(ms), ..h }
}

/// The counters after one rendered buffer.
pub open spec fn after_buffer(h: AudioHealth) -> AudioHealth {
    AudioHealth { buffers_rendered: h.buffers_rendered.wrapping_add(1), ..h }
}

/// The counters after a latency estimate of `ms`: the peak is kept.
pub open spec fn after_latency(h: AudioHealth, ms: u64) -> AudioHealth {
    AudioHealth { latency_peak_ms: if ms > h.latency_peak_ms { ms } else { h.latency_peak_ms }, ..h }
}

/// The counters after `n` stale buffers were shed.
pub open spec fn after_stale(h: AudioHealth, n: u64) -> AudioHealth {
    AudioHealth { stale_dropped: h.stale_dropped.wrapping_add(n), ..h }
}

/// The counters after one resync.
pub open spec fn after_resync(h: AudioHealth) -> AudioHealth {
    AudioHealth { resyncs: h.resyncs.wrapping_add(1), ..h }
}

/// No counter of `b` is below the same counter of `a`.
pub open spec fn no_lower(a: AudioHealth, b: AudioHealth) -> bool {
    &&& a.lag_events <= b.lag_events
    &&& a.lagged_frames <= b.lagged_frames
    &&& a.dropout_ms <= b.dropout_ms
    &&& a.buffers_rendered <= b.buffers_rendered
    &&& a.latency_peak_ms <= b.latency_peak_ms
    &&& a.stale_dropped <= b.stale_dropped
    &&& a.resyncs <= b.resyncs
}

/// The renderer fell behind and `frames` buffers were dropped.
pub fn record_lag(h: &mut AudioHealth, frames: u64)
    ensures
        *final(h) == after_lag(*old(h), frames),
{
    h.lag_events = h.lag_events.wrapping_add(1);
    h.lagged_frames = h.lagged_frames.wrapping_add(frames);
}

/// `ms` of silence were played in place of flowing audio; nothing is
/// recorded for zero.
pub fn record_dropout_ms(h: &mut AudioHealth, ms: u64)
    ensures
        *final(h) == after_dropout(*old(h), ms),
{
    if ms > 0 {
        h.dropout_ms = h.dropout_ms.wrapping_add(ms);
    }
}

/// One buffer was written to the device.
pub fn record_buffer(h: &mut AudioHealth)
    ensures
        *final(h) == after_buffer(*old(h)),
{
    h.buffers_rendered = h.buffers_rendered.wrapping_add(1);
}

/// A route's current latency estimate; only the peak is kept.
pub fn record_latency(h: &mut AudioHealth, ms: u64)
    ensures
        *final(h) == after_latency(*old(h), ms),
{
    if ms > h.latency_peak_ms {
        h.latency_peak_ms = ms;
    }
}

/// `n` queued buffers were dropped on purpose to resume at the live edge;
/// nothing is recorded for zero.
pub fn record_stale_dropped(h: &mut AudioHealth, n: u64)
    ensures
        *final(h) == after_stale(*old(h), n),
{
    if n > 0 {
        h.stale_dropped = h.stale_dropped.wrapping_add(n);
    }
}

/// The engine resynchronised a route's pipeline in place.
pub fn record_resync(h: &mut AudioHealth)
    ensures
        *final(h) == after_resync(*old(h)),
{
    h.resyncs = h.resyncs.wrapping_add(1);
}

/// The current counters.
pub fn snapshot(h: &AudioHealth) -> (s: AudioHealth)
    ensures
        s == *h,
{
    *h
}

/// Zero the counters before a measurement run.
pub fn reset(h: &mut AudioHealth)
    ensures
        *final(h) == zero_health(),
{
    *h = AudioHealth {
        lag_events: 0,
        lagged_frames: 0,
        dropout_ms: 0,
        buffers_rendered: 0,
        latency_peak_ms: 0,
        stale_dropped: 0,
        resyncs: 0,
    };
}

/// Rendering buffers, recording latency and resyncing never make a clean
/// stream unclean; a lag, a dropout of some length or a shed of some buffers
/// always does.
pub proof fn lemma_clean_counters(h: AudioHealth, n: u64)
    requires
        h.spec_is_clean(),
        n > 0,
    ensures
        (AudioHealth { buffers_rendered: h.buffers_rendered.wrapping_add(1), ..h }).spec_is_clean(),
        (AudioHealth { resyncs: h.resyncs.wrapping_add(1), ..h }).spec_is_clean(),
        (AudioHealth { latency_peak_ms: n, ..h }).spec_is_clean(),
        !(AudioHealth { lag_events: h.lag_events.wrapping_add(1), ..h }).spec_is_clean(),
        !(AudioHealth { dropout_ms: h.dropout_ms.wrapping_add(n), ..h }).spec_is_clean(),
        !(AudioHealth { stale_dropped: h.stale_dropped.wrapping_add(n), ..h }).spec_is_clean(),
{
}

/// Between resets the counters only grow: every counter starts at the reset
/// value (zero, and a reset gives zero whatever came before, so resetting
/// twice is resetting once), and no record lowers a counter short of the
/// counter wrapping past `u64::MAX`; the latency peak never goes down.
pub proof fn lemma_counters_only_grow(h: AudioHealth, x: u64)
    ensures
        no_lower(zero_health(), h),
        h.lag_events < u64::MAX && h.lagged_frames + x <= u64::MAX ==> no_lower(h, after_lag(h, x)),
        h.dropout_ms + x <= u64::MAX ==> no_lower(h, after_dropout(h, x)),
        h.buffers_rendered < u64::MAX ==> no_lower(h, after_buffer(h)),
        no_lower(h, after_latency(h, x)),
        h.stale_dropped + x <= u64::MAX ==> no_lower(h, after_stale(h, x)),
        h.resyncs < u64::MAX ==> no_lower(h, after_resync(h)),
{
}

/// One thing a recorder can report.
#[derive(Debug, Clone, Copy, PartialEq, Eq, Structural)]
pub enum HealthEvent {
    Lag(u64),
    Dropout(u64),
    Buffer,
    Latency(u64),
    Stale(u64),
    Resync,
}

/// The counters after one report, as its `record_*` function leaves them.
pub open spec fn after(h: AudioHealth, e: HealthEvent) -> AudioHealth {
    match e {
        HealthEvent::Lag(f) => after_lag(h, f),
        HealthEvent::Dropout(ms) => after_dropout(h, ms),
        HealthEvent::Buffer => after_buffer(h),
        HealthEvent::Latency(ms) => after_latency(h, ms),
        HealthEvent::Stale(n) => after_stale(h, n),
        HealthEvent::Resync => after_resync(h),
    }
}

/// The counters after a run of reports, in order.
pub open spec fn after_all(h: AudioHealth, es: Seq<HealthEvent>) -> AudioHealth
    decreases es.len(),
{
    if es.len() == 0 {
        h
    } else {
        after(after_all(h, es.drop_last()), es.last())
    }
}

/// The report leaves every counter it adds to within `u64`.
pub open spec fn no_wrap(h: AudioHealth, e: HealthEvent) -> bool {
    match e {
        HealthEvent::Lag(f) => h.lag_events < u64::MAX && h.lagged_frames + f <= u64::MAX,
        HealthEvent::Dropout(ms) => h.dropout_ms + ms <= u64::MAX,
        HealthEvent::Buffer => h.buffers_rendered < u64::MAX,
        HealthEvent::Latency(_) => true,
        HealthEvent::Stale(n) => h.stale_dropped + n <= u64::MAX,
        HealthEvent::Resync => h.resyncs < u64::MAX,
    }
}

/// Between resets no counter ever goes down: over any run of reports that
/// wraps no counter, every counter ends at least where it started; from a
/// reset, where every counter is zero.
pub proof fn lemma_runs_never_lower(h: AudioHealth, es: Seq<HealthEvent>)
    requires
        forall|i: int| 0 <= i < es.len() ==> no_wrap(#[trigger] after_all(h, es.take(i)), es[i]),
    ensures
        no_lower(h, after_all(h, es)),
        no_lower(zero_health(), after_all(zero_health(), es)),
    decreases es.len(),
{
    if es.len() > 0 {
        let pre = es.drop_last();
        assert forall|i: int| 0 <= i < pre.len() implies no_wrap(#[trigger] after_all(h, pre.take(i)), pre[i]) by {
            assert(pre.take(i) =~= es.take(i));
            assert(no_wrap(after_all(h, es.take(i)), es[i]));
        }
        lemma_runs_never_lower(h, pre);
        let k = es.len() - 1;
        assert(es.take(k) =~= pre);
        assert(no_wrap(after_all(h, es.take(k)), es[k]));
    }
}

} // verus!
