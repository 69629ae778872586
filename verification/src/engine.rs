//! The routing engine's decisions: when a start, stop or re-apply is
//! refused or skipped, which capture backend a resolved route gets (or
//! whether it waits for its app), when a route must not render, which
//! routes risk feedback, a chain's effective mute, the link state each
//! device reports, and the wiring bookkeeping: the routes waiting for their
//! app and the captures shared between routes.

use vstd::prelude::*;

use crate::graph::{has_route, route_pos, ActiveRoute, Graph};
use crate::text::str_eq;

verus! {

/// Why the engine refused a request.
#[derive(Debug)]
pub enum EngineError {
    AlreadyRunning,
    NotRunning,
    Session(String),
}

impl EngineError {
    /// The error as a user reads it.
    pub open spec fn spec_message(&self) -> Seq<char> {
        match self {
            EngineError::AlreadyRunning => "engine already running"@,
            EngineError::NotRunning => "engine not running"@,
            EngineError::Session(m) => "session error: "@ + m@,
        }
    }

    /// The error as a user reads it.
    pub fn message(&self) -> (s: String)
        ensures
            s@ == self.spec_message(),
    {
        match self {
            EngineError::AlreadyRunning => String::from_str("engine already running"),
            EngineError::NotRunning => String::from_str("engine not running"),
            EngineError::Session(m) => {
                let mut s = String::from_str("session error: ");
                s.append(m.as_str());
                s
            },
        }
    }
}

/// A start is refused while the engine runs.
pub fn start_allowed(running: bool) -> (r: Result<(), EngineError>)
    ensures
        running ==> r matches Err(EngineError::AlreadyRunning),
        !running ==> r is Ok,
{
    if running {
        Err(EngineError::AlreadyRunning)
    } else {
        Ok(())
    }
}

/// A stop is refused while the engine is stopped.
pub fn stop_allowed(running: bool) -> (r: Result<(), EngineError>)
    ensures
        !running ==> r matches Err(EngineError::NotRunning),
        running ==> r is Ok,
{
    if running {
        Ok(())
    } else {
        Err(EngineError::NotRunning)
    }
}

/// Re-applying the very graph last applied while the engine runs changes
/// nothing and is skipped: a restart would flicker every route.
pub fn apply_is_redundant(running: bool, last_applied: &Option<String>, key: &str) -> (b: bool)
    ensures
        b == (running && (last_applied matches Some(l) && l@ == key@)),
{
    if !running {
        return false;
    }
    match last_applied {
        Some(l) => str_eq(l.as_str(), key),
        None => false,
    }
}

/// Where a route's audio is captured.
#[derive(Debug, Clone, Copy, PartialEq, Eq, Structural)]
pub enum Backend {
    /// The app's own process tree, by pid.
    Process(u32),
    /// The driver's ring of a Nodus virtual endpoint.
    Virtual,
    /// Whole-device loopback or input capture.
    Device,
}

/// What wiring a route starts with.
#[derive(Debug)]
pub enum CapturePlan {
    /// The route's app is not running: keep the route and retry later.
    Defer,
    /// Capture from `backend`, shared by every route with the same `key`.
    Capture { key: String, backend: Backend },
}

/// The capture a resolved route gets: an app source is captured by the pid
/// found for it (`pid`, `None` when the app is not running, which defers
/// the route) under the key `exe:<name>`; a Nodus virtual source reads the
/// driver's ring and any other source its device, both keyed by the device
/// id.
pub fn capture_plan<X>(ar: &ActiveRoute<X>, pid: Option<u32>) -> (p: CapturePlan)
    ensures
        match ar.exe_name {
            Some(exe) => match pid {
                Some(n) => p matches CapturePlan::Capture { key, backend } && key@ == "exe:"@ + exe@
                    && backend == Backend::Process(n),
                None => p is Defer,
            },
            None => p matches CapturePlan::Capture { key, backend } && key@ == ar.from_device_id@
                && backend == (if ar.from_is_virtual {
                Backend::Virtual
            } else {
                Backend::Device
            }),
        },
{
    match &ar.exe_name {
        Some(exe) => match pid {
            Some(n) => {
                let mut key = String::from_str("exe:");
                key.append(exe.as_str());
                CapturePlan::Capture { key, backend: Backend::Process(n) }
            },
            None => CapturePlan::Defer,
        },
        None => {
            let backend = if ar.from_is_virtual {
                Backend::Virtual
            } else {
                Backend::Device
            };
            CapturePlan::Capture { key: ar.from_device_id.clone(), backend }
        },
    }
}

/// A whole-device loopback source rendered back to its own device would
/// loop: such a route keeps its controls but gets no renderer. App and
/// virtual sources never do.
pub fn skips_render<X>(ar: &ActiveRoute<X>) -> (b: bool)
    ensures
        b == (ar.exe_name is None && !ar.from_is_virtual && ar.from_device_id@.len() > 0
            && ar.from_device_id@ == ar.to_device_id@),
{
    ar.exe_name.is_none() && !ar.from_is_virtual && ar.from_device_id.unicode_len() > 0 && str_eq(
        ar.from_device_id.as_str(),
        ar.to_device_id.as_str(),
    )
}

/// Route `i` renders to a device some route captures from (other than its
/// own source device): the rendered audio is captured again.
pub open spec fn feedback_risk<X>(rs: Seq<ActiveRoute<X>>, i: int) -> bool {
    &&& exists|j: int| 0 <= j < rs.len() && (#[trigger] rs[j]).from_device_id@ == rs[i].to_device_id@
    &&& rs[i].to_device_id@ != rs[i].from_device_id@
}

/// The positions of the routes at risk of feedback, in order.
pub fn feedback_risks<X>(routes: &[ActiveRoute<X>]) -> (r: Vec<usize>)
    ensures
        forall|k: int| 0 <= k < r@.len() ==> (#[trigger] r@[k]) < routes@.len() && feedback_risk(routes@, r@[k] as int),
        forall|k: int, m: int| 0 <= k < m < r@.len() ==> r@[k] < r@[m],
        forall|i: int| 0 <= i < routes@.len() && #[trigger] feedback_risk(routes@, i) ==> r@.contains(i as usize),
{
    let mut r: Vec<usize> = Vec::new();
    let mut i: usize = 0;
    while i < routes.len()
        invariant
            i <= routes@.len(),
            forall|k: int| 0 <= k < r@.len() ==> (#[trigger] r@[k]) < i && feedback_risk(routes@, r@[k] as int),
            forall|k: int, m: int| 0 <= k < m < r@.len() ==> r@[k] < r@[m],
            forall|x: int| 0 <= x < i && #[trigger] feedback_risk(routes@, x) ==> r@.contains(x as usize),
        decreases routes@.len() - i,
    {
        let to = routes[i].to_device_id.as_str();
        let mut captured = false;
        let mut j: usize = 0;
        while j < routes.len()
            invariant
                i < routes@.len(),
                j <= routes@.len(),
                to@ == routes@[i as int].to_device_id@,
                captured == exists|q: int| 0 <= q < j && (#[trigger] routes@[q]).from_device_id@ == to@,
            decreases routes@.len() - j,
        {
            if str_eq(routes[j].from_device_id.as_str(), to) {
                captured = true;
            }
            j += 1;
        }
        let ghost before = r@;
        let differs = !str_eq(to, routes[i].from_device_id.as_str());
        proof {
            if feedback_risk(routes@, i as int) {
                let q = choose|q: int|
                    0 <= q < routes@.len() && (#[trigger] routes@[q]).from_device_id@
                        == routes@[i as int].to_device_id@;
                assert(routes@[q].from_device_id@ == to@);
            }
        }
        if captured && differs {
            r.push(i);
            proof {
                assert(r@[r@.len() - 1] == i);
                assert forall|x: int| 0 <= x < i && #[trigger] feedback_risk(routes@, x) implies r@.contains(
                    x as usize,
                ) by {
                    let k = choose|k: int| 0 <= k < before.len() && before[k] == x as usize;
                    assert(r@[k] == x as usize);
                }
            }
        }
        i += 1;
    }
    r
}

/// Some edge of the chain is muted in the graph (edges no longer in the
/// graph count as unmuted).
pub open spec fn spec_chain_muted<X, A>(g: Graph<X, A>, chain: Seq<String>) -> bool {
    exists|i: int|
        0 <= i < chain.len() && has_route(g.route_seq(), (#[trigger] chain[i])@) && g.route_seq()[route_pos(
            g.route_seq(),
            chain[i]@,
        )].muted
}

/// A route's effective mute, re-read from the graph: any edge of its chain
/// muted.
pub fn chain_muted<X, A>(g: &Graph<X, A>, chain: &[String]) -> (b: bool)
    requires
        g.wf(),
    ensures
        b == spec_chain_muted(*g, chain@),
{
    let mut i: usize = 0;
    while i < chain.len()
        invariant
            g.wf(),
            i <= chain@.len(),
            forall|k: int|
                0 <= k < i ==> !(has_route(g.route_seq(), (#[trigger] chain@[k])@) && g.route_seq()[route_pos(
                    g.route_seq(),
                    chain@[k]@,
                )].muted),
        decreases chain@.len() - i,
    {
        match g.get_route(chain[i].as_str()) {
            Some(r) => {
                if r.muted {
                    return true;
                }
            },
            None => {},
        }
        i += 1;
    }
    false
}

/// How many deferred routes a retry wired: those attempted less those still
/// waiting and those that failed (never below zero).
pub fn wired_count(attempted: usize, still_pending: usize, failed: usize) -> (n: usize)
    ensures
        n == (if attempted >= still_pending + failed {
            attempted - still_pending - failed
        } else {
            0
        }),
{
    let a = if attempted >= still_pending {
        attempted - still_pending
    } else {
        0
    };
    if a >= failed {
        a - failed
    } else {
        0
    }
}

/// Some report is about device `d`.
pub open spec fn reported(reports: Seq<(String, u8)>, d: Seq<char>) -> bool {
    exists|i: int| 0 <= i < reports.len() && (#[trigger] reports[i]).0@ == d
}

/// The lowest (healthiest) link code reported for device `d` (255 for none).
pub open spec fn best_code(reports: Seq<(String, u8)>, d: Seq<char>) -> u8
    decreases reports.len(),
{
    if reports.len() == 0 {
        255
    } else {
        let rest = best_code(reports.drop_last(), d);
        if reports.last().0@ == d && reports.last().1 < rest {
            reports.last().1
        } else {
            rest
        }
    }
}

proof fn lemma_best_code_push(reports: Seq<(String, u8)>, r: (String, u8), d: Seq<char>)
    ensures
        best_code(reports.push(r), d) == (if r.0@ == d && r.1 < best_code(reports, d) {
            r.1
        } else {
            best_code(reports, d)
        }),
        reported(reports.push(r), d) == (reported(reports, d) || r.0@ == d),
{
    assert(reports.push(r).drop_last() =~= reports);
    if reported(reports.push(r), d) && r.0@ != d {
        let i = choose|i: int| 0 <= i < reports.push(r).len() && (#[trigger] reports.push(r)[i]).0@ == d;
        assert(reports[i] == reports.push(r)[i]);
    }
    if reported(reports, d) {
        let i = choose|i: int| 0 <= i < reports.len() && (#[trigger] reports[i]).0@ == d;
        assert(reports.push(r)[i] == reports[i]);
    }
    if r.0@ == d {
        assert(reports.push(r)[reports.len() as int] == r);
    }
}

proof fn lemma_best_code_unreported(reports: Seq<(String, u8)>, d: Seq<char>)
    requires
        !reported(reports, d),
    ensures
        best_code(reports, d) == 255,
    decreases reports.len(),
{
    if reports.len() > 0 {
        let rest = reports.drop_last();
        assert(!reported(rest, d)) by {
            if reported(rest, d) {
                let i = choose|i: int| 0 <= i < rest.len() && (#[trigger] rest[i]).0@ == d;
                assert(reports[i] == rest[i]);
            }
        }
        lemma_best_code_unreported(rest, d);
        assert(reports[reports.len() - 1].0@ != d);
    }
}

/// The link state of each device backing a route: several routes may share
/// a device, which is reported by the healthiest of them (the lowest code),
/// once, in the order devices are first reported.
pub fn link_states(reports: &[(String, u8)]) -> (out: Vec<(String, u8)>)
    ensures
        forall|d: Seq<char>| #![trigger reported(reports@, d)] reported(reports@, d) <==> exists|j: int|
            0 <= j < out@.len() && (#[trigger] out@[j]).0@ == d,
        forall|j: int| 0 <= j < out@.len() ==> (#[trigger] out@[j]).1 == best_code(reports@, out@[j].0@),
        forall|a: int, b: int| 0 <= a < b < out@.len() ==> (#[trigger] out@[a]).0@ != (#[trigger] out@[b]).0@,
{
    let mut out: Vec<(String, u8)> = Vec::new();
    let mut i: usize = 0;
    while i < reports.len()
        invariant
            i <= reports@.len(),
            forall|d: Seq<char>| #![trigger reported(reports@.take(i as int), d)] reported(reports@.take(i as int), d) <==> exists|j: int|
                0 <= j < out@.len() && (#[trigger] out@[j]).0@ == d,
            forall|j: int| 0 <= j < out@.len() ==> (#[trigger] out@[j]).1 == best_code(reports@.take(i as int), out@[j].0@),
            forall|a: int, b: int| 0 <= a < b < out@.len() ==> (#[trigger] out@[a]).0@ != (#[trigger] out@[b]).0@,
        decreases reports@.len() - i,
    {
        let (dev, code) = (&reports[i].0, reports[i].1);
        let ghost prev = reports@.take(i as int);
        let ghost r = reports@[i as int];
        proof {
            assert(reports@.take(i + 1) =~= prev.push(r));
        }
        let mut k: usize = 0;
        let mut found: bool = false;
        while k < out.len()
            invariant_except_break
                k <= out@.len(),
                !found,
                forall|j: int| 0 <= j < k ==> (#[trigger] out@[j]).0@ != dev@,
            ensures
                found ==> k < out@.len() && out@[k as int].0@ == dev@,
                !found ==> forall|j: int| 0 <= j < out@.len() ==> (#[trigger] out@[j]).0@ != dev@,
            decreases out@.len() - k,
        {
            if str_eq(out[k].0.as_str(), dev.as_str()) {
                found = true;
                break;
            }
            k += 1;
        }
        let ghost before = out@;
        if found {
            proof {
                lemma_best_code_push(prev, r, dev@);
            }
            if code < out[k].1 {
                let name = out[k].0.clone();
                out.set(k, (name, code));
            }
            proof {
                assert forall|d: Seq<char>| #![trigger reported(reports@.take(i + 1), d)] reported(reports@.take(i + 1), d) <==> exists|j: int|
                    0 <= j < out@.len() && (#[trigger] out@[j]).0@ == d by {
                    lemma_best_code_push(prev, r, d);
                    if reported(prev, d) {
                        let j = choose|j: int| 0 <= j < before.len() && (#[trigger] before[j]).0@ == d;
                        assert(out@[j].0@ == d);
                    }
                    if exists|j: int| 0 <= j < out@.len() && (#[trigger] out@[j]).0@ == d {
                        let j = choose|j: int| 0 <= j < out@.len() && (#[trigger] out@[j]).0@ == d;
                        assert(before[j].0@ == d);
                    }
                }
                assert forall|j: int| 0 <= j < out@.len() implies (#[trigger] out@[j]).1 == best_code(reports@.take(i + 1), out@[j].0@) by {
                    lemma_best_code_push(prev, r, out@[j].0@);
                    assert(before[j].0@ == out@[j].0@);
                }
                assert forall|a: int, b: int| 0 <= a < b < out@.len() implies (#[trigger] out@[a]).0@ != (#[trigger] out@[b]).0@ by {
                    assert(before[a].0@ == out@[a].0@);
                    assert(before[b].0@ == out@[b].0@);
                }
            }
        } else {
            out.push((dev.clone(), code));
            proof {
                assert(!reported(prev, dev@)) by {
                    if reported(prev, dev@) {
                        let j = choose|j: int| 0 <= j < before.len() && (#[trigger] before[j]).0@ == dev@;
                        assert(before[j].0@ != dev@);
                    }
                }
                lemma_best_code_unreported(prev, dev@);
                assert forall|d: Seq<char>| #![trigger reported(reports@.take(i + 1), d)] reported(reports@.take(i + 1), d) <==> exists|j: int|
                    0 <= j < out@.len() && (#[trigger] out@[j]).0@ == d by {
                    lemma_best_code_push(prev, r, d);
                    if reported(prev, d) {
                        let j = choose|j: int| 0 <= j < before.len() && (#[trigger] before[j]).0@ == d;
                        assert(out@[j] == before[j]);
                    }
                    if d == dev@ {
                        assert(out@[before.len() as int].0@ == d);
                    }
                    if exists|j: int| 0 <= j < out@.len() && (#[trigger] out@[j]).0@ == d {
                        let j = choose|j: int| 0 <= j < out@.len() && (#[trigger] out@[j]).0@ == d;
                        if j < before.len() {
                            assert(before[j] == out@[j]);
                        }
                    }
                }
                assert forall|j: int| 0 <= j < out@.len() implies (#[trigger] out@[j]).1 == best_code(reports@.take(i + 1), out@[j].0@) by {
                    lemma_best_code_push(prev, r, out@[j].0@);
                    if j < before.len() {
                        assert(before[j] == out@[j]);
                    }
                }
                assert forall|a: int, b: int| 0 <= a < b < out@.len() implies (#[trigger] out@[a]).0@ != (#[trigger] out@[b]).0@ by {
                    assert(before[a] == out@[a]);
                    if b < before.len() {
                        assert(before[b] == out@[b]);
                    }
                }
            }
        }
        i += 1;
    }
    proof {
        assert(reports@.take(reports@.len() as int) =~= reports@);
    }
    out
}


// ── Wiring bookkeeping ──────────────────────────────────────────────────────

/// The capture key a route's plan names, or `None` when it waits for its
/// app (see `capture_plan`).
pub open spec fn plan_key<X>(ar: ActiveRoute<X>, pid: Option<u32>) -> Option<Seq<char>> {
    match ar.exe_name {
        Some(exe) => match pid {
            Some(_) => Some("exe:"@ + exe@),
            None => None,
        },
        None => Some(ar.from_device_id@),
    }
}

/// The backend a route's plan reads from, when it is captured (see
/// `capture_plan`): the app's process by pid, the driver's ring of a Nodus
/// virtual source, or the whole device.
pub open spec fn plan_backend<X>(ar: ActiveRoute<X>, pid: Option<u32>) -> Backend {
    match ar.exe_name {
        Some(_) => Backend::Process(pid.unwrap()),
        None => if ar.from_is_virtual {
            Backend::Virtual
        } else {
            Backend::Device
        },
    }
}

/// The keys of a capture table.
pub open spec fn capture_keys(cs: Seq<(String, u64)>) -> Seq<Seq<char>> {
    cs.map_values(|c: (String, u64)| c.0@)
}

/// What wiring one route did.
#[derive(Debug)]
pub enum WireStep {
    /// Its app is not running: it waits in the queue.
    Deferred,
    /// A capture with its key was already open: it now feeds one more route.
    Shared { key: String, backend: Backend },
    /// No capture had its key: one is opened for it.
    Opened { key: String, backend: Backend },
}

/// The engine's wiring bookkeeping: the routes waiting for their app to
/// appear, and the open captures, each by key (distinct) with the number of
/// routes it feeds. A route whose app is absent is remembered, never
/// dropped; routes with the same source share one capture.
pub struct Wiring<X> {
    pending: Vec<ActiveRoute<X>>,
    captures: Vec<(String, u64)>,
}

impl<X> Wiring<X> {
    /// The routes waiting, in the order they were deferred.
    pub closed spec fn spec_pending(&self) -> Seq<ActiveRoute<X>> {
        self.pending@
    }

    /// The open captures: key and the number of routes each feeds.
    pub closed spec fn spec_captures(&self) -> Seq<(Seq<char>, u64)> {
        self.captures@.map_values(|c: (String, u64)| (c.0@, c.1))
    }

    /// Each capture key appears once.
    pub open spec fn wf(&self) -> bool {
        forall|a: int, b: int|
            0 <= a < b < self.spec_captures().len() ==> (#[trigger] self.spec_captures()[a]).0
                != (#[trigger] self.spec_captures()[b]).0
    }

    /// Nothing waiting, no capture open.
    pub fn new() -> (w: Self)
        ensures
            w.wf(),
            w.spec_pending() == Seq::<ActiveRoute<X>>::empty(),
            w.spec_captures() == Seq::<(Seq<char>, u64)>::empty(),
    {
        let w = Wiring { pending: Vec::new(), captures: Vec::new() };
        assert(w.spec_captures() =~= Seq::<(Seq<char>, u64)>::empty());
        w
    }

    /// The number of routes waiting for their app.
    pub fn pending_route_count(&self) -> (n: usize)
        ensures
            n == self.spec_pending().len(),
    {
        self.pending.len()
    }

    /// The number of captures open.
    pub fn capture_count(&self) -> (n: usize)
        ensures
            n == self.spec_captures().len(),
    {
        self.captures.len()
    }

    /// Wires a resolved route with the pid found for its app (`None` when
    /// the app is not running): the route waits in the queue, or joins the
    /// open capture with its key, or gets a new capture that feeds it alone.
    /// A capture's count stops at `u64::MAX`.
    pub fn wire(&mut self, ar: ActiveRoute<X>, pid: Option<u32>) -> (r: WireStep)
        requires
            old(self).wf(),
        ensures
            final(self).wf(),
            match plan_key(ar, pid) {
                None => {
                    &&& r is Deferred
                    &&& final(self).spec_pending() == old(self).spec_pending().push(ar)
                    &&& final(self).spec_captures() == old(self).spec_captures()
                },
                Some(k) => {
                    &&& final(self).spec_pending() == old(self).spec_pending()
                    &&& if exists|i: int| 0 <= i < old(self).spec_captures().len() && (#[trigger] old(self).spec_captures()[i]).0 == k {
                        let i = choose|i: int| 0 <= i < old(self).spec_captures().len() && (#[trigger] old(self).spec_captures()[i]).0 == k;
                        let c = old(self).spec_captures()[i].1;
                        &&& r matches WireStep::Shared { key, backend } && key@ == k && backend == plan_backend(ar, pid)
                        &&& final(self).spec_captures() == old(self).spec_captures().update(
                            i,
                            (k, if c < u64::MAX { (c + 1) as u64 } else { c }),
                        )
                    } else {
                        &&& r matches WireStep::Opened { key, backend } && key@ == k && backend == plan_backend(ar, pid)
                        &&& final(self).spec_captures() == old(self).spec_captures().push((k, 1u64))
                    }
                },
            },
    {
        let ghost before = old(self).spec_captures();
        assert(forall|a: int, b: int| 0 <= a < b < before.len() ==> (#[trigger] before[a]).0 != (#[trigger] before[b]).0);
        match capture_plan(&ar, pid) {
            CapturePlan::Defer => {
                self.pending.push(ar);
                WireStep::Deferred
            },
            CapturePlan::Capture { key, backend } => {
                assert(plan_key(ar, pid) == Some(key@));
                assert(backend == plan_backend(ar, pid));
                let mut i: usize = 0;
                while i < self.captures.len()
                    invariant
                        self.spec_captures() == before,
                        self.spec_pending() == old(self).spec_pending(),
                        before == old(self).spec_captures(),
                        plan_key(ar, pid) == Some(key@),
                        backend == plan_backend(ar, pid),
                        i <= before.len(),
                        forall|a: int, b: int| 0 <= a < b < before.len() ==> (#[trigger] before[a]).0 != (#[trigger] before[b]).0,
                        forall|j: int| 0 <= j < i ==> (#[trigger] before[j]).0 != key@,
                    decreases before.len() - i,
                {
                    if str_eq(self.captures[i].0.as_str(), key.as_str()) {
                        proof {
                            assert(before[i as int].0 == key@);
                            let kk = key@;
                            assert(old(self).spec_captures()[i as int].0 == kk);
                            let c = choose|i: int| 0 <= i < old(self).spec_captures().len() && (#[trigger] old(self).spec_captures()[i]).0 == kk;
                            assert(0 <= c < before.len() && before[c].0 == kk);
                            if c != i {
                                if c < i {
                                    assert(before[c].0 != key@);
                                } else {
                                    assert(before[i as int].0 != before[c].0);
                                }
                            }
                        }
                        let n = self.captures[i].1;
                        let bumped: u64 = if n < u64::MAX { n + 1 } else { n };
                        let k = self.captures[i].0.clone();
                        self.captures.set(i, (k, bumped));
                        proof {
                            assert(self.spec_captures() =~= before.update(i as int, (key@, bumped)));
                            assert forall|a: int, b: int| 0 <= a < b < self.spec_captures().len() implies (#[trigger] self.spec_captures()[a]).0
                                != (#[trigger] self.spec_captures()[b]).0 by {
                                assert(before[a].0 != before[b].0);
                            }
                        }
                        return WireStep::Shared { key, backend };
                    }
                    i += 1;
                }
                let k = key.clone();
                self.captures.push((k, 1));
                proof {
                    assert(self.spec_captures() =~= before.push((key@, 1u64)));
                    assert forall|a: int, b: int| 0 <= a < b < self.spec_captures().len() implies (#[trigger] self.spec_captures()[a]).0
                        != (#[trigger] self.spec_captures()[b]).0 by {
                        if b < before.len() {
                            assert(before[a].0 != before[b].0);
                        } else {
                            assert(before[a].0 != key@);
                        }
                    }
                }
                WireStep::Opened { key, backend }
            },
        }
    }

    /// Hands out every waiting route, for a retry, and empties the queue; a
    /// route whose app is still absent goes back through `wire`.
    pub fn take_pending(&mut self) -> (q: Vec<ActiveRoute<X>>)
        ensures
            q@ == old(self).spec_pending(),
            final(self).spec_pending() == Seq::<ActiveRoute<X>>::empty(),
            final(self).spec_captures() == old(self).spec_captures(),
            final(self).wf() == old(self).wf(),
    {
        let mut q: Vec<ActiveRoute<X>> = Vec::new();
        core::mem::swap(&mut q, &mut self.pending);
        assert(self.spec_captures() =~= old(self).spec_captures());
        q
    }

    /// Starting or stopping the engine forgets what the previous run owed:
    /// no route waits and no capture stays open.
    pub fn clear(&mut self)
        ensures
            final(self).wf(),
            final(self).spec_pending() == Seq::<ActiveRoute<X>>::empty(),
            final(self).spec_captures() == Seq::<(Seq<char>, u64)>::empty(),
    {
        self.pending = Vec::new();
        self.captures = Vec::new();
        assert(self.spec_captures() =~= Seq::<(Seq<char>, u64)>::empty());
    }
}

} // verus!
