use nodus::engine::{
    apply_is_redundant, capture_plan, chain_muted, feedback_risks, link_states, skips_render, start_allowed, stop_allowed,
    wired_count, Backend, CapturePlan, EngineError, WireStep, Wiring,
};
use nodus::graph::{ActiveRoute, FxKind, Graph, Node, NodeType, Route, RoutingGraph};

fn active(exe: Option<&str>, from: &str, to: &str, virt: bool) -> ActiveRoute<FxKind> {
    ActiveRoute {
        route_id: "r1".to_string(),
        fx_chain: Vec::new(),
        chain: vec!["r1".to_string()],
        from_device_id: from.to_string(),
        exe_name: exe.map(|e| e.to_string()),
        from_is_virtual: virt,
        to_device_id: to.to_string(),
        to_is_virtual_mic: false,
        muted: false,
        hub_taps: Vec::new(),
    }
}

#[test]
fn double_start_returns_error() {
    assert!(start_allowed(false).is_ok());
    assert!(matches!(start_allowed(true), Err(EngineError::AlreadyRunning)));
}

#[test]
fn stop_without_start_returns_error() {
    assert!(matches!(stop_allowed(false), Err(EngineError::NotRunning)));
    assert!(stop_allowed(true).is_ok());
}

#[test]
fn reapplying_the_same_graph_is_skipped_only_while_running() {
    let last = Some("{graph}".to_string());
    assert!(apply_is_redundant(true, &last, "{graph}"));
    assert!(!apply_is_redundant(false, &last, "{graph}"));
    assert!(!apply_is_redundant(true, &last, "{other}"));
    assert!(!apply_is_redundant(true, &None, "{graph}"));
}

#[test]
fn an_app_route_is_captured_by_its_pid_or_waits() {
    let ar = active(Some("nodus-no-such-process-t31.exe"), "", "dev-b", false);
    assert!(matches!(capture_plan(&ar, None), CapturePlan::Defer));
    match capture_plan(&ar, Some(42)) {
        CapturePlan::Capture { key, backend } => {
            assert_eq!(key, "exe:nodus-no-such-process-t31.exe");
            assert_eq!(backend, Backend::Process(42));
        }
        CapturePlan::Defer => panic!("a running app is captured"),
    }
}

#[test]
fn device_sources_are_keyed_by_device() {
    match capture_plan(&active(None, "dev-a", "dev-b", true), None) {
        CapturePlan::Capture { key, backend } => {
            assert_eq!(key, "dev-a");
            assert_eq!(backend, Backend::Virtual);
        }
        CapturePlan::Defer => panic!("devices are never deferred"),
    }
    match capture_plan(&active(None, "dev-a", "dev-b", false), Some(1)) {
        CapturePlan::Capture { backend, .. } => assert_eq!(backend, Backend::Device),
        CapturePlan::Defer => panic!("devices are never deferred"),
    }
}

#[test]
fn loopback_onto_its_own_device_is_not_rendered() {
    assert!(skips_render(&active(None, "dev-a", "dev-a", false)));
    assert!(!skips_render(&active(None, "dev-a", "dev-b", false)));
    assert!(!skips_render(&active(None, "dev-a", "dev-a", true)));
    assert!(!skips_render(&active(Some("a.exe"), "dev-a", "dev-a", false)));
}

#[test]
fn feedback_risk_when_an_output_is_also_captured() {
    let routes = vec![active(None, "mic", "cable", false), active(None, "cable", "phones", false)];
    assert_eq!(feedback_risks(&routes), vec![0]);
}

#[test]
fn deferred_route_is_wired_from_the_current_graph_not_its_snapshot() {
    let mut g: Graph<FxKind, u8> = Graph::new();
    let src = Node::new(NodeType::Source, "Src".to_string(), String::new());
    let mix = Node::new(NodeType::Mixer, "Mix".to_string(), String::new());
    let out = Node::new(NodeType::Output, "Out".to_string(), "dev-b".to_string());
    let e1 = Route::new(src.id.clone(), mix.id.clone(), 1u8);
    let e2 = Route::new(mix.id.clone(), out.id.clone(), 1u8);
    let (e1_id, e2_id) = (e1.id.clone(), e2.id.clone());
    g.add_node(src);
    g.add_node(mix);
    g.add_node(out);
    g.add_route(e1).unwrap();
    g.add_route(e2).unwrap();
    let chain = vec![e1_id.clone(), e2_id.clone()];
    assert!(!chain_muted(&g, &chain));
    g.set_mute(&e1_id, true).unwrap();
    assert!(chain_muted(&g, &chain), "a mute set while the route waited must reach it");
    assert!(!chain_muted(&g, &[e2_id, "gone".to_string()]));
}

#[test]
fn retry_counts_only_the_routes_it_wired() {
    assert_eq!(wired_count(5, 2, 1), 2);
    assert_eq!(wired_count(1, 2, 0), 0);
    assert_eq!(wired_count(3, 1, 5), 0);
}

fn make_graph(from_dev: &str, to_dev: &str) -> RoutingGraph<FxKind, u8> {
    let src = Node::new(NodeType::Source, "Src".to_string(), from_dev.to_string());
    let dst = Node::new(NodeType::Output, "Dst".to_string(), to_dev.to_string());
    let route = Route::new(src.id.clone(), dst.id.clone(), 100);
    RoutingGraph { nodes: vec![src, dst], routes: vec![route] }
}

#[test]
fn engine_starts_and_stops() {
    let mut running = false;
    assert!(!running);
    if start_allowed(running).is_ok() {
        running = true;
    }
    if stop_allowed(running).is_ok() {
        running = false;
    }
    assert!(!running);
}

#[test]
fn apply_graph_updates_state() {
    let mut g: Graph<FxKind, u8> = Graph::new();
    let snapshot = make_graph("dev-a", "dev-b");
    assert!(g.apply_snapshot(snapshot).is_ok());
    assert_eq!(g.nodes().len(), 2);
    assert_eq!(g.routes().len(), 1);
    let routes = g.resolve_device_routes();
    assert_eq!(routes.len(), 1);
    assert_eq!(routes[0].from_device_id, "dev-a");
    assert_eq!(routes[0].to_device_id, "dev-b");
}

#[test]
fn a_shared_device_reports_its_healthiest_route() {
    let reports = vec![
        ("dev-a".to_string(), 2u8),
        ("dev-b".to_string(), 1u8),
        ("dev-a".to_string(), 0u8),
        ("dev-b".to_string(), 3u8),
        ("dev-c".to_string(), 2u8),
    ];
    assert_eq!(
        link_states(&reports),
        vec![("dev-a".to_string(), 0), ("dev-b".to_string(), 1), ("dev-c".to_string(), 2)]
    );
    assert!(link_states(&[]).is_empty());
}

#[test]
fn route_for_absent_app_is_deferred_not_dropped() {
    let mut engine: Wiring<FxKind> = Wiring::new();
    // Nothing owed at first, and a retry finds nothing to wire.
    assert_eq!(engine.pending_route_count(), 0);
    let queue = engine.take_pending();
    assert_eq!(wired_count(queue.len(), engine.pending_route_count(), 0), 0);

    let ar = active(Some("nodus-no-such-process-t31.exe"), "", "dev-b", false);
    let step = engine.wire(ar, None);
    assert!(matches!(step, WireStep::Deferred), "deferring is not a wiring error");

    assert_eq!(engine.pending_route_count(), 1, "route must be queued for retry");
    assert_eq!(engine.capture_count(), 0, "nothing to wire yet — the app isn't up");

    // Stopping clears what's owed: a later start re-resolves the graph from scratch.
    engine.clear();
    assert_eq!(engine.pending_route_count(), 0);
}

#[test]
fn routes_from_one_source_share_its_capture() {
    let mut engine: Wiring<FxKind> = Wiring::new();
    let step = engine.wire(active(None, "dev-a", "dev-b", false), None);
    assert!(matches!(step, WireStep::Opened { ref key, backend: Backend::Device } if key == "dev-a"));
    let step = engine.wire(active(None, "dev-a", "dev-c", false), None);
    assert!(matches!(step, WireStep::Shared { ref key, .. } if key == "dev-a"));
    let step = engine.wire(active(Some("app.exe"), "", "dev-b", false), Some(42));
    assert!(matches!(step, WireStep::Opened { ref key, backend: Backend::Process(42) } if key == "exe:app.exe"));
    assert_eq!(engine.capture_count(), 2);
    assert_eq!(engine.pending_route_count(), 0);
}

#[test]
fn a_retry_wires_the_routes_whose_app_appeared() {
    let mut engine: Wiring<FxKind> = Wiring::new();
    engine.wire(active(Some("a.exe"), "", "dev-b", false), None);
    engine.wire(active(Some("b.exe"), "", "dev-b", false), None);
    let queue = engine.take_pending();
    assert_eq!(queue.len(), 2);
    assert_eq!(engine.pending_route_count(), 0);
    let attempted = queue.len();
    for ar in queue {
        let pid = if ar.exe_name.as_deref() == Some("a.exe") { Some(7) } else { None };
        engine.wire(ar, pid);
    }
    assert_eq!(engine.pending_route_count(), 1);
    assert_eq!(wired_count(attempted, engine.pending_route_count(), 0), 1);
    assert_eq!(engine.capture_count(), 1);
}
