use std::collections::HashSet;

use nodus::bus::BusOp;
use nodus::graph::{FxKind, Graph, GraphError, Node, NodeType, Route, RoutingGraph};

type G = Graph<FxKind, u8>;

fn make_node(t: NodeType, dev: &str) -> Node<FxKind> {
    Node::new(t, "test".to_string(), dev.to_string())
}

fn labelled(t: NodeType, label: &str, dev: &str) -> Node<FxKind> {
    Node::new(t, label.to_string(), dev.to_string())
}

fn fx_node(kind: FxKind, label: &str) -> Node<FxKind> {
    let mut n = labelled(NodeType::Fx, label, "");
    n.fx = Some(kind);
    n
}

fn route(from: &str, to: &str) -> Route<u8> {
    Route::new(from.to_string(), to.to_string(), 100)
}

#[test]
fn add_and_remove_node() {
    let mut g = G::new();
    let n = make_node(NodeType::Source, "dev-1");
    let id = n.id.clone();
    g.add_node(n);
    assert!(g.get_node(&id).is_some());
    g.remove_node(&id).unwrap();
    assert!(g.get_node(&id).is_none());
}

#[test]
fn remove_node_drops_its_routes() {
    let mut g = G::new();
    let a = make_node(NodeType::Source, "a");
    let b = make_node(NodeType::Output, "b");
    let (aid, bid) = (a.id.clone(), b.id.clone());
    g.add_node(a);
    g.add_node(b);
    g.add_route(route(&aid, &bid)).unwrap();
    assert_eq!(g.routes().len(), 1);
    g.remove_node(&bid).unwrap();
    assert_eq!(g.routes().len(), 0);
    assert!(matches!(g.remove_node(&bid), Err(GraphError::NodeNotFound(_))));
}

#[test]
fn add_route_requires_existing_nodes() {
    let mut g = G::new();
    let r = route("ghost-a", "ghost-b");
    assert!(matches!(g.add_route(r), Err(GraphError::NodeNotFound(_))));
}

#[test]
fn duplicate_route_rejected() {
    let mut g = G::new();
    let src = make_node(NodeType::Source, "d1");
    let dst = make_node(NodeType::Output, "d2");
    let sid = src.id.clone();
    let did = dst.id.clone();
    g.add_node(src);
    g.add_node(dst);
    g.add_route(route(&sid, &did)).unwrap();
    assert!(matches!(g.add_route(route(&sid, &did)), Err(GraphError::DuplicateRoute { .. })));
}

#[test]
fn set_mute_and_volume() {
    let mut g = G::new();
    let src = make_node(NodeType::Source, "d1");
    let dst = make_node(NodeType::Output, "d2");
    let sid = src.id.clone();
    let did = dst.id.clone();
    g.add_node(src);
    g.add_node(dst);
    let r = route(&sid, &did);
    let rid = r.id.clone();
    g.add_route(r).unwrap();

    g.set_mute(&rid, true).unwrap();
    assert!(g.get_route(&rid).unwrap().muted);

    g.set_route_params(&rid, 50).unwrap();
    assert_eq!(g.get_route(&rid).unwrap().params, 50);

    assert!(matches!(g.set_mute("nope", true), Err(GraphError::RouteNotFound(_))));
    assert!(matches!(g.set_route_params("nope", 1), Err(GraphError::RouteNotFound(_))));
}

#[test]
fn apply_snapshot_rejects_cycle() {
    let a = make_node(NodeType::Source, "da");
    let b = make_node(NodeType::Mixer, "");
    let r1 = route(&a.id, &b.id);
    let r2 = route(&b.id, &a.id);
    let snap = RoutingGraph { nodes: vec![a, b], routes: vec![r1, r2] };

    let mut g = G::new();
    assert!(matches!(g.apply_snapshot(snap), Err(GraphError::CycleDetected)));
    assert_eq!(g.nodes().len(), 0, "rejected snapshot must not mutate the graph");
}

#[test]
fn apply_snapshot_dedups_and_drops_dangling() {
    let a = make_node(NodeType::Source, "da");
    let b = make_node(NodeType::Output, "db");
    let dup1 = route(&a.id, &b.id);
    let dup2 = route(&a.id, &b.id);
    let dangling = route(&a.id, "ghost");
    let snap = RoutingGraph { nodes: vec![a, b], routes: vec![dup1, dup2, dangling] };
    let mut g = G::new();
    g.apply_snapshot(snap).unwrap();
    assert_eq!(g.routes().len(), 1, "duplicate and dangling edges dropped");
}

#[test]
fn resolve_source_to_output() {
    let mut g = G::new();
    let src = make_node(NodeType::Source, "src-dev");
    let dst = make_node(NodeType::Output, "dst-dev");
    let sid = src.id.clone();
    let did = dst.id.clone();
    g.add_node(src);
    g.add_node(dst);
    g.add_route(route(&sid, &did)).unwrap();

    let routes = g.resolve_device_routes();
    assert_eq!(routes.len(), 1);
    assert_eq!(routes[0].from_device_id, "src-dev");
    assert_eq!(routes[0].to_device_id, "dst-dev");
}

#[test]
fn mixer_paths_share_the_output_edge_route_id() {
    let mut g = G::new();
    let src_a = make_node(NodeType::Source, "src-a");
    let src_b = make_node(NodeType::Source, "src-b");
    let mix = make_node(NodeType::Mixer, "");
    let out = make_node(NodeType::Output, "out-dev");
    let (a, b, m, o) = (src_a.id.clone(), src_b.id.clone(), mix.id.clone(), out.id.clone());
    g.add_node(src_a);
    g.add_node(src_b);
    g.add_node(mix);
    g.add_node(out);
    g.add_route(route(&a, &m)).unwrap();
    g.add_route(route(&b, &m)).unwrap();
    let out_edge = route(&m, &o);
    let out_edge_id = out_edge.id.clone();
    g.add_route(out_edge).unwrap();

    let routes = g.resolve_device_routes();
    assert_eq!(routes.len(), 2, "both mixer inputs must produce a route");
    assert!(routes.iter().all(|r| r.route_id == out_edge_id));
    let froms: HashSet<_> = routes.iter().map(|r| r.from_device_id.as_str()).collect();
    assert_eq!(froms.len(), 2);
    assert!(routes.iter().all(|r| r.to_device_id == "out-dev"));
    assert!(routes.iter().all(|r| r.chain.len() == 2), "chain = both edges");
    assert!(routes.iter().all(|r| r.chain.last() == Some(&out_edge_id)));
}

#[test]
fn resolve_marks_virtual_mic_destination() {
    let mut g = G::new();
    let src = make_node(NodeType::Source, "src-dev");
    let mic = labelled(NodeType::Virtual, "Nodus Virtual Mic", "mic-dev");
    let phones = labelled(NodeType::Output, "Наушники", "phones-dev");
    let speaker = labelled(NodeType::Virtual, "Nodus Virtual Speaker", "spk-dev");
    let (sid, mid, pid, vid) = (src.id.clone(), mic.id.clone(), phones.id.clone(), speaker.id.clone());
    g.add_node(src);
    g.add_node(mic);
    g.add_node(phones);
    g.add_node(speaker);
    g.add_route(route(&sid, &mid)).unwrap();
    g.add_route(route(&sid, &pid)).unwrap();
    g.add_route(route(&sid, &vid)).unwrap();

    let routes = g.resolve_device_routes();
    assert_eq!(routes.len(), 3);
    for r in &routes {
        match r.to_device_id.as_str() {
            "mic-dev" => assert!(r.to_is_virtual_mic, "virtual mic dest must be flagged"),
            "phones-dev" | "spk-dev" => assert!(!r.to_is_virtual_mic, "{} must not be flagged", r.to_device_id),
            other => panic!("unexpected destination {other}"),
        }
    }
}

#[test]
fn hub_taps_point_at_whatever_feeds_the_row() {
    let mut g = G::new();
    let src = make_node(NodeType::Source, "src-dev");
    let gate = fx_node(FxKind::Gate, "Gate");
    let mixer = labelled(NodeType::Mixer, "Mix", "");
    let out = make_node(NodeType::Output, "out-dev");
    let (sid, gid, mid, oid) = (src.id.clone(), gate.id.clone(), mixer.id.clone(), out.id.clone());
    g.add_node(src);
    g.add_node(gate);
    g.add_node(mixer);
    g.add_node(out);
    g.add_route(route(&sid, &gid)).unwrap();
    let into_hub = route(&gid, &mid);
    let into_hub_id = into_hub.id.clone();
    g.add_route(into_hub).unwrap();
    g.add_route(route(&mid, &oid)).unwrap();

    let routes = g.resolve_device_routes();
    assert_eq!(routes.len(), 1);
    let taps = &routes[0].hub_taps;
    assert_eq!(taps.len(), 1, "one hub row on this path (the mixer input)");
    assert_eq!(taps[0].edge, into_hub_id, "the row is addressed by its own edge");
    assert_eq!(taps[0].after_fx, Some(gid.clone()));
}

#[test]
fn hub_tap_without_fx_reads_the_source_capture() {
    let mut g = G::new();
    let src = make_node(NodeType::Source, "src-dev");
    let mixer = labelled(NodeType::Mixer, "Mix", "");
    let out = make_node(NodeType::Output, "out-dev");
    let (sid, mid, oid) = (src.id.clone(), mixer.id.clone(), out.id.clone());
    g.add_node(src);
    g.add_node(mixer);
    g.add_node(out);
    let into_hub = route(&sid, &mid);
    let into_hub_id = into_hub.id.clone();
    g.add_route(into_hub).unwrap();
    g.add_route(route(&mid, &oid)).unwrap();

    let taps = &g.resolve_device_routes()[0].hub_taps;
    assert_eq!(taps.len(), 1);
    assert_eq!(taps[0].edge, into_hub_id);
    assert!(taps[0].after_fx.is_none(), "no FX before the hub");
}

#[test]
fn resolve_collects_fx_chain_in_order() {
    let mut g = G::new();
    let src = make_node(NodeType::Source, "src-dev");
    let eq = fx_node(FxKind::Eq, "EQ");
    let gain = fx_node(FxKind::Gain, "Gain");
    let out = make_node(NodeType::Output, "out-dev");
    let (sid, eid, gid, oid) = (src.id.clone(), eq.id.clone(), gain.id.clone(), out.id.clone());
    g.add_node(src);
    g.add_node(eq);
    g.add_node(gain);
    g.add_node(out);
    g.add_route(route(&sid, &eid)).unwrap();
    g.add_route(route(&eid, &gid)).unwrap();
    g.add_route(route(&gid, &oid)).unwrap();

    let routes = g.resolve_device_routes();
    assert_eq!(routes.len(), 1);
    let fx = &routes[0].fx_chain;
    assert_eq!(fx.len(), 2, "both FX collected");
    assert_eq!(fx[0].spec, FxKind::Eq, "EQ first (upstream)");
    assert_eq!(fx[1].spec, FxKind::Gain, "Gain second (downstream)");
}

#[test]
fn resolve_splitter_fanout() {
    let mut g = G::new();
    let src = make_node(NodeType::Source, "src-dev");
    let spl = make_node(NodeType::Splitter, "");
    let out1 = make_node(NodeType::Output, "out-1");
    let out2 = make_node(NodeType::Output, "out-2");
    let (sid, spid, o1, o2) = (src.id.clone(), spl.id.clone(), out1.id.clone(), out2.id.clone());
    g.add_node(src);
    g.add_node(spl);
    g.add_node(out1);
    g.add_node(out2);
    g.add_route(route(&sid, &spid)).unwrap();
    g.add_route(route(&spid, &o1)).unwrap();
    g.add_route(route(&spid, &o2)).unwrap();

    let routes = g.resolve_device_routes();
    assert_eq!(routes.len(), 2);
}

#[test]
fn route_defaults_are_audible() {
    let r = route("a", "b");
    assert!(!r.muted);
    assert_eq!(r.params, 100);
    assert_eq!(r.from_node, "a");
    assert_eq!(r.to_node, "b");
}

#[test]
fn node_gets_unique_ids() {
    let a = make_node(NodeType::Source, "x");
    let b = make_node(NodeType::Source, "x");
    assert_ne!(a.id, b.id);
    assert_eq!(a.id.len(), 36);
}

#[test]
fn routes_from_and_to_and_sources() {
    let mut g = G::new();
    let a = make_node(NodeType::Source, "a");
    let m = make_node(NodeType::Mixer, "");
    let o = make_node(NodeType::Output, "o");
    let (aid, mid, oid) = (a.id.clone(), m.id.clone(), o.id.clone());
    g.add_node(a);
    g.add_node(m);
    g.add_node(o);
    g.add_route(route(&aid, &mid)).unwrap();
    g.add_route(route(&mid, &oid)).unwrap();
    assert_eq!(g.routes_from(&aid).len(), 1);
    assert_eq!(g.routes_to(&oid).len(), 1);
    assert_eq!(g.routes_to(&aid).len(), 0);
    let sources = g.source_nodes();
    assert_eq!(sources.len(), 1);
    assert_eq!(sources[0].id, aid);
}

#[test]
fn remove_route_reports_unknown_ids() {
    let mut g = G::new();
    let a = make_node(NodeType::Source, "a");
    let o = make_node(NodeType::Output, "o");
    let (aid, oid) = (a.id.clone(), o.id.clone());
    g.add_node(a);
    g.add_node(o);
    let r = route(&aid, &oid);
    let rid = r.id.clone();
    g.add_route(r).unwrap();
    g.remove_route(&rid).unwrap();
    assert!(matches!(g.remove_route(&rid), Err(GraphError::RouteNotFound(_))));
}

#[test]
fn bus_plan_builds_a_shared_effect_once_not_once_per_output() {
    let mut g = G::new();
    let mic = make_node(NodeType::Source, "mic-dev");
    let gate = fx_node(FxKind::Gate, "Noise Gate");
    let eq = fx_node(FxKind::Eq, "EQ");
    let split = labelled(NodeType::Splitter, "Splitter", "");
    let mixer = labelled(NodeType::Mixer, "Mixer", "");
    let out_a = make_node(NodeType::Output, "headphones");
    let out_b = make_node(NodeType::Output, "cable");
    let (mid, gid, eid, sid, xid, aid, bid) = (
        mic.id.clone(),
        gate.id.clone(),
        eq.id.clone(),
        split.id.clone(),
        mixer.id.clone(),
        out_a.id.clone(),
        out_b.id.clone(),
    );
    for n in [mic, gate, eq, split, mixer, out_a, out_b] {
        g.add_node(n);
    }
    g.add_route(route(&mid, &gid)).unwrap();
    g.add_route(route(&gid, &eid)).unwrap();
    g.add_route(route(&eid, &sid)).unwrap();
    g.add_route(route(&sid, &aid)).unwrap();
    g.add_route(route(&sid, &xid)).unwrap();
    g.add_route(route(&xid, &bid)).unwrap();

    let plan = g.resolve_bus_plan(FxKind::Gain);
    assert_eq!(plan.count_of(&gid), 1, "one gate, not one per output");
    assert_eq!(plan.count_of(&eid), 1, "one EQ, not one per output");
    assert_eq!(plan.sinks.len(), 2, "both outputs are still fed");
    let split_idx = plan.index_of(&sid).expect("splitter is in the plan");
    assert_eq!(plan.consumers_of(split_idx), 2, "splitter fans out to two branches");

    let flat = g.resolve_device_routes();
    assert_eq!(flat.len(), 2);
    assert!(
        flat.iter().all(|r| r.fx_chain.iter().any(|f| f.node_id == gid)),
        "the flat resolve puts the SAME gate on both routes — two instances"
    );
}

#[test]
fn bus_plan_sums_mixer_inputs_before_the_effect() {
    let mut g = G::new();
    let a = make_node(NodeType::Source, "dev-a");
    let b = make_node(NodeType::Source, "dev-b");
    let c = make_node(NodeType::Source, "dev-c");
    let mixer = labelled(NodeType::Mixer, "Mixer", "");
    let lim = fx_node(FxKind::Limiter, "Limiter");
    let out = make_node(NodeType::Output, "out-dev");
    let (aid, bid, cid, mid, lid, oid) =
        (a.id.clone(), b.id.clone(), c.id.clone(), mixer.id.clone(), lim.id.clone(), out.id.clone());
    for n in [a, b, c, mixer, lim, out] {
        g.add_node(n);
    }
    for s in [aid, bid, cid] {
        g.add_route(route(&s, &mid)).unwrap();
    }
    g.add_route(route(&mid, &lid)).unwrap();
    g.add_route(route(&lid, &oid)).unwrap();

    let plan = g.resolve_bus_plan(FxKind::Gain);
    assert_eq!(plan.count_of(&lid), 1, "one limiter on the bus");
    let mixer_idx = plan.index_of(&mid).expect("mixer is in the plan");
    match &plan.nodes[mixer_idx].op {
        BusOp::Sum { inputs } => assert_eq!(inputs.len(), 3, "all three sources summed"),
        other => panic!("mixer must be a summing point, got {other:?}"),
    }
    let lim_idx = plan.index_of(&lid).expect("limiter is in the plan");
    assert!(lim_idx > mixer_idx, "the limiter runs after the sum");
    for (i, n) in plan.nodes.iter().enumerate() {
        match &n.op {
            BusOp::Source { .. } => {}
            BusOp::Fx { input, .. } | BusOp::Pass { input } => assert!(input.from < i),
            BusOp::Sum { inputs } => assert!(inputs.iter().all(|x| x.from < i)),
        }
    }
}

#[test]
fn bus_plan_sums_in_front_of_an_effect_fed_twice() {
    let mut g = G::new();
    let a = make_node(NodeType::Source, "dev-a");
    let b = make_node(NodeType::Source, "dev-b");
    let fx = labelled(NodeType::Fx, "Unset", "");
    let out = make_node(NodeType::Output, "out-dev");
    let (aid, bid, fid, oid) = (a.id.clone(), b.id.clone(), fx.id.clone(), out.id.clone());
    for n in [a, b, fx, out] {
        g.add_node(n);
    }
    g.add_route(route(&aid, &fid)).unwrap();
    g.add_route(route(&bid, &fid)).unwrap();
    g.add_route(route(&fid, &oid)).unwrap();
    let plan = g.resolve_bus_plan(FxKind::Gain);
    let sum_idx = plan.index_of(&format!("{fid}::sum")).expect("a sum in front of the effect");
    let fx_idx = plan.index_of(&fid).expect("the effect");
    match &plan.nodes[fx_idx].op {
        BusOp::Fx { spec, input, .. } => {
            assert_eq!(*spec, FxKind::Gain, "an unset effect passes through");
            assert_eq!(input.from, sum_idx);
            assert!(input.edge.is_empty());
        }
        other => panic!("expected the effect, got {other:?}"),
    }
    assert_eq!(plan.sinks.len(), 1);
    assert_eq!(plan.sinks[0].chain.len(), 3);
}

#[test]
fn bus_plan_skips_unconfigured_sources() {
    let mut g = G::new();
    let a = make_node(NodeType::Source, "");
    let out = make_node(NodeType::Output, "out-dev");
    let (aid, oid) = (a.id.clone(), out.id.clone());
    g.add_node(a);
    g.add_node(out);
    g.add_route(route(&aid, &oid)).unwrap();
    let plan = g.resolve_bus_plan(FxKind::Gain);
    assert!(plan.nodes.is_empty());
    assert!(plan.sinks.is_empty());
}

#[test]
fn node_and_route_ids_are_v4_uuid_text() {
    let n = make_node(NodeType::Source, "dev");
    let r = route("a", "b");
    for id in [&n.id, &r.id] {
        assert_eq!(id.len(), 36);
        let c: Vec<char> = id.chars().collect();
        for (i, ch) in c.iter().enumerate() {
            if [8, 13, 18, 23].contains(&i) {
                assert_eq!(*ch, '-');
            } else {
                assert!(ch.is_ascii_digit() || ('a'..='f').contains(ch), "{id}");
            }
        }
        assert_eq!(c[14], '4');
        assert!(['8', '9', 'a', 'b'].contains(&c[19]));
    }
}

#[test]
fn bus_sink_chain_holds_exactly_the_routes_upstream() {
    let mut g = G::new();
    let mic = make_node(NodeType::Source, "mic-dev");
    let split = labelled(NodeType::Splitter, "Splitter", "");
    let mixer = labelled(NodeType::Mixer, "Mixer", "");
    let other = make_node(NodeType::Source, "other-dev");
    let out_a = make_node(NodeType::Output, "headphones");
    let out_b = make_node(NodeType::Output, "cable");
    let (mid, sid, xid, oid, aid, bid) =
        (mic.id.clone(), split.id.clone(), mixer.id.clone(), other.id.clone(), out_a.id.clone(), out_b.id.clone());
    for n in [mic, split, mixer, other, out_a, out_b] {
        g.add_node(n);
    }
    let r_ms = route(&mid, &sid);
    let r_sa = route(&sid, &aid);
    let r_sx = route(&sid, &xid);
    let r_ox = route(&oid, &xid);
    let r_xb = route(&xid, &bid);
    let ids: Vec<String> = [&r_ms, &r_sa, &r_sx, &r_ox, &r_xb].iter().map(|r| r.id.clone()).collect();
    for r in [r_ms, r_sa, r_sx, r_ox, r_xb] {
        g.add_route(r).unwrap();
    }
    let plan = g.resolve_bus_plan(FxKind::Gain);
    let to_b = plan.sinks.iter().find(|s| s.route_id == ids[4]).expect("a sink into the cable");
    let chain: HashSet<&String> = to_b.chain.iter().collect();
    let expected: HashSet<&String> = [&ids[0], &ids[2], &ids[3], &ids[4]].into_iter().collect();
    assert_eq!(chain, expected, "every route upstream of the mixer, and the final one");
    assert_eq!(to_b.chain.last(), Some(&ids[4]));
    let to_a = plan.sinks.iter().find(|s| s.route_id == ids[1]).expect("a sink into the headphones");
    let chain_a: HashSet<&String> = to_a.chain.iter().collect();
    assert_eq!(chain_a, [&ids[0], &ids[1]].into_iter().collect::<HashSet<_>>());
}

#[test]
fn bus_sinks_come_by_output_id_then_route_id() {
    let mut g = G::new();
    let a = make_node(NodeType::Source, "dev-a");
    let b = make_node(NodeType::Source, "dev-b");
    let o1 = make_node(NodeType::Output, "out-1");
    let o2 = make_node(NodeType::Output, "out-2");
    let (aid, bid, o1id, o2id) = (a.id.clone(), b.id.clone(), o1.id.clone(), o2.id.clone());
    for n in [a, b, o1, o2] {
        g.add_node(n);
    }
    let mut expected: Vec<(String, String)> = Vec::new();
    for (from, to) in [(&aid, &o1id), (&bid, &o1id), (&aid, &o2id), (&bid, &o2id)] {
        let r = route(from, to);
        expected.push((to.clone(), r.id.clone()));
        g.add_route(r).unwrap();
    }
    expected.sort();
    let plan = g.resolve_bus_plan(FxKind::Gain);
    let got: Vec<String> = plan.sinks.iter().map(|s| s.route_id.clone()).collect();
    let want: Vec<String> = expected.into_iter().map(|(_, r)| r).collect();
    assert_eq!(got, want);
}

#[test]
fn resolved_routes_are_paths_ending_at_their_route() {
    let mut g = G::new();
    let src = make_node(NodeType::Source, "src-dev");
    let spl = make_node(NodeType::Splitter, "");
    let out1 = make_node(NodeType::Output, "out-1");
    let out2 = make_node(NodeType::Output, "out-2");
    let (sid, spid, o1, o2) = (src.id.clone(), spl.id.clone(), out1.id.clone(), out2.id.clone());
    g.add_node(src);
    g.add_node(spl);
    g.add_node(out1);
    g.add_node(out2);
    let first = route(&sid, &spid);
    let first_id = first.id.clone();
    g.add_route(first).unwrap();
    g.add_route(route(&spid, &o1)).unwrap();
    g.add_route(route(&spid, &o2)).unwrap();
    g.set_mute(&first_id, true).unwrap();
    for ar in g.resolve_device_routes() {
        assert_eq!(ar.chain.last(), Some(&ar.route_id));
        assert_eq!(ar.chain[0], first_id);
        assert_eq!(ar.from_device_id, "src-dev");
        assert!(!ar.to_device_id.is_empty());
        assert!(ar.muted, "the muted first edge mutes every chain through it");
    }
}

#[test]
fn bus_plan_builds_only_what_an_output_uses() {
    let mut g = G::new();
    let used = make_node(NodeType::Source, "mic");
    let idle = make_node(NodeType::Source, "line-in");
    let mix = make_node(NodeType::Mixer, "");
    let out = make_node(NodeType::Output, "out-dev");
    let (uid, idle_id, mid, oid) = (used.id.clone(), idle.id.clone(), mix.id.clone(), out.id.clone());
    g.add_node(used);
    g.add_node(idle);
    g.add_node(mix);
    g.add_node(out);
    g.add_route(route(&uid, &mid)).unwrap();
    g.add_route(route(&mid, &oid)).unwrap();
    let plan = g.resolve_bus_plan(FxKind::Gain);
    assert!(plan.index_of(&idle_id).is_none(), "an unrouted source is never built");
    assert_eq!(plan.nodes.len(), 2);
    for k in 0..plan.nodes.len() {
        assert!(plan.consumers_of(k) > 0, "every plan node feeds something");
    }
}
