//! The graph as the engine runs it: a plan in which every graph node exists
//! once, in an order where each node comes after everything it reads.
//!
//! The flat resolve walks forwards from each source and rebuilds a shared
//! path once per output; this plan walks backwards from each output and
//! remembers what it built, so a node feeding two outputs is built once and
//! read twice.

use vstd::prelude::*;

use crate::graph::{count_of, has_node, has_pair, has_route, lemma_count_zero, node_pos, route_pos, Graph, Node, NodeType, Route, RoutingGraph};
use crate::text::{lemma_str_lt_total, lemma_str_lt_trans, lowercase_of, opt_view, str_eq, str_less, str_lt};
use crate::virtual_device::{is_nodus_virtual_mic_name, is_nodus_virtual_name, nodus_marker, nodus_mic_marker};

verus! {

// ── The plan ────────────────────────────────────────────────────────────────

/// Where a plan node gets its signal, and over which graph edge.
#[derive(Debug, Clone)]
pub struct BusInput {
    /// Index of the plan node read; always smaller than the reader's own.
    pub from: usize,
    /// The graph edge feeding this input (empty for a node's own sum).
    pub edge: String,
}

/// One unit of work in the plan.
#[derive(Debug, Clone)]
pub enum BusOp<X> {
    /// A capture: an app, a device, or a Nodus virtual endpoint.
    Source {
        /// The key captures are shared by: `exe:<name>` or the device id.
        key: String,
        device_id: String,
        exe_name: Option<String>,
        is_virtual: bool,
    },
    /// An effect, processed once.
    Fx { node_id: String, spec: X, input: BusInput },
    /// A summing point: a mixer, or the sum in front of an effect fed by
    /// several edges.
    Sum { inputs: Vec<BusInput> },
    /// A pass-through: a splitter, or a mixer with one input.
    Pass { input: BusInput },
}

/// One node of the plan.
#[derive(Debug, Clone)]
pub struct BusNode<X> {
    /// The graph node it was built for (`<id>::sum` for an effect's sum).
    pub node_id: String,
    pub op: BusOp<X>,
}

/// An output the plan feeds; volume, mute and balance belong to the branch.
#[derive(Debug, Clone)]
pub struct BusSink {
    /// The plan node rendered.
    pub input: usize,
    /// The final edge into the output.
    pub route_id: String,
    /// Edges traversed from the source to the output, the final edge last.
    pub chain: Vec<String>,
    pub to_device_id: String,
    pub to_is_virtual_mic: bool,
}

/// The graph as the engine should run it.
#[derive(Debug, Clone)]
pub struct BusPlan<X> {
    /// Every node's inputs have smaller indices.
    pub nodes: Vec<BusNode<X>>,
    pub sinks: Vec<BusSink>,
}

/// The inputs an operation reads.
pub open spec fn inputs_of<X>(op: BusOp<X>) -> Seq<BusInput> {
    match op {
        BusOp::Source { .. } => Seq::empty(),
        BusOp::Fx { input, .. } => seq![input],
        BusOp::Sum { inputs } => inputs@,
        BusOp::Pass { input } => seq![input],
    }
}

/// The graph node ids of plan nodes, in plan order.
pub open spec fn plan_ids<X>(nodes: Seq<BusNode<X>>) -> Seq<Seq<char>> {
    nodes.map_values(|n: BusNode<X>| n.node_id@)
}

/// Operation `op` reads plan node `index`.
pub open spec fn reads<X>(op: BusOp<X>, index: int) -> bool {
    exists|j: int| 0 <= j < inputs_of(op).len() && inputs_of(op)[j].from == index
}

/// How many plan nodes read plan node `index`.
pub open spec fn readers<X>(nodes: Seq<BusNode<X>>, index: int) -> nat
    decreases nodes.len(),
{
    if nodes.len() == 0 {
        0
    } else {
        readers(nodes.drop_last(), index) + if reads(nodes.last().op, index) {
            1nat
        } else {
            0nat
        }
    }
}

/// How many sinks render plan node `index`.
pub open spec fn sinks_of(sinks: Seq<BusSink>, index: int) -> nat
    decreases sinks.len(),
{
    if sinks.len() == 0 {
        0
    } else {
        sinks_of(sinks.drop_last(), index) + if sinks.last().input == index {
            1nat
        } else {
            0nat
        }
    }
}

fn op_reads<X>(op: &BusOp<X>, index: usize) -> (b: bool)
    ensures
        b == reads(*op, index as int),
{
    match op {
        BusOp::Source { .. } => false,
        BusOp::Fx { input, .. } => {
            assert(inputs_of(*op)[0] == *input);
            input.from == index
        },
        BusOp::Pass { input } => {
            assert(inputs_of(*op)[0] == *input);
            input.from == index
        },
        BusOp::Sum { inputs } => {
            let mut j: usize = 0;
            while j < inputs.len()
                invariant
                    j <= inputs@.len(),
                    inputs_of(*op) == inputs@,
                    forall|t: int| 0 <= t < j ==> inputs@[t].from != index,
                decreases inputs@.len() - j,
            {
                if inputs[j].from == index {
                    return true;
                }
                j += 1;
            }
            false
        },
    }
}

impl<X> BusPlan<X> {
    /// How many plan nodes were built for graph node `node_id`.
    pub fn count_of(&self, node_id: &str) -> (n: usize)
        ensures
            n == count_of(plan_ids(self.nodes@), node_id@),
    {
        let mut n: usize = 0;
        let mut i: usize = 0;
        while i < self.nodes.len()
            invariant
                i <= self.nodes@.len(),
                n <= i,
                n == count_of(plan_ids(self.nodes@.take(i as int)), node_id@),
            decreases self.nodes@.len() - i,
        {
            assert(plan_ids(self.nodes@.take(i + 1)).drop_last() =~= plan_ids(self.nodes@.take(i as int)));
            if str_eq(self.nodes[i].node_id.as_str(), node_id) {
                n += 1;
            }
            i += 1;
        }
        assert(self.nodes@.take(i as int) =~= self.nodes@);
        n
    }

    /// The first plan node built for graph node `node_id`.
    pub fn index_of(&self, node_id: &str) -> (r: Option<usize>)
        ensures
            match r {
                Some(i) => i < self.nodes@.len() && self.nodes@[i as int].node_id@ == node_id@ && forall|j: int|
                    0 <= j < i ==> (#[trigger] self.nodes@[j]).node_id@ != node_id@,
                None => forall|j: int| 0 <= j < self.nodes@.len() ==> (#[trigger] self.nodes@[j]).node_id@ != node_id@,
            },
    {
        let mut i: usize = 0;
        while i < self.nodes.len()
            invariant
                i <= self.nodes@.len(),
                forall|j: int| 0 <= j < i ==> (#[trigger] self.nodes@[j]).node_id@ != node_id@,
            decreases self.nodes@.len() - i,
        {
            if str_eq(self.nodes[i].node_id.as_str(), node_id) {
                return Some(i);
            }
            i += 1;
        }
        None
    }

    /// How many consumers read plan node `index`: the plan nodes reading
    /// it and the sinks rendering it. One is a chain, several a fan-out.
    pub fn consumers_of(&self, index: usize) -> (n: usize)
        requires
            self.nodes@.len() + self.sinks@.len() <= usize::MAX,
        ensures
            n == readers(self.nodes@, index as int) + sinks_of(self.sinks@, index as int),
    {
        let mut n: usize = 0;
        let mut i: usize = 0;
        while i < self.nodes.len()
            invariant
                i <= self.nodes@.len(),
                self.nodes@.len() + self.sinks@.len() <= usize::MAX,
                n <= i,
                n == readers(self.nodes@.take(i as int), index as int),
            decreases self.nodes@.len() - i,
        {
            assert(self.nodes@.take(i + 1).drop_last() =~= self.nodes@.take(i as int));
            if op_reads(&self.nodes[i].op, index) {
                n += 1;
            }
            i += 1;
        }
        assert(self.nodes@.take(i as int) =~= self.nodes@);
        let mut k: usize = 0;
        let ghost base = n;
        while k < self.sinks.len()
            invariant
                k <= self.sinks@.len(),
                base <= self.nodes@.len(),
                self.nodes@.len() + self.sinks@.len() <= usize::MAX,
                base == readers(self.nodes@, index as int),
                n == base + sinks_of(self.sinks@.take(k as int), index as int),
                sinks_of(self.sinks@.take(k as int), index as int) <= k,
            decreases self.sinks@.len() - k,
        {
            assert(self.sinks@.take(k + 1).drop_last() =~= self.sinks@.take(k as int));
            if self.sinks[k].input == index {
                n += 1;
            }
            k += 1;
        }
        assert(self.sinks@.take(k as int) =~= self.sinks@);
        n
    }
}

// ── Ordering ────────────────────────────────────────────────────────────────

/// `idx` holds each value at most once.
pub open spec fn distinct_idx(idx: Seq<usize>) -> bool {
    forall|a: int, b: int| 0 <= a < b < idx.len() ==> idx[a] != idx[b]
}

/// The positions `idx` into `keys`, ordered by their keys (strictly: the
/// keys are distinct), holding the same positions.
pub open spec fn sorted_by_keys(keys: Seq<Seq<char>>, idx: Seq<usize>, out: Seq<usize>) -> bool {
    &&& out.len() == idx.len()
    &&& forall|x: usize| out.contains(x) <==> idx.contains(x)
    &&& forall|a: int, b: int| 0 <= a < b < out.len() ==> str_lt(keys[out[a] as int], keys[out[b] as int])
}

/// The keys of a list of strings.
pub open spec fn key_view(keys: Seq<&str>) -> Seq<Seq<char>> {
    keys.map_values(|k: &str| k@)
}

/// Sort positions into `keys` by key (selection sort; the keys at the given
/// positions are distinct).
fn sort_by_keys(keys: &Vec<&str>, idx: Vec<usize>) -> (out: Vec<usize>)
    requires
        forall|j: int| 0 <= j < idx@.len() ==> #[trigger] idx@[j] < keys@.len(),
        distinct_idx(idx@),
        forall|a: int, b: int|
            0 <= a < b < idx@.len() ==> key_view(keys@)[idx@[a] as int] != key_view(keys@)[idx@[b] as int],
    ensures
        sorted_by_keys(key_view(keys@), idx@, out@),
{
    let ghost kv = key_view(keys@);
    let mut rem = idx;
    let mut out: Vec<usize> = Vec::new();
    while rem.len() > 0
        invariant
            kv == key_view(keys@),
            out@.len() + rem@.len() == idx@.len(),
            forall|x: usize| idx@.contains(x) <==> (out@.contains(x) || rem@.contains(x)),
            forall|j: int| 0 <= j < rem@.len() ==> #[trigger] rem@[j] < keys@.len(),
            forall|j: int| 0 <= j < out@.len() ==> #[trigger] out@[j] < keys@.len(),
            distinct_idx(rem@),
            forall|a: int, b: int| 0 <= a < b < rem@.len() ==> kv[rem@[a] as int] != kv[rem@[b] as int],
            forall|a: int, b: int| 0 <= a < b < out@.len() ==> str_lt(kv[out@[a] as int], kv[out@[b] as int]),
            forall|a: int, j: int|
                0 <= a < out@.len() && 0 <= j < rem@.len() ==> str_lt(kv[out@[a] as int], kv[rem@[j] as int]),
            forall|a: int, j: int| 0 <= a < out@.len() && 0 <= j < rem@.len() ==> out@[a] != rem@[j],
        decreases rem@.len(),
    {
        let mut m: usize = 0;
        let mut s: usize = 1;
        while s < rem.len()
            invariant
                kv == key_view(keys@),
                rem@.len() > 0,
                m < s <= rem@.len(),
                forall|j: int| 0 <= j < rem@.len() ==> #[trigger] rem@[j] < keys@.len(),
                forall|a: int, b: int| 0 <= a < b < rem@.len() ==> kv[rem@[a] as int] != kv[rem@[b] as int],
                forall|t: int| 0 <= t < s && t != m ==> str_lt(kv[rem@[m as int] as int], kv[rem@[t] as int]),
            decreases rem@.len() - s,
        {
            let ks = keys[rem[s]];
            let km = keys[rem[m]];
            if str_less(ks, km) {
                proof {
                    assert forall|t: int| 0 <= t < s + 1 && t != s implies str_lt(
                        kv[rem@[s as int] as int],
                        kv[rem@[t] as int],
                    ) by {
                        if t != m {
                            lemma_str_lt_trans(kv[rem@[s as int] as int], kv[rem@[m as int] as int], kv[rem@[t] as int]);
                        }
                    }
                }
                m = s;
            } else {
                proof {
                    lemma_str_lt_total(kv[rem@[s as int] as int], kv[rem@[m as int] as int]);
                    assert(kv[rem@[m as int] as int] != kv[rem@[s as int] as int]);
                }
            }
            s += 1;
        }
        let ghost before_rem = rem@;
        let ghost before_out = out@;
        let x = rem.remove(m);
        out.push(x);
        proof {
            assert forall|y: usize| idx@.contains(y) implies (out@.contains(y) || rem@.contains(y)) by {
                if before_out.contains(y) {
                    let a = choose|a: int| 0 <= a < before_out.len() && before_out[a] == y;
                    assert(out@[a] == y);
                } else {
                    let j = choose|j: int| 0 <= j < before_rem.len() && before_rem[j] == y;
                    if j < m {
                        assert(rem@[j] == y);
                    } else if j > m {
                        assert(rem@[j - 1] == y);
                    } else {
                        assert(out@[before_out.len() as int] == y);
                    }
                }
            }
            assert forall|y: usize| (out@.contains(y) || rem@.contains(y)) implies idx@.contains(y) by {
                if out@.contains(y) {
                    let a = choose|a: int| 0 <= a < out@.len() && out@[a] == y;
                    if a < before_out.len() {
                        assert(before_out[a] == y);
                    } else {
                        assert(before_rem[m as int] == y);
                    }
                } else {
                    let j = choose|j: int| 0 <= j < rem@.len() && rem@[j] == y;
                    if j < m {
                        assert(before_rem[j] == y);
                    } else {
                        assert(before_rem[j + 1] == y);
                    }
                }
            }
            assert forall|a: int, b: int| 0 <= a < b < out@.len() implies str_lt(
                kv[out@[a] as int],
                kv[out@[b] as int],
            ) by {
                if b == before_out.len() {
                    assert(out@[b] == before_rem[m as int]);
                }
            }
            assert forall|a: int, j: int| 0 <= a < out@.len() && 0 <= j < rem@.len() implies str_lt(
                kv[out@[a] as int],
                kv[rem@[j] as int],
            ) by {
                let jj = if j < m { j } else { j + 1 };
                assert(rem@[j] == before_rem[jj]);
                if a == before_out.len() {
                    assert(out@[a] == before_rem[m as int]);
                    assert(jj != m);
                }
            }
            assert forall|a: int, j: int| 0 <= a < out@.len() && 0 <= j < rem@.len() implies out@[a]
                != rem@[j] by {
                let jj = if j < m { j } else { j + 1 };
                assert(rem@[j] == before_rem[jj]);
                if a == before_out.len() {
                    assert(out@[a] == before_rem[m as int]);
                }
            }
            assert forall|a: int, b: int| 0 <= a < b < rem@.len() implies kv[rem@[a] as int] != kv[rem@[b] as int] by {
                let aa = if a < m { a } else { a + 1 };
                let bb = if b < m { b } else { b + 1 };
                assert(rem@[a] == before_rem[aa]);
                assert(rem@[b] == before_rem[bb]);
            }
            assert forall|a: int, b: int| 0 <= a < b < rem@.len() implies rem@[a] != rem@[b] by {
                let aa = if a < m { a } else { a + 1 };
                let bb = if b < m { b } else { b + 1 };
                assert(rem@[a] == before_rem[aa]);
                assert(rem@[b] == before_rem[bb]);
            }
        }
    }
    out
}

// ── The graph, as the plan sees it ──────────────────────────────────────────

/// The node with id `id` (meaningful when there is one).
pub open spec fn node_of<X>(ns: Seq<Node<X>>, id: Seq<char>) -> Node<X> {
    ns[node_pos(ns, id)]
}

/// A node that captures: a source, or a virtual endpoint used as one.
pub open spec fn is_source_kind(t: NodeType) -> bool {
    t == NodeType::Source || t == NodeType::Virtual
}

/// A node that processes what feeds it: an effect, a mixer or a splitter.
pub open spec fn is_hub_kind(t: NodeType) -> bool {
    t == NodeType::Fx || t == NodeType::Mixer || t == NodeType::Splitter
}

/// A node that can be an output: an output, or a virtual endpoint fed by edges.
pub open spec fn is_output_kind(t: NodeType) -> bool {
    t == NodeType::Output || t == NodeType::Virtual
}

/// A capture node knows what to capture: a device or an app.
pub open spec fn configured<X>(n: Node<X>) -> bool {
    n.device_id@.len() > 0 || n.exe_name is Some
}

/// The key captures are shared by: `exe:<name>` for an app, else the
/// device id.
pub open spec fn source_key<X>(n: Node<X>) -> Seq<char> {
    match n.exe_name {
        Some(e) => "exe:"@ + e@,
        None => n.device_id@,
    }
}

/// The plan id of the sum in front of effect `id`.
pub open spec fn sum_id(id: Seq<char>) -> Seq<char> {
    id + "::sum"@
}

/// An effect's settings, or the stand-in for an effect not configured yet.
pub open spec fn fx_or<X>(fx: Option<X>, pass: X) -> X {
    match fx {
        Some(s) => s,
        None => pass,
    }
}

/// Graph route `e` goes from node `from` to node `to`.
pub open spec fn edge_from_to<A>(rs: Seq<Route<A>>, e: Seq<char>, from: Seq<char>, to: Seq<char>) -> bool {
    &&& has_route(rs, e)
    &&& rs[route_pos(rs, e)].from_node@ == from
    &&& rs[route_pos(rs, e)].to_node@ == to
}

/// Input `inp` reads an earlier plan node over a graph route into node `to`
/// from the node that plan node was built for.
pub open spec fn input_ok<X, A>(rs: Seq<Route<A>>, nodes: Seq<BusNode<X>>, inp: BusInput, to: Seq<char>) -> bool {
    &&& inp.from < nodes.len()
    &&& edge_from_to(rs, inp.edge@, nodes[inp.from as int].node_id@, to)
}

/// A sum's inputs all arrive at one node: the mixer it is, or the effect it
/// sits in front of.
pub open spec fn sum_ok<X, A>(ns: Seq<Node<X>>, rs: Seq<Route<A>>, nodes: Seq<BusNode<X>>, id: Seq<char>, ins: Seq<BusInput>) -> bool {
    ||| {
        &&& has_node(ns, id)
        &&& node_of(ns, id).node_type == NodeType::Mixer
        &&& forall|j: int| 0 <= j < ins.len() ==> #[trigger] input_ok(rs, nodes, ins[j], id)
    }
    ||| {
        let t = id.take(id.len() - 5);
        &&& id.len() >= 5
        &&& id == sum_id(t)
        &&& has_node(ns, t)
        &&& node_of(ns, t).node_type == NodeType::Fx
        &&& multi_fed(rs, t)
        &&& forall|j: int| 0 <= j < ins.len() ==> #[trigger] input_ok(rs, nodes, ins[j], t)
    }
}

/// Plan node `k` is what the graph says: it reads only earlier nodes, over
/// graph routes into the node it was built for, and its operation matches
/// that node (a configured capture with its key, the effect's settings, a
/// sum of at least two, a mixer's or splitter's pass-through).
pub open spec fn node_ok<X, A>(ns: Seq<Node<X>>, rs: Seq<Route<A>>, nodes: Seq<BusNode<X>>, k: int, pass: X) -> bool {
    let bn = nodes[k];
    &&& forall|j: int| 0 <= j < inputs_of(bn.op).len() ==> #[trigger] inputs_of(bn.op)[j].from < k
    &&& match bn.op {
        BusOp::Source { key, device_id, exe_name, is_virtual } => {
            let n = node_of(ns, bn.node_id@);
            &&& has_node(ns, bn.node_id@)
            &&& is_source_kind(n.node_type)
            &&& configured(n)
            &&& key@ == source_key(n)
            &&& device_id@ == n.device_id@
            &&& opt_view(&exe_name) == opt_view(&n.exe_name)
            &&& is_virtual == nodus_marker(lowercase_of(n.label@))
        },
        BusOp::Fx { node_id, spec, input } => {
            let n = node_of(ns, node_id@);
            &&& node_id@ == bn.node_id@
            &&& has_node(ns, node_id@)
            &&& n.node_type == NodeType::Fx
            &&& spec == fx_or(n.fx, pass)
            &&& (input_ok(rs, nodes, input, node_id@) || {
                &&& input.edge@.len() == 0
                &&& input.from < nodes.len()
                &&& nodes[input.from as int].op is Sum
                &&& nodes[input.from as int].node_id@ == sum_id(node_id@)
                &&& multi_fed(rs, node_id@)
            })
        },
        BusOp::Sum { inputs } => {
            &&& inputs@.len() >= 2
            &&& sum_ok(ns, rs, nodes, bn.node_id@, inputs@)
        },
        BusOp::Pass { input } => {
            let n = node_of(ns, bn.node_id@);
            &&& has_node(ns, bn.node_id@)
            &&& (n.node_type == NodeType::Mixer || n.node_type == NodeType::Splitter)
            &&& input_ok(rs, nodes, input, bn.node_id@)
        },
    }
}

/// Every plan node is what the graph says (see `node_ok`).
pub open spec fn plan_sound<X, A>(ns: Seq<Node<X>>, rs: Seq<Route<A>>, nodes: Seq<BusNode<X>>, pass: X) -> bool {
    forall|k: int| 0 <= k < nodes.len() ==> #[trigger] node_ok(ns, rs, nodes, k, pass)
}

/// A sink renders an output: its final route goes from the node its plan
/// node was built for into an output node with a device, whose device and
/// microphone flag it carries, and its chain ends with that route and holds
/// exactly that route and every route upstream of its source.
pub open spec fn sink_ok<X, A>(ns: Seq<Node<X>>, rs: Seq<Route<A>>, nodes: Seq<BusNode<X>>, s: BusSink) -> bool {
    let r = rs[route_pos(rs, s.route_id@)];
    let o = node_of(ns, r.to_node@);
    &&& s.input < nodes.len()
    &&& edge_from_to(rs, s.route_id@, nodes[s.input as int].node_id@, r.to_node@)
    &&& has_node(ns, r.to_node@)
    &&& is_output_kind(o.node_type)
    &&& o.device_id@.len() > 0
    &&& s.to_device_id@ == o.device_id@
    &&& s.to_is_virtual_mic == nodus_mic_marker(lowercase_of(o.label@))
    &&& s.chain@.len() > 0
    &&& s.chain@.last()@ == s.route_id@
    &&& forall|j: int| 0 <= j < s.chain@.len() ==> has_route(rs, (#[trigger] s.chain@[j])@)
    &&& chain_exact(rs, s.chain@, route_pos(rs, s.route_id@))
}

/// The latest plan index remembered for `key`.
pub open spec fn memo(built: Seq<(String, usize)>, key: Seq<char>) -> Option<usize>
    decreases built.len(),
{
    if built.len() == 0 {
        None
    } else if built.last().0@ == key {
        Some(built.last().1)
    } else {
        memo(built.drop_last(), key)
    }
}

/// Every remembered index is a plan node built for its key.
pub open spec fn built_ok<X>(nodes: Seq<BusNode<X>>, built: Seq<(String, usize)>) -> bool {
    forall|i: int|
        0 <= i < built.len() ==> (#[trigger] built[i]).1 < nodes.len() && nodes[built[i].1 as int].node_id@
            == built[i].0@
}

/// The nodes being resolved are graph nodes, each once.
pub open spec fn visiting_ok<X>(ns: Seq<Node<X>>, v: Seq<String>) -> bool {
    &&& forall|j: int| 0 <= j < v.len() ==> has_node(ns, (#[trigger] v[j])@)
    &&& forall|a: int, b: int| 0 <= a < b < v.len() ==> (#[trigger] v[a])@ != (#[trigger] v[b])@
}

proof fn lemma_memo_entry(built: Seq<(String, usize)>, key: Seq<char>)
    ensures
        memo(built, key) matches Some(k) ==> exists|i: int|
            0 <= i < built.len() && (#[trigger] built[i]).0@ == key && built[i].1 == k,
    decreases built.len(),
{
    if built.len() > 0 && built.last().0@ != key {
        lemma_memo_entry(built.drop_last(), key);
        if memo(built, key) is Some {
            let i = choose|i: int|
                0 <= i < built.drop_last().len() && (#[trigger] built.drop_last()[i]).0@ == key
                    && built.drop_last()[i].1 == memo(built, key)->0;
            assert(built[i] == built.drop_last()[i]);
        }
    }
    if built.len() > 0 && built.last().0@ == key {
        assert(built[built.len() - 1] == built.last());
    }
}

/// A sequence of distinct values, each one of `ks`, is no longer than `ks`.
proof fn lemma_distinct_within(v: Seq<Seq<char>>, ks: Seq<Seq<char>>)
    requires
        forall|a: int, b: int| 0 <= a < b < v.len() ==> v[a] != v[b],
        forall|j: int| 0 <= j < v.len() ==> ks.contains(v[j]),
    ensures
        v.len() <= ks.len(),
{
    assert(v.no_duplicates());
    v.unique_seq_to_set();
    ks.lemma_cardinality_of_set();
    assert(v.to_set().subset_of(ks.to_set()));
    vstd::set_lib::lemma_len_subset(v.to_set(), ks.to_set());
}

/// The ids of a node list.
pub open spec fn node_ids<X>(ns: Seq<Node<X>>) -> Seq<Seq<char>> {
    ns.map_values(|n: Node<X>| n.id@)
}

/// The ids of a route list.
pub open spec fn route_ids<A>(rs: Seq<Route<A>>) -> Seq<Seq<char>> {
    rs.map_values(|r: Route<A>| r.id@)
}

proof fn lemma_visiting_bound<X>(ns: Seq<Node<X>>, v: Seq<String>)
    requires
        visiting_ok(ns, v),
    ensures
        v.len() <= ns.len(),
{
    let vv = v.map_values(|s: String| s@);
    assert forall|j: int| 0 <= j < vv.len() implies node_ids(ns).contains(vv[j]) by {
        assert(has_node(ns, v[j]@));
        let i = choose|i: int| 0 <= i < ns.len() && (#[trigger] ns[i]).id@ == v[j]@;
        assert(node_ids(ns)[i] == vv[j]);
    }
    assert forall|a: int, b: int| 0 <= a < b < vv.len() implies vv[a] != vv[b] by {
        assert(v[a]@ != v[b]@);
    }
    lemma_distinct_within(vv, node_ids(ns));
}

/// With unique ids, the route at position `i` is the one its id finds.
proof fn lemma_route_at<A>(rs: Seq<Route<A>>, i: int)
    requires
        crate::graph::unique_route_ids(rs),
        0 <= i < rs.len(),
    ensures
        has_route(rs, rs[i].id@),
        route_pos(rs, rs[i].id@) == i,
{
    assert(rs[i].id@ == rs[i].id@);
    let p = route_pos(rs, rs[i].id@);
    if p != i {
        if p < i {
            assert(rs[p].id@ != rs[i].id@);
        } else {
            assert(rs[i].id@ != rs[p].id@);
        }
    }
}

/// The positions of the routes arriving at node `id`, in order.
fn incoming_routes<A>(rs: &[Route<A>], id: &str) -> (out: Vec<usize>)
    ensures
        forall|j: int| 0 <= j < out@.len() ==> #[trigger] out@[j] < rs@.len() && rs@[out@[j] as int].to_node@ == id@,
        forall|i: int| 0 <= i < rs@.len() && rs@[i].to_node@ == id@ ==> out@.contains(i as usize),
        forall|a: int, b: int| 0 <= a < b < out@.len() ==> out@[a] < out@[b],
{
    let mut out: Vec<usize> = Vec::new();
    let mut i: usize = 0;
    while i < rs.len()
        invariant
            i <= rs@.len(),
            forall|j: int| 0 <= j < out@.len() ==> #[trigger] out@[j] < i && rs@[out@[j] as int].to_node@ == id@,
            forall|x: int| 0 <= x < i && rs@[x].to_node@ == id@ ==> out@.contains(x as usize),
            forall|a: int, b: int| 0 <= a < b < out@.len() ==> out@[a] < out@[b],
        decreases rs@.len() - i,
    {
        if str_eq(rs[i].to_node.as_str(), id) {
            let ghost before = out@;
            out.push(i);
            proof {
                assert(out@[out@.len() - 1] == i);
                assert forall|x: int| 0 <= x < i + 1 && rs@[x].to_node@ == id@ implies out@.contains(
                    x as usize,
                ) by {
                    if x < i {
                        let k = choose|k: int| 0 <= k < before.len() && before[k] == x as usize;
                        assert(out@[k] == x as usize);
                    }
                }
            }
        }
        i += 1;
    }
    out
}

/// The ids of the routes, as keys to order by.
fn route_keys<A>(rs: &[Route<A>]) -> (keys: Vec<&str>)
    ensures
        key_view(keys@) == route_ids(rs@),
{
    let mut keys: Vec<&str> = Vec::new();
    let mut i: usize = 0;
    while i < rs.len()
        invariant
            i <= rs@.len(),
            keys@.len() == i,
            key_view(keys@) == route_ids(rs@.take(i as int)),
        decreases rs@.len() - i,
    {
        let k = rs[i].id.as_str();
        let ghost before = keys@;
        keys.push(k);
        proof {
            assert(k@ == rs@[i as int].id@);
            assert forall|j: int| 0 <= j < i + 1 implies key_view(keys@)[j] == route_ids(rs@.take(i + 1))[j] by {
                if j < i {
                    assert(keys@[j] == before[j]);
                    assert(key_view(before)[j] == route_ids(rs@.take(i as int))[j]);
                }
            }
            assert(key_view(keys@) =~= route_ids(rs@.take(i + 1)));
        }
        i += 1;
    }
    assert(rs@.take(i as int) =~= rs@);
    keys
}

/// The ids of the nodes, as keys to order by.
fn node_keys<X>(ns: &[Node<X>]) -> (keys: Vec<&str>)
    ensures
        key_view(keys@) == node_ids(ns@),
{
    let mut keys: Vec<&str> = Vec::new();
    let mut i: usize = 0;
    while i < ns.len()
        invariant
            i <= ns@.len(),
            keys@.len() == i,
            key_view(keys@) == node_ids(ns@.take(i as int)),
        decreases ns@.len() - i,
    {
        let k = ns[i].id.as_str();
        let ghost before = keys@;
        keys.push(k);
        proof {
            assert(k@ == ns@[i as int].id@);
            assert forall|j: int| 0 <= j < i + 1 implies key_view(keys@)[j] == node_ids(ns@.take(i + 1))[j] by {
                if j < i {
                    assert(keys@[j] == before[j]);
                    assert(key_view(before)[j] == node_ids(ns@.take(i as int))[j]);
                }
            }
            assert(key_view(keys@) =~= node_ids(ns@.take(i + 1)));
        }
        i += 1;
    }
    assert(ns@.take(i as int) =~= ns@);
    keys
}

/// The latest plan index remembered for `key`.
fn find_built(built: &Vec<(String, usize)>, key: &str) -> (r: Option<usize>)
    ensures
        r == memo(built@, key@),
{
    let mut i = built.len();
    assert(built@.take(i as int) =~= built@);
    while i > 0
        invariant
            i <= built@.len(),
            memo(built@, key@) == memo(built@.take(i as int), key@),
        decreases i,
    {
        assert(built@.take(i as int).drop_last() =~= built@.take(i - 1));
        if str_eq(built[i - 1].0.as_str(), key) {
            return Some(built[i - 1].1);
        }
        i -= 1;
    }
    None
}

/// Is `key` among `v`?
fn contains_str(v: &Vec<String>, key: &str) -> (b: bool)
    ensures
        b == exists|j: int| 0 <= j < v@.len() && (#[trigger] v@[j])@ == key@,
{
    let mut j: usize = 0;
    while j < v.len()
        invariant
            j <= v@.len(),
            forall|t: int| 0 <= t < j ==> (#[trigger] v@[t])@ != key@,
        decreases v@.len() - j,
    {
        if str_eq(v[j].as_str(), key) {
            return true;
        }
        j += 1;
    }
    false
}

// ── What produces audio ─────────────────────────────────────────────────────

/// A route joins node `a` to node `b`, both nodes of the graph.
pub open spec fn g_edge<X, A>(ns: Seq<Node<X>>, rs: Seq<Route<A>>, a: Seq<char>, b: Seq<char>) -> bool {
    has_node(ns, a) && has_node(ns, b) && has_pair(rs, a, b)
}

/// `c` walks the graph along routes, at least one step.
pub open spec fn g_walk<X, A>(ns: Seq<Node<X>>, rs: Seq<Route<A>>, c: Seq<Seq<char>>) -> bool {
    &&& c.len() >= 2
    &&& forall|i: int| 0 <= i < c.len() - 1 ==> #[trigger] g_edge(ns, rs, c[i], c[i + 1])
}

/// No walk comes back to the node it started from.
pub open spec fn acyclic<X, A>(ns: Seq<Node<X>>, rs: Seq<Route<A>>) -> bool {
    forall|c: Seq<Seq<char>>| #[trigger] g_walk(ns, rs, c) ==> c[0] != c.last()
}

/// Node `a` reaches node `b` along routes.
pub open spec fn reaches<X, A>(ns: Seq<Node<X>>, rs: Seq<Route<A>>, a: Seq<char>, b: Seq<char>) -> bool {
    exists|c: Seq<Seq<char>>| #[trigger] g_walk(ns, rs, c) && c[0] == a && c.last() == b
}

/// The routes at positions `p` carry audio into node `id`: with none, `id`
/// is a configured capture; else the last arrives at `id`, a hub, and the
/// others carry audio into that route's source.
pub open spec fn fed_by<X, A>(ns: Seq<Node<X>>, rs: Seq<Route<A>>, p: Seq<int>, id: Seq<char>) -> bool
    decreases p.len(),
{
    &&& has_node(ns, id)
    &&& if p.len() == 0 {
        is_source_kind(node_of(ns, id).node_type) && configured(node_of(ns, id))
    } else {
        &&& 0 <= p.last() < rs.len()
        &&& rs[p.last()].to_node@ == id
        &&& is_hub_kind(node_of(ns, id).node_type)
        &&& fed_by(ns, rs, p.drop_last(), rs[p.last()].from_node@)
    }
}

/// Node `id` produces audio: some routes carry audio into it.
pub open spec fn produces<X, A>(ns: Seq<Node<X>>, rs: Seq<Route<A>>, id: Seq<char>) -> bool {
    exists|p: Seq<int>| #[trigger] fed_by(ns, rs, p, id)
}

/// The route at position `t` arrives at node `f` from a node that produces.
pub open spec fn feeding<X, A>(ns: Seq<Node<X>>, rs: Seq<Route<A>>, f: Seq<char>, t: int) -> bool {
    &&& 0 <= t < rs.len()
    &&& rs[t].to_node@ == f
    &&& produces(ns, rs, rs[t].from_node@)
}

/// The edge ids of a list of inputs.
pub open spec fn edges_of(ins: Seq<BusInput>) -> Seq<Seq<char>> {
    ins.map_values(|x: BusInput| x.edge@)
}

/// What feeds plan node `k`, built for hub `f`: an effect's own sum's
/// inputs when it reads one, else the node's inputs.
pub open spec fn hub_inputs<X>(nodes: Seq<BusNode<X>>, k: int, f: Seq<char>) -> Seq<BusInput> {
    match nodes[k].op {
        BusOp::Fx { input, .. } => if input.from < nodes.len() && nodes[input.from as int].node_id@ == sum_id(f) {
            inputs_of(nodes[input.from as int].op)
        } else {
            seq![input]
        },
        op => inputs_of(op),
    }
}

/// Plan node `k` takes everything that feeds its graph node: a capture is a
/// source; a mixer or an effect reads every producing route into it, by
/// route id; a splitter reads the first such route by id.
pub open spec fn node_complete<X, A>(ns: Seq<Node<X>>, rs: Seq<Route<A>>, nodes: Seq<BusNode<X>>, k: int) -> bool {
    let f = nodes[k].node_id@;
    let n = node_of(ns, f);
    let e = edges_of(hub_inputs(nodes, k, f));
    &&& is_source_kind(n.node_type) ==> nodes[k].op is Source
    &&& is_hub_kind(n.node_type) ==> {
        &&& forall|a: int, c: int| 0 <= a < c < e.len() ==> str_lt(e[a], e[c])
        &&& (n.node_type == NodeType::Mixer || n.node_type == NodeType::Fx) ==> forall|t: int|
            #[trigger] feeding(ns, rs, f, t) ==> e.contains(rs[t].id@)
        &&& n.node_type == NodeType::Splitter ==> {
            &&& e.len() == 1
            &&& forall|t: int| #[trigger] feeding(ns, rs, f, t) ==> !str_lt(rs[t].id@, e[0])
        }
    }
}

/// Every plan node built for a graph node produces and takes everything
/// that feeds it.
#[verifier::opaque]
pub open spec fn builder_complete<X, A>(ns: Seq<Node<X>>, rs: Seq<Route<A>>, nodes: Seq<BusNode<X>>) -> bool {
    forall|k: int|
        0 <= k < nodes.len() && has_node(ns, (#[trigger] nodes[k]).node_id@) ==> produces(ns, rs, nodes[k].node_id@)
            && node_complete(ns, rs, nodes, k)
}

proof fn lemma_reach_step<X, A>(ns: Seq<Node<X>>, rs: Seq<Route<A>>, a: Seq<char>, b: Seq<char>, targets: Seq<String>)
    requires
        g_edge(ns, rs, a, b),
        forall|j: int| 0 <= j < targets.len() ==> reaches(ns, rs, b, (#[trigger] targets[j])@),
    ensures
        reaches(ns, rs, a, b),
        forall|j: int| 0 <= j < targets.len() ==> reaches(ns, rs, a, (#[trigger] targets[j])@),
{
    let w = seq![a, b];
    assert(g_edge(ns, rs, w[0], w[1]));
    assert(g_walk(ns, rs, w));
    assert forall|j: int| 0 <= j < targets.len() implies reaches(ns, rs, a, (#[trigger] targets[j])@) by {
        assert(reaches(ns, rs, b, targets[j]@));
        let c = choose|c: Seq<Seq<char>>| #[trigger] g_walk(ns, rs, c) && c[0] == b && c.last() == targets[j]@;
        let d = seq![a] + c;
        assert forall|i: int| 0 <= i < d.len() - 1 implies #[trigger] g_edge(ns, rs, d[i], d[i + 1]) by {
            if i == 0 {
                assert(d[0] == a && d[1] == c[0]);
            } else {
                let m = i - 1;
                assert(d[i] == c[m] && d[i + 1] == c[m + 1]);
                assert(g_edge(ns, rs, c[m], c[m + 1]));
            }
        }
        assert(g_walk(ns, rs, d));
        assert(d.last() == c.last());
    }
}

proof fn lemma_feeding_extend<X, A>(ns: Seq<Node<X>>, rs: Seq<Route<A>>, n1: Seq<BusNode<X>>, n2: Seq<BusNode<X>>, k: int, pass: X)
    requires
        0 <= k < n1.len(),
        node_ok(ns, rs, n1, k, pass),
        node_complete(ns, rs, n1, k),
        extends_nodes(n1, n2),
    ensures
        node_complete(ns, rs, n2, k),
{
    assert(n2[k] == n1[k]);
    let f = n1[k].node_id@;
    match n1[k].op {
        BusOp::Fx { input, .. } => {
            assert(inputs_of(n1[k].op)[0] == input);
            assert(n2[input.from as int] == n1[input.from as int]);
            assert(hub_inputs(n2, k, f) == hub_inputs(n1, k, f));
        },
        _ => {
            assert(hub_inputs(n2, k, f) == hub_inputs(n1, k, f));
        },
    }
}

/// Pushing plan nodes keeps the completeness of those built before.
proof fn lemma_complete_extend<X, A>(ns: Seq<Node<X>>, rs: Seq<Route<A>>, n1: Seq<BusNode<X>>, n2: Seq<BusNode<X>>, pass: X)
    requires
        plan_sound(ns, rs, n1, pass),
        builder_complete(ns, rs, n1),
        extends_nodes(n1, n2),
        forall|k: int|
            n1.len() <= k < n2.len() && has_node(ns, (#[trigger] n2[k]).node_id@) ==> produces(ns, rs, n2[k].node_id@)
                && node_complete(ns, rs, n2, k),
    ensures
        builder_complete(ns, rs, n2),
{
    reveal(builder_complete);
    assert forall|k: int| 0 <= k < n2.len() && has_node(ns, (#[trigger] n2[k]).node_id@) implies produces(
        ns,
        rs,
        n2[k].node_id@,
    ) && node_complete(ns, rs, n2, k) by {
        if k < n1.len() {
            assert(n2[k] == n1[k]);
            lemma_feeding_extend(ns, rs, n1, n2, k, pass);
        }
    }
}

/// A node that is neither a configured capture nor a hub produces nothing.
proof fn lemma_not_produces<X, A>(ns: Seq<Node<X>>, rs: Seq<Route<A>>, id: Seq<char>)
    requires
        !(is_source_kind(node_of(ns, id).node_type) && configured(node_of(ns, id))),
        !is_hub_kind(node_of(ns, id).node_type),
    ensures
        !produces(ns, rs, id),
{
    assert forall|p: Seq<int>| !#[trigger] fed_by(ns, rs, p, id) by {}
}

// ── Building ────────────────────────────────────────────────────────────────

/// `n2` keeps every plan node of `n1`, at its index.
pub open spec fn extends_nodes<X>(n1: Seq<BusNode<X>>, n2: Seq<BusNode<X>>) -> bool {
    &&& n2.len() >= n1.len()
    &&& forall|k: int| 0 <= k < n1.len() ==> #[trigger] n2[k] == n1[k]
}

proof fn lemma_input_extend<X, A>(rs: Seq<Route<A>>, n1: Seq<BusNode<X>>, n2: Seq<BusNode<X>>, inp: BusInput, t: Seq<char>)
    requires
        input_ok(rs, n1, inp, t),
        extends_nodes(n1, n2),
    ensures
        input_ok(rs, n2, inp, t),
{
    assert(n2[inp.from as int] == n1[inp.from as int]);
}

proof fn lemma_node_extend<X, A>(ns: Seq<Node<X>>, rs: Seq<Route<A>>, n1: Seq<BusNode<X>>, n2: Seq<BusNode<X>>, k: int, pass: X)
    requires
        0 <= k < n1.len(),
        node_ok(ns, rs, n1, k, pass),
        extends_nodes(n1, n2),
    ensures
        node_ok(ns, rs, n2, k, pass),
{
    assert(n2[k] == n1[k]);
    let bn = n1[k];
    match bn.op {
        BusOp::Fx { node_id, spec, input } => {
            if input_ok(rs, n1, input, node_id@) {
                lemma_input_extend(rs, n1, n2, input, node_id@);
            } else {
                assert(n2[input.from as int] == n1[input.from as int]);
            }
        },
        BusOp::Sum { inputs } => {
            let id = bn.node_id@;
            let t = id.take(id.len() - 5);
            if has_node(ns, id) && node_of(ns, id).node_type == NodeType::Mixer && forall|j: int|
                0 <= j < inputs@.len() ==> #[trigger] input_ok(rs, n1, inputs@[j], id) {
                assert forall|j: int| 0 <= j < inputs@.len() implies #[trigger] input_ok(rs, n2, inputs@[j], id) by {
                    lemma_input_extend(rs, n1, n2, inputs@[j], id);
                }
            } else {
                assert forall|j: int| 0 <= j < inputs@.len() implies #[trigger] input_ok(rs, n2, inputs@[j], t) by {
                    lemma_input_extend(rs, n1, n2, inputs@[j], t);
                }
            }
        },
        BusOp::Pass { input } => {
            lemma_input_extend(rs, n1, n2, input, bn.node_id@);
        },
        BusOp::Source { .. } => {},
    }
}

proof fn lemma_sink_extend<X, A>(ns: Seq<Node<X>>, rs: Seq<Route<A>>, n1: Seq<BusNode<X>>, n2: Seq<BusNode<X>>, s: BusSink)
    requires
        sink_ok(ns, rs, n1, s),
        extends_nodes(n1, n2),
    ensures
        sink_ok(ns, rs, n2, s),
{
    assert(n2[s.input as int] == n1[s.input as int]);
}

/// Builder state: the plan so far, what was built for which graph node
/// (the latest entry for a key wins), and the nodes being resolved.
struct PlanBuilder<X> {
    nodes: Vec<BusNode<X>>,
    sinks: Vec<BusSink>,
    built: Vec<(String, usize)>,
    visiting: Vec<String>,
}

/// The builder's invariant: a sound plan, sound sinks, a sound memo and
/// resolving stack.
spec fn builder_ok<X, A>(ns: Seq<Node<X>>, rs: Seq<Route<A>>, b: PlanBuilder<X>, pass: X) -> bool {
    &&& builder_sound(ns, rs, b, pass)
    &&& (sums_clear(ns, rs) ==> unique_b(ns, b))
    &&& (acyclic(ns, rs) && sum_free(ns) ==> builder_complete(ns, rs, b.nodes@))
}

/// The soundness part of the builder's invariant.
spec fn builder_sound<X, A>(ns: Seq<Node<X>>, rs: Seq<Route<A>>, b: PlanBuilder<X>, pass: X) -> bool {
    &&& plan_sound(ns, rs, b.nodes@, pass)
    &&& built_ok(b.nodes@, b.built@)
    &&& visiting_ok(ns, b.visiting@)
    &&& forall|j: int| 0 <= j < b.sinks@.len() ==> sink_ok(ns, rs, b.nodes@, #[trigger] b.sinks@[j])
}

/// No node's id is an effect's id followed by `::sum`: the sums the plan
/// inserts (only ever in front of an effect) cannot be mistaken for graph
/// nodes.
pub open spec fn sum_free<X>(ns: Seq<Node<X>>) -> bool {
    forall|a: int, c: int|
        0 <= a < ns.len() && 0 <= c < ns.len() && (#[trigger] ns[a]).node_type == NodeType::Fx
            ==> (#[trigger] ns[c]).id@ != sum_id(ns[a].id@)
}

/// Two routes arrive at `f`: an effect fed so gets a sum in front of it.
pub open spec fn multi_fed<A>(rs: Seq<Route<A>>, f: Seq<char>) -> bool {
    exists|a: int, c: int|
        0 <= a < rs.len() && 0 <= c < rs.len() && a != c && (#[trigger] rs[a]).to_node@ == f && (#[trigger] rs[c]).to_node@
            == f
}

/// No node's id is the id the plan gives the sum in front of an effect that
/// two or more routes feed (its id followed by `::sum`): the sums the plan
/// can insert cannot be mistaken for graph nodes.
pub open spec fn sums_clear<X, A>(ns: Seq<Node<X>>, rs: Seq<Route<A>>) -> bool {
    forall|a: int, c: int|
        0 <= a < ns.len() && 0 <= c < ns.len() && (#[trigger] ns[a]).node_type == NodeType::Fx && multi_fed(rs, ns[a].id@)
            ==> (#[trigger] ns[c]).id@ != sum_id(ns[a].id@)
}

/// Graphs free of effect-sum ids are clear of the sums the plan inserts.
pub proof fn lemma_sum_free_clear<X, A>(ns: Seq<Node<X>>, rs: Seq<Route<A>>)
    requires
        sum_free(ns),
    ensures
        sums_clear(ns, rs),
{
}

/// The plan ids are distinct.
pub open spec fn ids_distinct<X>(nodes: Seq<BusNode<X>>) -> bool {
    forall|a: int, c: int| 0 <= a < c < nodes.len() ==> (#[trigger] nodes[a]).node_id@ != (#[trigger] nodes[c]).node_id@
}

proof fn lemma_built_node_known<X>(src: Seq<Node<X>>, a: Seq<char>)
    requires
        has_node(crate::graph::build_nodes(src), a),
    ensures
        has_node(src, a),
    decreases src.len(),
{
    let rest = src.drop_last();
    let b = crate::graph::build_nodes(rest);
    let n = src.last();
    let built = crate::graph::build_nodes(src);
    assert(built == crate::graph::insert_node(b, n));
    let i = choose|i: int| 0 <= i < built.len() && (#[trigger] built[i]).id@ == a;
    if a == n.id@ {
        assert(src[src.len() - 1].id@ == a);
    } else {
        if has_node(b, n.id@) {
            let p = node_pos(b, n.id@);
            assert(i != p);
            assert(built[i] == b[i]);
        } else {
            assert(i < b.len());
            assert(built[i] == b[i]);
        }
        assert(has_node(b, a));
        lemma_built_node_known(rest, a);
        let j = choose|j: int| 0 <= j < rest.len() && (#[trigger] rest[j]).id@ == a;
        assert(src[j] == rest[j]);
    }
}

proof fn lemma_built_pair_known<X, A>(src: Seq<Route<A>>, ns: Seq<Node<X>>, a: Seq<char>, b: Seq<char>)
    requires
        has_pair(crate::graph::build_routes(src, ns).0, a, b),
    ensures
        has_pair(src, a, b),
    decreases src.len(),
{
    let rest = src.drop_last();
    let prev = crate::graph::build_routes(rest, ns);
    let r = src.last();
    let built = crate::graph::build_routes(src, ns).0;
    let i = choose|i: int| 0 <= i < built.len() && (#[trigger] built[i]).from_node@ == a && built[i].to_node@ == b;
    if has_node(ns, r.from_node@) && has_node(ns, r.to_node@) && !prev.1.contains((r.from_node@, r.to_node@)) {
        assert(built == crate::graph::insert_route(prev.0, r));
        if built[i] == r {
            assert(src[src.len() - 1] == r);
            return;
        }
        if crate::graph::has_route(prev.0, r.id@) {
            assert(built[i] == prev.0[i]);
        } else {
            assert(i < prev.0.len());
            assert(built[i] == prev.0[i]);
        }
    } else {
        assert(built == prev.0);
    }
    assert(has_pair(prev.0, a, b));
    lemma_built_pair_known(rest, ns, a, b);
    let j = choose|j: int| 0 <= j < rest.len() && (#[trigger] rest[j]).from_node@ == a && rest[j].to_node@ == b;
    assert(src[j] == rest[j]);
}

/// A graph applied from a snapshot without a cycle has no walk that comes
/// back to where it started, so the bus plan of every graph that
/// `apply_snapshot` lets in is complete.
pub proof fn lemma_applied_acyclic<X, A>(s: RoutingGraph<X, A>)
    requires
        !crate::graph::has_cycle(s),
    ensures
        acyclic(crate::graph::build_nodes(s.nodes@), crate::graph::build_routes(s.routes@, crate::graph::build_nodes(s.nodes@)).0),
{
    let ns = crate::graph::build_nodes(s.nodes@);
    let rs = crate::graph::build_routes(s.routes@, ns).0;
    assert forall|c: Seq<Seq<char>>| #[trigger] g_walk(ns, rs, c) implies c[0] != c.last() by {
        if c[0] == c.last() {
            let d = c.drop_last();
            assert forall|i: int| 0 <= i < c.len() - 1 implies #[trigger] crate::graph::snap_edge(s, c[i], c[i + 1]) by {
                assert(g_edge(ns, rs, c[i], c[i + 1]));
                lemma_built_node_known(s.nodes@, c[i]);
                lemma_built_node_known(s.nodes@, c[i + 1]);
                lemma_built_pair_known(s.routes@, ns, c[i], c[i + 1]);
            }
            assert forall|i: int| 0 <= i < d.len() - 1 implies #[trigger] crate::graph::snap_edge(s, d[i], d[i + 1]) by {
                assert(d[i] == c[i] && d[i + 1] == c[i + 1]);
                assert(crate::graph::snap_edge(s, c[i], c[i + 1]));
            }
            let k = c.len() - 2;
            assert(g_edge(ns, rs, c[k], c[k + 1]));
            lemma_built_node_known(s.nodes@, c[k]);
            lemma_built_node_known(s.nodes@, c[k + 1]);
            lemma_built_pair_known(s.routes@, ns, c[k], c[k + 1]);
            assert(crate::graph::snap_edge(s, c[k], c[k + 1]));
            assert(d.last() == c[c.len() - 2]);
            assert(crate::graph::is_cycle(s, d));
        }
    }
}

/// A route into hub `to` from a node that produces feeds it too.
proof fn lemma_feed_step<X, A>(ns: Seq<Node<X>>, rs: Seq<Route<A>>, e: int, to: Seq<char>)
    requires
        0 <= e < rs.len(),
        rs[e].to_node@ == to,
        has_node(ns, to),
        is_hub_kind(node_of(ns, to).node_type),
        produces(ns, rs, rs[e].from_node@),
    ensures
        produces(ns, rs, to),
{
    let p = choose|p: Seq<int>| #[trigger] fed_by(ns, rs, p, rs[e].from_node@);
    let q = p.push(e);
    assert(q.drop_last() =~= p);
    assert(fed_by(ns, rs, q, to));
}

/// In a sound plan of a graph whose ids cannot be mistaken for sums, the
/// graph node each plan node stands for produces audio.
proof fn lemma_plan_produces<X, A>(ns: Seq<Node<X>>, rs: Seq<Route<A>>, nodes: Seq<BusNode<X>>, pass: X, k: int)
    requires
        crate::graph::graph_wf(ns, rs),
        sums_clear(ns, rs),
        plan_sound(ns, rs, nodes, pass),
        0 <= k < nodes.len(),
        has_node(ns, nodes[k].node_id@),
    ensures
        produces(ns, rs, nodes[k].node_id@),
    decreases k, 1nat,
{
    let id = nodes[k].node_id@;
    assert(node_ok(ns, rs, nodes, k, pass));
    match nodes[k].op {
        BusOp::Source { .. } => {
            assert(fed_by(ns, rs, Seq::<int>::empty(), id));
        },
        BusOp::Fx { node_id, input, .. } => {
            assert(inputs_of(nodes[k].op)[0] == input);
            if input_ok(rs, nodes, input, id) {
                lemma_input_produces(ns, rs, nodes, pass, k, input, id);
            } else {
                let j = input.from as int;
                assert(inputs_of(nodes[k].op)[0] == input);
                assert(nodes[j].op is Sum);
                assert(node_ok(ns, rs, nodes, j, pass));
                let ins = inputs_of(nodes[j].op);
                assert(!has_node(ns, sum_id(id))) by {
                    if has_node(ns, sum_id(id)) {
                        lemma_not_sum_fed(ns, rs, id, sum_id(id));
                    }
                }
                let t = nodes[j].node_id@.take(nodes[j].node_id@.len() - 5);
                assert(sum_id(t) == sum_id(id));
                lemma_sum_id_injective(t, id);
                assert(input_ok(rs, nodes, ins[0], t));
                assert(ins[0].from < j) by {
                    assert(inputs_of(nodes[j].op)[0].from < j);
                }
                lemma_input_produces(ns, rs, nodes, pass, k, ins[0], id);
            }
        },
        BusOp::Sum { inputs } => {
            if !(has_node(ns, id) && node_of(ns, id).node_type == NodeType::Mixer) {
                let t = id.take(id.len() - 5);
                lemma_not_sum_fed(ns, rs, t, id);
            }
            assert(inputs_of(nodes[k].op)[0] == inputs@[0]);
            assert(input_ok(rs, nodes, inputs@[0], id));
            lemma_input_produces(ns, rs, nodes, pass, k, inputs@[0], id);
        },
        BusOp::Pass { input } => {
            assert(inputs_of(nodes[k].op)[0] == input);
            lemma_input_produces(ns, rs, nodes, pass, k, input, id);
        },
    }
}

/// An input of plan node `k` over a route into hub `to` carries audio there.
proof fn lemma_input_produces<X, A>(ns: Seq<Node<X>>, rs: Seq<Route<A>>, nodes: Seq<BusNode<X>>, pass: X, k: int, inp: BusInput, to: Seq<char>)
    requires
        crate::graph::graph_wf(ns, rs),
        sums_clear(ns, rs),
        plan_sound(ns, rs, nodes, pass),
        0 <= k < nodes.len(),
        inp.from < k,
        input_ok(rs, nodes, inp, to),
        has_node(ns, to),
        is_hub_kind(node_of(ns, to).node_type),
    ensures
        produces(ns, rs, to),
    decreases k, 0nat,
{
    let e = route_pos(rs, inp.edge@);
    assert(rs[e].from_node@ == nodes[inp.from as int].node_id@);
    assert(has_node(ns, rs[e].from_node@));
    lemma_plan_produces(ns, rs, nodes, pass, inp.from as int);
    lemma_feed_step(ns, rs, e, to);
}

/// Every sink of a sound plan renders a route whose source produces audio.
proof fn lemma_sinks_produce<X, A>(ns: Seq<Node<X>>, rs: Seq<Route<A>>, nodes: Seq<BusNode<X>>, sinks: Seq<BusSink>, pass: X)
    requires
        crate::graph::graph_wf(ns, rs),
        sums_clear(ns, rs),
        plan_sound(ns, rs, nodes, pass),
        forall|j: int| 0 <= j < sinks.len() ==> sink_ok(ns, rs, nodes, #[trigger] sinks[j]),
    ensures
        forall|j: int| 0 <= j < sinks.len() ==> #[trigger] produces(ns, rs, rs[route_pos(rs, sinks[j].route_id@)].from_node@),
{
    assert forall|j: int| 0 <= j < sinks.len() implies #[trigger] produces(ns, rs, rs[route_pos(rs, sinks[j].route_id@)].from_node@) by {
        let s = sinks[j];
        assert(sink_ok(ns, rs, nodes, s));
        let e = route_pos(rs, s.route_id@);
        assert(has_node(ns, rs[e].from_node@));
        lemma_plan_produces(ns, rs, nodes, pass, s.input as int);
    }
}

/// Each node of a plan with distinct ids is there at most once: a node that
/// several outputs reach is built a single time, not once per output.
pub proof fn lemma_each_node_once<X>(nodes: Seq<BusNode<X>>, id: Seq<char>)
    requires
        ids_distinct(nodes),
    ensures
        count_of(plan_ids(nodes), id) <= 1,
    decreases nodes.len(),
{
    if nodes.len() > 0 {
        let rest = nodes.drop_last();
        assert(plan_ids(rest) =~= plan_ids(nodes).drop_last());
        lemma_each_node_once(rest, id);
        if nodes.last().node_id@ == id {
            assert forall|i: int| 0 <= i < plan_ids(rest).len() implies plan_ids(rest)[i] != id by {
                assert(nodes[i].node_id@ != nodes[nodes.len() - 1].node_id@);
            }
            lemma_count_zero(plan_ids(rest), id);
        }
    }
}

/// Uniqueness bookkeeping: distinct plan ids, each remembered; every plan
/// id a graph node's, or the sum in front of the node built next; nothing
/// being resolved is remembered yet.
#[verifier::opaque]
spec fn builder_unique<X>(ns: Seq<Node<X>>, nodes: Seq<BusNode<X>>, built: Seq<(String, usize)>, visiting: Seq<String>) -> bool {
    &&& ids_distinct(nodes)
    &&& forall|k: int| 0 <= k < nodes.len() ==> memo(built, (#[trigger] nodes[k]).node_id@) is Some
    &&& forall|k: int|
        0 <= k < nodes.len() ==> has_node(ns, (#[trigger] nodes[k]).node_id@) || (k + 1 < nodes.len()
            && nodes[k].node_id@ == sum_id(nodes[k + 1].node_id@))
    &&& forall|j: int| 0 <= j < visiting.len() ==> memo(built, (#[trigger] visiting[j])@) is None
}

/// The uniqueness bookkeeping of a builder.
spec fn unique_b<X>(ns: Seq<Node<X>>, b: PlanBuilder<X>) -> bool {
    builder_unique(ns, b.nodes@, b.built@, b.visiting@)
}

proof fn lemma_visit_push<X, A>(ns: Seq<Node<X>>, rs: Seq<Route<A>>, b0: PlanBuilder<X>, b1: PlanBuilder<X>, id: Seq<char>)
    requires
        sums_clear(ns, rs) ==> unique_b(ns, b0),
        sums_clear(ns, rs) ==> memo(b0.built@, id) is None,
        b1.nodes@ == b0.nodes@,
        b1.built@ == b0.built@,
        b1.visiting@.len() == b0.visiting@.len() + 1,
        b1.visiting@.drop_last() == b0.visiting@,
        b1.visiting@.last()@ == id,
    ensures
        sums_clear(ns, rs) ==> unique_b(ns, b1),
{
    reveal(builder_unique);
    if sums_clear(ns, rs) {
        assert forall|j: int| 0 <= j < b1.visiting@.len() implies memo(b1.built@, (#[trigger] b1.visiting@[j])@) is None by {
            if j < b0.visiting@.len() {
                assert(b1.visiting@[j] == b0.visiting@[j]);
            }
        }
    }
}

proof fn lemma_visit_pop<X, A>(ns: Seq<Node<X>>, rs: Seq<Route<A>>, b1: PlanBuilder<X>, b2: PlanBuilder<X>, id: Seq<char>)
    requires
        sums_clear(ns, rs) ==> unique_b(ns, b1),
        b1.visiting@.len() > 0,
        b1.visiting@.last()@ == id,
        b2.nodes@ == b1.nodes@,
        b2.built@ == b1.built@,
        b2.visiting@ == b1.visiting@.drop_last(),
    ensures
        sums_clear(ns, rs) ==> unique_b(ns, b2),
        sums_clear(ns, rs) ==> memo(b2.built@, id) is None,
{
    reveal(builder_unique);
    if sums_clear(ns, rs) {
        assert(b1.visiting@[b1.visiting@.len() - 1] == b1.visiting@.last());
        assert forall|j: int| 0 <= j < b2.visiting@.len() implies memo(b2.built@, (#[trigger] b2.visiting@[j])@) is None by {
            assert(b2.visiting@[j] == b1.visiting@[j]);
        }
    }
}

proof fn lemma_memo_push(b0: Seq<(String, usize)>, b1: Seq<(String, usize)>, key: Seq<char>)
    requires
        b1.len() == b0.len() + 1,
        b1.drop_last() == b0,
    ensures
        memo(b1, key) == if b1.last().0@ == key {
            Some(b1.last().1)
        } else {
            memo(b0, key)
        },
{
}

proof fn lemma_sum_id_injective(x: Seq<char>, y: Seq<char>)
    requires
        sum_id(x) == sum_id(y),
    ensures
        x == y,
{
    reveal_strlit("::sum");
    assert(sum_id(x).len() == x.len() + 5);
    assert(sum_id(y).len() == y.len() + 5);
    assert(x.len() == y.len());
    assert forall|i: int| 0 <= i < x.len() implies x[i] == y[i] by {
        assert(sum_id(x)[i] == x[i]);
        assert(sum_id(y)[i] == y[i]);
    }
    assert(x =~= y);
}

proof fn lemma_not_sum<X>(ns: Seq<Node<X>>, x: Seq<char>, y: Seq<char>)
    requires
        sum_free(ns),
        has_node(ns, x),
        node_of(ns, x).node_type == NodeType::Fx,
        has_node(ns, y),
    ensures
        y != sum_id(x),
{
    let a = node_pos(ns, x);
    let c = choose|c: int| 0 <= c < ns.len() && (#[trigger] ns[c]).id@ == y;
    assert(ns[a].id@ == x);
    assert(ns[c].id@ != sum_id(ns[a].id@));
}

proof fn lemma_not_sum_fed<X, A>(ns: Seq<Node<X>>, rs: Seq<Route<A>>, x: Seq<char>, y: Seq<char>)
    requires
        sums_clear(ns, rs),
        has_node(ns, x),
        node_of(ns, x).node_type == NodeType::Fx,
        multi_fed(rs, x),
        has_node(ns, y),
    ensures
        y != sum_id(x),
{
    let a = node_pos(ns, x);
    let c = choose|c: int| 0 <= c < ns.len() && (#[trigger] ns[c]).id@ == y;
    assert(ns[a].id@ == x);
    assert(ns[c].id@ != sum_id(ns[a].id@));
}

/// Pushing a graph node not remembered yet and not being resolved keeps the
/// uniqueness bookkeeping.
proof fn lemma_unique_push<X, A>(ns: Seq<Node<X>>, rs: Seq<Route<A>>, b0: PlanBuilder<X>, b1: PlanBuilder<X>, x: Seq<char>)
    requires
        sums_clear(ns, rs) ==> unique_b(ns, b0),
        has_node(ns, x),
        sums_clear(ns, rs) ==> memo(b0.built@, x) is None,
        b1.nodes@.len() == b0.nodes@.len() + 1,
        extends_nodes(b0.nodes@, b1.nodes@),
        b1.nodes@.last().node_id@ == x,
        b1.built@.len() == b0.built@.len() + 1,
        b1.built@.drop_last() == b0.built@,
        b1.built@.last().0@ == x,
        b1.visiting == b0.visiting,
        forall|j: int| 0 <= j < b0.visiting@.len() ==> (#[trigger] b0.visiting@[j])@ != x,
    ensures
        sums_clear(ns, rs) ==> unique_b(ns, b1),
{
    reveal(builder_unique);
    if sums_clear(ns, rs) {
        let n = b0.nodes@.len() as int;
        assert(b1.nodes@[n] == b1.nodes@.last());
        assert forall|a: int, c: int| 0 <= a < c < b1.nodes@.len() implies (#[trigger] b1.nodes@[a]).node_id@
            != (#[trigger] b1.nodes@[c]).node_id@ by {
            assert(b1.nodes@[a] == b0.nodes@[a]);
            if c < n {
                assert(b1.nodes@[c] == b0.nodes@[c]);
            } else {
                assert(memo(b0.built@, b0.nodes@[a].node_id@) is Some);
            }
        }
        assert forall|k: int| 0 <= k < b1.nodes@.len() implies memo(b1.built@, (#[trigger] b1.nodes@[k]).node_id@) is Some by {
            lemma_memo_push(b0.built@, b1.built@, b1.nodes@[k].node_id@);
            if k < n {
                assert(b1.nodes@[k] == b0.nodes@[k]);
            }
        }
        assert forall|k: int| 0 <= k < b1.nodes@.len() implies has_node(ns, (#[trigger] b1.nodes@[k]).node_id@)
            || (k + 1 < b1.nodes@.len() && b1.nodes@[k].node_id@ == sum_id(b1.nodes@[k + 1].node_id@)) by {
            if k < n {
                assert(b1.nodes@[k] == b0.nodes@[k]);
                if k + 1 < n {
                    assert(b1.nodes@[k + 1] == b0.nodes@[k + 1]);
                }
            }
        }
        assert forall|j: int| 0 <= j < b1.visiting@.len() implies memo(b1.built@, (#[trigger] b1.visiting@[j])@) is None by {
            lemma_memo_push(b0.built@, b1.built@, b1.visiting@[j]@);
            assert(b0.visiting@[j]@ != x);
        }
    }
}

/// Pushing an effect's sum and then the effect keeps the uniqueness
/// bookkeeping.
proof fn lemma_unique_push_sum<X, A>(ns: Seq<Node<X>>, rs: Seq<Route<A>>, b0: PlanBuilder<X>, b1: PlanBuilder<X>, b2: PlanBuilder<X>, f: Seq<char>)
    requires
        sums_clear(ns, rs) ==> unique_b(ns, b0),
        visiting_ok(ns, b0.visiting@),
        has_node(ns, f),
        node_of(ns, f).node_type == NodeType::Fx,
        multi_fed(rs, f),
        sums_clear(ns, rs) ==> memo(b0.built@, f) is None,
        b1.nodes@.len() == b0.nodes@.len() + 1,
        b2.nodes@.len() == b1.nodes@.len() + 1,
        extends_nodes(b0.nodes@, b1.nodes@),
        extends_nodes(b1.nodes@, b2.nodes@),
        b1.nodes@.last().node_id@ == sum_id(f),
        b2.nodes@.last().node_id@ == f,
        b1.built@.len() == b0.built@.len() + 1,
        b1.built@.drop_last() == b0.built@,
        b1.built@.last().0@ == sum_id(f),
        b2.built@.len() == b1.built@.len() + 1,
        b2.built@.drop_last() == b1.built@,
        b2.built@.last().0@ == f,
        b1.visiting == b0.visiting,
        b2.visiting == b0.visiting,
        forall|j: int| 0 <= j < b0.visiting@.len() ==> (#[trigger] b0.visiting@[j])@ != f,
    ensures
        sums_clear(ns, rs) ==> unique_b(ns, b2),
{
    reveal(builder_unique);
    if sums_clear(ns, rs) {
        reveal_strlit("::sum");
        let n = b0.nodes@.len() as int;
        assert(b2.nodes@[n] == b1.nodes@[n]);
        assert(b1.nodes@[n] == b1.nodes@.last());
        assert(b2.nodes@[n + 1] == b2.nodes@.last());
        assert(sum_id(f) != f);
        // sum_id(f) is no plan id of b0
        assert forall|k: int| 0 <= k < n implies (#[trigger] b0.nodes@[k]).node_id@ != sum_id(f) by {
            if b0.nodes@[k].node_id@ == sum_id(f) {
                if has_node(ns, b0.nodes@[k].node_id@) {
                    lemma_not_sum_fed(ns, rs, f, sum_id(f));
                } else {
                    lemma_sum_id_injective(b0.nodes@[k + 1].node_id@, f);
                    assert(memo(b0.built@, b0.nodes@[k + 1].node_id@) is Some);
                }
            }
        }
        assert forall|k: int| 0 <= k < n implies (#[trigger] b0.nodes@[k]).node_id@ != f by {
            assert(memo(b0.built@, b0.nodes@[k].node_id@) is Some);
        }
        assert forall|a: int, c: int| 0 <= a < c < b2.nodes@.len() implies (#[trigger] b2.nodes@[a]).node_id@
            != (#[trigger] b2.nodes@[c]).node_id@ by {
            if c < n {
                assert(b2.nodes@[a] == b0.nodes@[a] && b2.nodes@[c] == b0.nodes@[c]);
            } else if a < n {
                assert(b2.nodes@[a] == b0.nodes@[a]);
            }
        }
        assert forall|k: int| 0 <= k < b2.nodes@.len() implies memo(b2.built@, (#[trigger] b2.nodes@[k]).node_id@) is Some by {
            lemma_memo_push(b1.built@, b2.built@, b2.nodes@[k].node_id@);
            lemma_memo_push(b0.built@, b1.built@, b2.nodes@[k].node_id@);
            if k < n {
                assert(b2.nodes@[k] == b0.nodes@[k]);
            }
        }
        assert forall|k: int| 0 <= k < b2.nodes@.len() implies has_node(ns, (#[trigger] b2.nodes@[k]).node_id@)
            || (k + 1 < b2.nodes@.len() && b2.nodes@[k].node_id@ == sum_id(b2.nodes@[k + 1].node_id@)) by {
            if k < n {
                assert(b2.nodes@[k] == b0.nodes@[k]);
                if k + 1 < n {
                    assert(b2.nodes@[k + 1] == b0.nodes@[k + 1]);
                }
            }
        }
        assert forall|j: int| 0 <= j < b2.visiting@.len() implies memo(b2.built@, (#[trigger] b2.visiting@[j])@) is None by {
            let v = b0.visiting@[j]@;
            lemma_memo_push(b1.built@, b2.built@, v);
            lemma_memo_push(b0.built@, b1.built@, v);
            assert(has_node(ns, v));
            lemma_not_sum_fed(ns, rs, f, v);
        }
    }
}

proof fn lemma_builder_extend<X, A>(ns: Seq<Node<X>>, rs: Seq<Route<A>>, n1: Seq<BusNode<X>>, n2: Seq<BusNode<X>>, sinks: Seq<BusSink>, pass: X)
    requires
        plan_sound(ns, rs, n1, pass),
        forall|j: int| 0 <= j < sinks.len() ==> sink_ok(ns, rs, n1, #[trigger] sinks[j]),
        extends_nodes(n1, n2),
        forall|k: int| n1.len() <= k < n2.len() ==> #[trigger] node_ok(ns, rs, n2, k, pass),
    ensures
        plan_sound(ns, rs, n2, pass),
        forall|j: int| 0 <= j < sinks.len() ==> sink_ok(ns, rs, n2, #[trigger] sinks[j]),
{
    assert forall|k: int| 0 <= k < n2.len() implies #[trigger] node_ok(ns, rs, n2, k, pass) by {
        if k < n1.len() {
            lemma_node_extend(ns, rs, n1, n2, k, pass);
        }
    }
    assert forall|j: int| 0 <= j < sinks.len() implies sink_ok(ns, rs, n2, #[trigger] sinks[j]) by {
        lemma_sink_extend(ns, rs, n1, n2, sinks[j]);
    }
}

/// Append a plan node for `id` and remember it.
fn push_node<X>(b: &mut PlanBuilder<X>, id: String, op: BusOp<X>) -> (k: usize)
    ensures
        k == old(b).nodes@.len(),
        final(b).nodes@ == old(b).nodes@.push(BusNode { node_id: id, op }),
        final(b).built@.len() == old(b).built@.len() + 1,
        forall|i: int| 0 <= i < old(b).built@.len() ==> #[trigger] final(b).built@[i] == old(b).built@[i],
        final(b).built@.drop_last() == old(b).built@,
        final(b).built@.last().0@ == id@,
        final(b).built@.last().1 == k,
        final(b).sinks == old(b).sinks,
        final(b).visiting == old(b).visiting,
{
    let k = b.nodes.len();
    let key = id.clone();
    b.nodes.push(BusNode { node_id: id, op });
    let ghost before = b.built@;
    b.built.push((key, k));
    assert(b.built@.drop_last() =~= before);
    k
}

/// After pushing one sound node, the builder is sound again.
proof fn lemma_after_push<X, A>(ns: Seq<Node<X>>, rs: Seq<Route<A>>, b0: PlanBuilder<X>, b1: PlanBuilder<X>, pass: X)
    requires
        builder_sound(ns, rs, b0, pass),
        b1.nodes@.len() == b0.nodes@.len() + 1,
        extends_nodes(b0.nodes@, b1.nodes@),
        node_ok(ns, rs, b1.nodes@, b0.nodes@.len() as int, pass),
        b1.built@.len() == b0.built@.len() + 1,
        forall|i: int| 0 <= i < b0.built@.len() ==> #[trigger] b1.built@[i] == b0.built@[i],
        b1.built@.last().0@ == b1.nodes@.last().node_id@,
        b1.built@.last().1 == b0.nodes@.len(),
        b1.sinks == b0.sinks,
        b1.visiting == b0.visiting,
    ensures
        builder_sound(ns, rs, b1, pass),
{
    lemma_builder_extend(ns, rs, b0.nodes@, b1.nodes@, b0.sinks@, pass);
    assert forall|i: int| 0 <= i < b1.built@.len() implies (#[trigger] b1.built@[i]).1 < b1.nodes@.len()
        && b1.nodes@[b1.built@[i].1 as int].node_id@ == b1.built@[i].0@ by {
        if i < b0.built@.len() {
            assert(b1.built@[i] == b0.built@[i]);
            assert(b1.nodes@[b0.built@[i].1 as int] == b0.nodes@[b0.built@[i].1 as int]);
        } else {
            assert(b1.built@[i] == b1.built@.last());
        }
    }
}

// ── Every plan node is used ─────────────────────────────────────────────────

/// No splitter is fed by two routes. A splitter passes on its first input
/// only, so the other inputs of one fed twice are built and read by nothing.
pub open spec fn splitters_fed_once<X, A>(ns: Seq<Node<X>>, rs: Seq<Route<A>>) -> bool {
    forall|a: int| 0 <= a < ns.len() && (#[trigger] ns[a]).node_type == NodeType::Splitter ==> !multi_fed(rs, ns[a].id@)
}

/// Some plan node reads plan node `k`.
pub open spec fn read_by<X>(nodes: Seq<BusNode<X>>, k: int) -> bool {
    exists|j: int| 0 <= j < nodes.len() && #[trigger] reads(nodes[j].op, k)
}

/// Some sink renders plan node `k`.
pub open spec fn rendered<X>(sinks: Seq<BusSink>, k: int) -> bool {
    exists|j: int| 0 <= j < sinks.len() && #[trigger] sinks[j].input == k
}

/// Every plan node is read by another or rendered by a sink.
pub open spec fn all_used<X>(nodes: Seq<BusNode<X>>, sinks: Seq<BusSink>) -> bool {
    forall|k: int| 0 <= k < nodes.len() ==> read_by(nodes, k) || rendered::<X>(sinks, k)
}

/// The nodes added from `n0` to `n1` are all read, but for the one handed
/// back (`r`), which its caller uses.
spec fn fresh_used<X>(n0: Seq<BusNode<X>>, n1: Seq<BusNode<X>>, r: Option<usize>) -> bool {
    forall|k: int| n0.len() <= k < n1.len() && !(r matches Some(f) && f == k) ==> read_by(n1, k)
}

/// The nodes added since `n0` are read, or wait as one of `ins`.
spec fn pending_ok<X>(n0: Seq<BusNode<X>>, n1: Seq<BusNode<X>>, ins: Seq<BusInput>) -> bool {
    forall|k: int| n0.len() <= k < n1.len() ==> read_by(n1, k) || exists|j: int| 0 <= j < ins.len() && #[trigger] ins[j].from == k
}

proof fn lemma_read_by_extend<X>(n1: Seq<BusNode<X>>, n2: Seq<BusNode<X>>, k: int)
    requires
        read_by(n1, k),
        extends_nodes(n1, n2),
    ensures
        read_by(n2, k),
{
    let j = choose|j: int| 0 <= j < n1.len() && #[trigger] reads(n1[j].op, k);
    assert(n2[j] == n1[j]);
}

/// A node pushed that reads all of `ins` leaves every node added since `n0`
/// read.
proof fn lemma_push_reads_all<X>(n0: Seq<BusNode<X>>, n1: Seq<BusNode<X>>, ins: Seq<BusInput>, x: BusNode<X>)
    requires
        pending_ok(n0, n1, ins),
        inputs_of(x.op) == ins,
    ensures
        forall|k: int| n0.len() <= k < n1.len() ==> read_by(n1.push(x), k),
{
    let n2 = n1.push(x);
    assert(extends_nodes(n1, n2));
    assert forall|k: int| n0.len() <= k < n1.len() implies read_by(n2, k) by {
        if read_by(n1, k) {
            lemma_read_by_extend(n1, n2, k);
        } else {
            let j = choose|j: int| 0 <= j < ins.len() && #[trigger] ins[j].from == k;
            assert(inputs_of(n2[n1.len() as int].op)[j].from == k);
            assert(reads(n2[n1.len() as int].op, k));
        }
    }
}

proof fn lemma_readers_positive<X>(nodes: Seq<BusNode<X>>, k: int)
    requires
        read_by(nodes, k),
    ensures
        readers(nodes, k) > 0,
    decreases nodes.len(),
{
    let j = choose|j: int| 0 <= j < nodes.len() && #[trigger] reads(nodes[j].op, k);
    if j < nodes.len() - 1 {
        assert(nodes.drop_last()[j] == nodes[j]);
        lemma_readers_positive(nodes.drop_last(), k);
    }
}

proof fn lemma_sinks_positive<X>(sinks: Seq<BusSink>, k: int)
    requires
        rendered::<X>(sinks, k),
    ensures
        sinks_of(sinks, k) > 0,
    decreases sinks.len(),
{
    let j = choose|j: int| 0 <= j < sinks.len() && #[trigger] sinks[j].input == k;
    if j < sinks.len() - 1 {
        assert(sinks.drop_last()[j] == sinks[j]);
        lemma_sinks_positive::<X>(sinks.drop_last(), k);
    }
}

/// One more input of a hub built: what was pending stays pending or gets
/// read, and the nodes the build added are read or are the new input.
proof fn lemma_pending_step<X>(n0: Seq<BusNode<X>>, nb: Seq<BusNode<X>>, n2: Seq<BusNode<X>>, ins0: Seq<BusInput>, ins1: Seq<BusInput>, r: Option<usize>)
    requires
        pending_ok(n0, nb, ins0),
        extends_nodes(nb, n2),
        fresh_used(nb, n2, r),
        ins1.len() >= ins0.len(),
        forall|j: int| 0 <= j < ins0.len() ==> #[trigger] ins1[j] == ins0[j],
        r matches Some(f) ==> exists|j: int| 0 <= j < ins1.len() && #[trigger] ins1[j].from == f,
    ensures
        pending_ok(n0, n2, ins1),
{
    assert forall|k: int| n0.len() <= k < n2.len() implies read_by(n2, k) || exists|j: int| 0 <= j < ins1.len() && #[trigger] ins1[j].from == k by {
        if k < nb.len() {
            if read_by(nb, k) {
                lemma_read_by_extend(nb, n2, k);
            } else {
                let j = choose|j: int| 0 <= j < ins0.len() && #[trigger] ins0[j].from == k;
                assert(ins1[j] == ins0[j]);
            }
        }
    }
}

/// A hub node pushed that reads all its pending inputs leaves every node
/// added since `n0` read, but for itself.
proof fn lemma_hub_used<X>(n0: Seq<BusNode<X>>, n1: Seq<BusNode<X>>, ins: Seq<BusInput>, x: BusNode<X>, k: usize)
    requires
        pending_ok(n0, n1, ins),
        inputs_of(x.op) == ins,
        n0.len() <= n1.len(),
        k == n1.len(),
    ensures
        fresh_used(n0, n1.push(x), Some(k)),
{
    lemma_push_reads_all(n0, n1, ins, x);
}

/// After a build that handed back `r` (and a sink for it, when there is
/// one), every plan node is still used.
proof fn lemma_used_after_build<X>(n1: Seq<BusNode<X>>, n2: Seq<BusNode<X>>, s1: Seq<BusSink>, s2: Seq<BusSink>, r: Option<usize>)
    requires
        all_used(n1, s1),
        extends_nodes(n1, n2),
        fresh_used(n1, n2, r),
        s2.len() >= s1.len(),
        forall|j: int| 0 <= j < s1.len() ==> #[trigger] s2[j] == s1[j],
        r matches Some(f) ==> rendered::<X>(s2, f as int),
    ensures
        all_used(n2, s2),
{
    assert forall|k: int| 0 <= k < n2.len() implies read_by(n2, k) || rendered::<X>(s2, k) by {
        if k < n1.len() {
            if read_by(n1, k) {
                lemma_read_by_extend(n1, n2, k);
            } else {
                let j = choose|j: int| 0 <= j < s1.len() && #[trigger] s1[j].input == k;
                assert(s2[j] == s1[j]);
            }
        }
    }
}

/// Build (or reuse) the plan node for graph node `id`: `None` when it
/// produces nothing (an unconfigured capture, an output, a hub nothing
/// feeds, a node being resolved, an unknown id).
fn build_node<X: Copy, A>(g: &Graph<X, A>, rkeys: &Vec<&str>, id: &str, b: &mut PlanBuilder<X>, pass: X) -> (r: Option<usize>)
    requires
        g.wf(),
        key_view(rkeys@) == route_ids(g.route_seq()),
        builder_ok(g.node_seq(), g.route_seq(), *old(b), pass),
        has_node(g.node_seq(), id@),
        forall|j: int|
            0 <= j < old(b).visiting@.len() ==> reaches(g.node_seq(), g.route_seq(), id@, (#[trigger] old(b).visiting@[j])@),
    ensures
        builder_ok(g.node_seq(), g.route_seq(), *final(b), pass),
        extends_nodes(old(b).nodes@, final(b).nodes@),
        final(b).visiting@ == old(b).visiting@,
        final(b).sinks@ == old(b).sinks@,
        r matches Some(k) ==> k < final(b).nodes@.len() && final(b).nodes@[k as int].node_id@ == id@,
        acyclic(g.node_seq(), g.route_seq()) && sum_free(g.node_seq()) ==> (r is Some <==> produces(
            g.node_seq(),
            g.route_seq(),
            id@,
        )),
        splitters_fed_once(g.node_seq(), g.route_seq()) ==> fresh_used(old(b).nodes@, final(b).nodes@, r),
    decreases g.node_seq().len() - old(b).visiting@.len(), 1nat,
{
    let ghost ns = g.node_seq();
    let ghost rs = g.route_seq();
    match find_built(&b.built, id) {
        Some(k) => {
            proof {
                lemma_memo_entry(b.built@, id@);
                if acyclic(ns, rs) && sum_free(ns) {
                    reveal(builder_complete);
                    assert(b.nodes@[k as int].node_id@ == id@);
                }
            }
            return Some(k);
        },
        None => {},
    }
    if contains_str(&b.visiting, id) {
        proof {
            if acyclic(ns, rs) {
                let j = choose|j: int| 0 <= j < b.visiting@.len() && (#[trigger] b.visiting@[j])@ == id@;
                assert(reaches(ns, rs, id@, b.visiting@[j]@));
                let c = choose|c: Seq<Seq<char>>| #[trigger] g_walk(ns, rs, c) && c[0] == id@ && c.last() == id@;
                assert(c[0] != c.last());
            }
        }
        return None;
    }
    let node = match g.get_node(id) {
        Some(n) => n,
        None => {
            return None;
        },
    };
    let ghost b0 = *b;
    match node.node_type {
        NodeType::Source | NodeType::Virtual => {
            if node.device_id.unicode_len() == 0 && node.exe_name.is_none() {
                proof {
                    lemma_not_produces(ns, rs, id@);
                }
                return None;
            }
            let key = match &node.exe_name {
                Some(exe) => {
                    let mut k = String::from_str("exe:");
                    k.append(exe.as_str());
                    k
                },
                None => node.device_id.clone(),
            };
            let exe_name = match &node.exe_name {
                Some(e) => Some(e.clone()),
                None => None,
            };
            let is_virtual = is_nodus_virtual_name(node.label.as_str());
            let op = BusOp::Source { key, device_id: node.device_id.clone(), exe_name, is_virtual };
            let k = push_node(b, String::from_str(id), op);
            proof {
                assert(node_ok(ns, rs, b.nodes@, k as int, pass));
                lemma_after_push(ns, rs, b0, *b, pass);
                lemma_unique_push(ns, rs, b0, *b, id@);
                assert(fed_by(ns, rs, Seq::<int>::empty(), id@));
                if acyclic(ns, rs) && sum_free(ns) {
                    assert(b.nodes@[k as int].node_id@ == id@);
                    assert(node_complete(ns, rs, b.nodes@, k as int));
                    lemma_complete_extend(ns, rs, b0.nodes@, b.nodes@, pass);
                }
            }
            Some(k)
        },
        NodeType::Output => {
            proof {
                lemma_not_produces(ns, rs, id@);
            }
            None
        },
        _ => build_hub(g, rkeys, id, node, b, pass),
    }
}

/// What the hub loop leaves: inputs, one per producing route into `id` in
/// id order (`pos` says which of the `sorted` routes each came from).
spec fn hub_loop_done<X, A>(ns: Seq<Node<X>>, rs: Seq<Route<A>>, id: Seq<char>, sorted: Seq<usize>, pos: Seq<int>, ins: Seq<BusInput>) -> bool {
    &&& rs.len() <= usize::MAX
    &&& pos.len() == ins.len()
    &&& forall|j: int| 0 <= j < sorted.len() ==> #[trigger] sorted[j] < rs.len() && rs[sorted[j] as int].to_node@ == id
    &&& forall|a: int, c: int| 0 <= a < c < sorted.len() ==> str_lt(rs[sorted[a] as int].id@, rs[sorted[c] as int].id@)
    &&& forall|t: int| 0 <= t < rs.len() && rs[t].to_node@ == id ==> sorted.contains(t as usize)
    &&& forall|j: int|
        0 <= j < pos.len() ==> 0 <= #[trigger] pos[j] < sorted.len() && ins[j].edge@ == rs[sorted[pos[j]] as int].id@
            && produces(ns, rs, rs[sorted[pos[j]] as int].from_node@)
    &&& forall|a: int, c: int| 0 <= a < c < pos.len() ==> pos[a] < pos[c]
    &&& forall|q: int| 0 <= q < sorted.len() && produces(ns, rs, rs[sorted[q] as int].from_node@) ==> pos.contains(q)
}

proof fn lemma_hub_facts<X, A>(ns: Seq<Node<X>>, rs: Seq<Route<A>>, id: Seq<char>, sorted: Seq<usize>, pos: Seq<int>, ins: Seq<BusInput>)
    requires
        hub_loop_done(ns, rs, id, sorted, pos, ins),
        has_node(ns, id),
        is_hub_kind(node_of(ns, id).node_type),
    ensures
        forall|a: int, c: int| 0 <= a < c < ins.len() ==> str_lt(edges_of(ins)[a], edges_of(ins)[c]),
        forall|t: int| #[trigger] feeding(ns, rs, id, t) ==> edges_of(ins).contains(rs[t].id@),
        produces(ns, rs, id) <==> ins.len() > 0,
{
    let e = edges_of(ins);
    assert forall|a: int, c: int| 0 <= a < c < ins.len() implies str_lt(e[a], e[c]) by {
        assert(pos[a] < pos[c]);
        assert(0 <= pos[a] < sorted.len() && 0 <= pos[c] < sorted.len());
    }
    assert forall|t: int| #[trigger] feeding(ns, rs, id, t) implies e.contains(rs[t].id@) by {
        assert(sorted.contains(t as usize));
        let q = choose|q: int| 0 <= q < sorted.len() && sorted[q] == t as usize;
        assert(sorted[q] as int == t);
        assert(produces(ns, rs, rs[sorted[q] as int].from_node@));
        assert(pos.contains(q));
        let j = choose|j: int| 0 <= j < pos.len() && pos[j] == q;
        assert(0 <= pos[j] < sorted.len() && ins[j].edge@ == rs[sorted[pos[j]] as int].id@);
        assert(e[j] == ins[j].edge@);
        assert(e[j] == rs[t].id@);
    }
    if ins.len() > 0 {
        assert(0 <= pos[0] < sorted.len());
        let t = sorted[pos[0]] as int;
        assert(produces(ns, rs, rs[t].from_node@));
        let p0 = choose|p: Seq<int>| #[trigger] fed_by(ns, rs, p, rs[t].from_node@);
        let p1 = p0.push(t);
        assert(p1.drop_last() =~= p0);
        assert(fed_by(ns, rs, p1, id));
    }
    if produces(ns, rs, id) {
        let p = choose|p: Seq<int>| #[trigger] fed_by(ns, rs, p, id);
        assert(p.len() > 0);
        let t = p.last();
        assert(fed_by(ns, rs, p.drop_last(), rs[t].from_node@));
        assert(feeding(ns, rs, id, t));
        assert(e.contains(rs[t].id@));
    }
}

/// A hub's plan node whose inputs are all the producing routes into it, in
/// id order (a splitter's, the first of them), takes all that feeds it.
proof fn lemma_hub_complete<X, A>(ns: Seq<Node<X>>, rs: Seq<Route<A>>, nodes: Seq<BusNode<X>>, k: int, id: Seq<char>, ins: Seq<BusInput>)
    requires
        0 <= k < nodes.len(),
        nodes[k].node_id@ == id,
        has_node(ns, id),
        is_hub_kind(node_of(ns, id).node_type),
        ins.len() > 0,
        forall|a: int, c: int| 0 <= a < c < ins.len() ==> str_lt(edges_of(ins)[a], edges_of(ins)[c]),
        forall|t: int| #[trigger] feeding(ns, rs, id, t) ==> edges_of(ins).contains(rs[t].id@),
        node_of(ns, id).node_type == NodeType::Splitter ==> hub_inputs(nodes, k, id) == seq![ins[0]],
        node_of(ns, id).node_type != NodeType::Splitter ==> hub_inputs(nodes, k, id) == ins,
    ensures
        node_complete(ns, rs, nodes, k),
{
    let e = edges_of(ins);
    if node_of(ns, id).node_type == NodeType::Splitter {
        let e1 = edges_of(hub_inputs(nodes, k, id));
        assert(e1.len() == 1);
        assert(e1[0] == e[0]);
        assert forall|t: int| #[trigger] feeding(ns, rs, id, t) implies !str_lt(rs[t].id@, e1[0]) by {
            let j = choose|j: int| 0 <= j < e.len() && e[j] == rs[t].id@;
            lemma_str_lt_total(e[j], e[0]);
            if j > 0 {
                assert(str_lt(e[0], e[j]));
            }
        }
    }
}

/// Build the plan node of hub `node` (an effect, mixer or splitter): its
/// inputs are the routes into it, by id, whose sources produce something.
#[verifier::rlimit(40)]
fn build_hub<X: Copy, A>(g: &Graph<X, A>, rkeys: &Vec<&str>, id: &str, node: &Node<X>, b: &mut PlanBuilder<X>, pass: X) -> (r: Option<usize>)
    requires
        g.wf(),
        key_view(rkeys@) == route_ids(g.route_seq()),
        builder_ok(g.node_seq(), g.route_seq(), *old(b), pass),
        has_node(g.node_seq(), id@),
        *node == node_of(g.node_seq(), id@),
        is_hub_kind(node.node_type),
        !(exists|j: int| 0 <= j < old(b).visiting@.len() && (#[trigger] old(b).visiting@[j])@ == id@),
        memo(old(b).built@, id@) is None,
        forall|j: int|
            0 <= j < old(b).visiting@.len() ==> reaches(g.node_seq(), g.route_seq(), id@, (#[trigger] old(b).visiting@[j])@),
    ensures
        builder_ok(g.node_seq(), g.route_seq(), *final(b), pass),
        extends_nodes(old(b).nodes@, final(b).nodes@),
        final(b).visiting@ == old(b).visiting@,
        final(b).sinks@ == old(b).sinks@,
        r matches Some(k) ==> k < final(b).nodes@.len() && final(b).nodes@[k as int].node_id@ == id@,
        acyclic(g.node_seq(), g.route_seq()) && sum_free(g.node_seq()) ==> (r is Some <==> produces(
            g.node_seq(),
            g.route_seq(),
            id@,
        )),
        splitters_fed_once(g.node_seq(), g.route_seq()) ==> fresh_used(old(b).nodes@, final(b).nodes@, r),
    decreases g.node_seq().len() - old(b).visiting@.len(), 0nat,
{
    let ghost ns = g.node_seq();
    let ghost rs = g.route_seq();
    let ghost v0 = b.visiting@;
    let ghost n0 = b.nodes@;
    let ghost sinks0 = b.sinks@;
    let ghost full = acyclic(ns, rs) && sum_free(ns);
    let me = String::from_str(id);
    let ghost bv = *b;
    b.visiting.push(me);
    let ghost vis = b.visiting@;
    proof {
        assert(b.visiting@.last()@ == id@);
        assert forall|a: int, c: int| 0 <= a < c < vis.len() implies (#[trigger] vis[a])@ != (#[trigger] vis[c])@ by {
            if c == vis.len() - 1 {
                assert(vis[a] == v0[a]);
            } else {
                assert(vis[a] == v0[a] && vis[c] == v0[c]);
            }
        }
        assert forall|j: int| 0 <= j < vis.len() implies has_node(ns, (#[trigger] vis[j])@) by {
            if j < v0.len() {
                assert(vis[j] == v0[j]);
            }
        }
        lemma_visiting_bound(ns, vis);
        assert(vis.drop_last() =~= v0);
        lemma_visit_push(ns, rs, bv, *b, id@);
    }
    let rs_exec = g.routes();
    let nr = rs_exec.len();
    let inc = incoming_routes(rs_exec, id);
    proof {
        assert(key_view(rkeys@).len() == rkeys@.len());
        assert(route_ids(rs).len() == rs.len());
        assert forall|a: int, c: int| 0 <= a < c < inc@.len() implies key_view(rkeys@)[inc@[a] as int]
            != key_view(rkeys@)[inc@[c] as int] by {
            assert(route_ids(rs)[inc@[a] as int] == rs[inc@[a] as int].id@);
            assert(route_ids(rs)[inc@[c] as int] == rs[inc@[c] as int].id@);
        }
    }
    let sorted = sort_by_keys(rkeys, inc);
    proof {
        assert forall|j: int| 0 <= j < sorted@.len() implies #[trigger] sorted@[j] < rs.len() && rs[sorted@[j] as int].to_node@ == id@ by {
            assert(sorted@.contains(sorted@[j]));
            let q = choose|q: int| 0 <= q < inc@.len() && inc@[q] == sorted@[j];
        }
        assert forall|a: int, c: int| 0 <= a < c < sorted@.len() implies str_lt(
            rs[sorted@[a] as int].id@,
            rs[sorted@[c] as int].id@,
        ) by {
            assert(key_view(rkeys@)[sorted@[a] as int] == route_ids(rs)[sorted@[a] as int]);
            assert(key_view(rkeys@)[sorted@[c] as int] == route_ids(rs)[sorted@[c] as int]);
        }
        assert forall|t: int| 0 <= t < rs.len() && rs[t].to_node@ == id@ implies sorted@.contains(t as usize) by {
            assert(inc@.contains(t as usize));
        }
    }
    let mut inputs: Vec<BusInput> = Vec::new();
    let ghost mut pos: Seq<int> = Seq::empty();
    let mut i: usize = 0;
    while i < sorted.len()
        invariant
            g.wf(),
            ns == g.node_seq(),
            rs == g.route_seq(),
            rs_exec@ == rs,
            nr == rs.len(),
            key_view(rkeys@) == route_ids(rs),
            builder_ok(ns, rs, *b, pass),
            b.visiting@ == vis,
            v0 == old(b).visiting@,
            vis.len() == v0.len() + 1,
            vis.len() <= ns.len(),
            vis.last()@ == id@,
            vis.drop_last() == v0,
            has_node(ns, id@),
            forall|j: int| 0 <= j < v0.len() ==> reaches(ns, rs, id@, (#[trigger] v0[j])@),
            extends_nodes(n0, b.nodes@),
            b.sinks@ == sinks0,
            i <= sorted@.len(),
            full == (acyclic(ns, rs) && sum_free(ns)),
            forall|j: int| 0 <= j < sorted@.len() ==> #[trigger] sorted@[j] < rs.len() && rs[sorted@[j] as int].to_node@ == id@,
            forall|a: int, c: int| 0 <= a < c < sorted@.len() ==> str_lt(rs[sorted@[a] as int].id@, rs[sorted@[c] as int].id@),
            forall|j: int| 0 <= j < inputs@.len() ==> #[trigger] input_ok(rs, b.nodes@, inputs@[j], id@),
            pos.len() == inputs@.len(),
            forall|j: int|
                0 <= j < pos.len() ==> 0 <= #[trigger] pos[j] < i && inputs@[j].edge@ == rs[sorted@[pos[j]] as int].id@,
            forall|a: int, c: int| 0 <= a < c < pos.len() ==> pos[a] < pos[c],
            full ==> forall|j: int| 0 <= j < pos.len() ==> produces(ns, rs, rs[sorted@[#[trigger] pos[j]] as int].from_node@),
            full ==> forall|q: int| 0 <= q < i && produces(ns, rs, rs[sorted@[q] as int].from_node@) ==> pos.contains(q),
            n0 == old(b).nodes@,
            splitters_fed_once(ns, rs) ==> pending_ok(n0, b.nodes@, inputs@),
        decreases sorted@.len() - i,
    {
        let ri = sorted[i];
        let route = &rs_exec[ri];
        let ghost nb = b.nodes@;
        proof {
            assert(has_node(ns, rs[ri as int].from_node@) && has_node(ns, rs[ri as int].to_node@));
            assert(has_pair(rs, route.from_node@, id@));
            assert(g_edge(ns, rs, route.from_node@, id@));
            lemma_reach_step(ns, rs, route.from_node@, id@, v0);
            assert forall|j: int| 0 <= j < vis.len() implies reaches(ns, rs, route.from_node@, (#[trigger] vis[j])@) by {
                if j < v0.len() {
                    assert(vis[j] == v0[j]);
                    assert(reaches(ns, rs, route.from_node@, v0[j]@));
                } else {
                    assert(vis[j] == vis.last());
                }
            }
        }
        let res = build_node(g, rkeys, route.from_node.as_str(), b, pass);
        proof {
            assert forall|j: int| 0 <= j < inputs@.len() implies #[trigger] input_ok(rs, b.nodes@, inputs@[j], id@) by {
                lemma_input_extend(rs, nb, b.nodes@, inputs@[j], id@);
            }
        }
        match res {
            Some(from) => {
                let inp = BusInput { from, edge: route.id.clone() };
                proof {
                    lemma_route_at(rs, ri as int);
                    assert(input_ok(rs, b.nodes@, inp, id@));
                }
                let ghost pos0 = pos;
                let ghost in0 = inputs@;
                inputs.push(inp);
                proof {
                    if splitters_fed_once(ns, rs) {
                        assert(inputs@[inputs@.len() - 1].from == from);
                        lemma_pending_step(n0, nb, b.nodes@, in0, inputs@, res);
                    }
                    pos = pos.push(i as int);
                    assert forall|j: int| 0 <= j < inputs@.len() implies #[trigger] input_ok(rs, b.nodes@, inputs@[j], id@) by {
                        if j == inputs@.len() - 1 {
                            assert(inputs@[j] == inp);
                        }
                    }
                    assert forall|j: int| 0 <= j < pos.len() implies 0 <= #[trigger] pos[j] < i + 1 && inputs@[j].edge@
                        == rs[sorted@[pos[j]] as int].id@ by {
                        if j < pos0.len() {
                            assert(pos[j] == pos0[j]);
                        }
                    }
                    if full {
                        assert forall|q: int| 0 <= q < i + 1 && produces(ns, rs, rs[sorted@[q] as int].from_node@) implies pos.contains(q) by {
                            if q < i {
                                assert(pos0.contains(q));
                                let j = choose|j: int| 0 <= j < pos0.len() && pos0[j] == q;
                                assert(pos[j] == q);
                            } else {
                                assert(pos[pos.len() - 1] == q);
                            }
                        }
                        assert forall|j: int| 0 <= j < pos.len() implies produces(ns, rs, rs[sorted@[#[trigger] pos[j]] as int].from_node@) by {
                            if j < pos0.len() {
                                assert(pos[j] == pos0[j]);
                            }
                        }
                    }
                }
            },
            None => {
                proof {
                    if splitters_fed_once(ns, rs) {
                        lemma_pending_step(n0, nb, b.nodes@, inputs@, inputs@, res);
                    }
                    if full {
                        assert forall|q: int| 0 <= q < i + 1 && produces(ns, rs, rs[sorted@[q] as int].from_node@) implies pos.contains(q) by {
                            if q == i {
                                assert(!produces(ns, rs, rs[sorted@[q] as int].from_node@));
                            }
                        }
                    }
                }
            },
        }
        i += 1;
    }
    let ghost bp = *b;
    b.visiting.pop();
    proof {
        assert(b.visiting@ =~= v0);
        lemma_visit_pop(ns, rs, bp, *b, id@);
        if full {
            assert(hub_loop_done(ns, rs, id@, sorted@, pos, inputs@));
            lemma_hub_facts(ns, rs, id@, sorted@, pos, inputs@);
        }
    }
    if inputs.len() == 0 {
        return None;
    }
    let ghost b1 = *b;
    let ghost ins = inputs@;
    let k = if node.node_type == NodeType::Fx {
        let spec = match node.fx {
            Some(x) => x,
            None => pass,
        };
        if inputs.len() > 1 {
            let mut sid = String::from_str(id);
            sid.append("::sum");
            proof {
                assert(multi_fed(rs, id@)) by {
                    let e1 = sorted@[pos[0]] as int;
                    let e2 = sorted@[pos[1]] as int;
                    assert(pos[0] < pos[1]);
                    assert(str_lt(rs[e1].id@, rs[e2].id@));
                    crate::text::lemma_str_lt_total(rs[e1].id@, rs[e1].id@);
                    assert(e1 != e2);
                    assert(rs[e1].to_node@ == id@ && rs[e2].to_node@ == id@);
                }
                assert forall|j: int| 0 <= j < ins.len() implies #[trigger] ins[j].from < b1.nodes@.len() by {
                    assert(input_ok(rs, b1.nodes@, ins[j], id@));
                }
            }
            let s = push_node(b, sid, BusOp::Sum { inputs });
            proof {
                reveal_strlit("::sum");
                assert(inputs_of(b.nodes@[s as int].op) == ins);
                let idv = b.nodes@[s as int].node_id@;
                assert(idv.take(idv.len() - 5) =~= id@);
                assert forall|j: int| 0 <= j < ins.len() implies #[trigger] input_ok(rs, b.nodes@, ins[j], id@) by {
                    lemma_input_extend(rs, b1.nodes@, b.nodes@, ins[j], id@);
                }
                assert(node_ok(ns, rs, b.nodes@, s as int, pass));
                lemma_after_push(ns, rs, b1, *b, pass);
            }
            let ghost b2 = *b;
            let fx = push_node(
                b,
                String::from_str(id),
                BusOp::Fx { node_id: String::from_str(id), spec, input: BusInput { from: s, edge: String::new() } },
            );
            proof {
                if splitters_fed_once(ns, rs) {
                    lemma_push_reads_all(n0, b1.nodes@, ins, b2.nodes@[s as int]);
                    assert(b2.nodes@ == b1.nodes@.push(b2.nodes@[s as int]));
                    assert(inputs_of(b.nodes@[fx as int].op)[0].from == s);
                    assert(reads(b.nodes@[fx as int].op, s as int));
                    assert(extends_nodes(b2.nodes@, b.nodes@));
                    assert forall|k: int| n0.len() <= k < b.nodes@.len() && !(Some(fx) matches Some(f) && f == k) implies read_by(b.nodes@, k) by {
                        if k < b1.nodes@.len() {
                            lemma_read_by_extend(b2.nodes@, b.nodes@, k);
                        }
                    }
                }
                assert(b.nodes@[s as int] == b2.nodes@[s as int]);
                assert(node_ok(ns, rs, b.nodes@, fx as int, pass));
                lemma_after_push(ns, rs, b2, *b, pass);
                lemma_unique_push_sum(ns, rs, b1, b2, *b, id@);
                if full {
                    assert(hub_inputs(b.nodes@, fx as int, id@) == ins);
                    lemma_hub_complete(ns, rs, b.nodes@, fx as int, id@, ins);
                    lemma_not_sum(ns, id@, id@);
                    assert(!has_node(ns, b.nodes@[s as int].node_id@)) by {
                        if has_node(ns, sum_id(id@)) {
                            lemma_not_sum(ns, id@, sum_id(id@));
                        }
                    }
                    lemma_complete_extend(ns, rs, b1.nodes@, b.nodes@, pass);
                }
            }
            fx
        } else {
            proof {
                assert(input_ok(rs, b1.nodes@, inputs@[0], id@));
            }
            let first = inputs.remove(0);
            let fx = push_node(b, String::from_str(id), BusOp::Fx { node_id: String::from_str(id), spec, input: first });
            proof {
                if splitters_fed_once(ns, rs) {
                    assert(ins.len() == 1);
                    assert(inputs_of(b.nodes@[fx as int].op) =~= ins);
                    assert(b.nodes@ == b1.nodes@.push(b.nodes@[fx as int]));
                    lemma_hub_used(n0, b1.nodes@, ins, b.nodes@[fx as int], fx);
                }
                lemma_input_extend(rs, b1.nodes@, b.nodes@, first, id@);
                assert(node_ok(ns, rs, b.nodes@, fx as int, pass));
                lemma_after_push(ns, rs, b1, *b, pass);
                lemma_unique_push(ns, rs, b1, *b, id@);
                if full {
                    let fid = b.nodes@[first.from as int].node_id@;
                    assert(has_node(ns, fid));
                    lemma_not_sum(ns, id@, fid);
                    assert(ins =~= seq![first]);
                    assert(hub_inputs(b.nodes@, fx as int, id@) == ins);
                    lemma_hub_complete(ns, rs, b.nodes@, fx as int, id@, ins);
                    lemma_complete_extend(ns, rs, b1.nodes@, b.nodes@, pass);
                }
            }
            fx
        }
    } else if node.node_type == NodeType::Mixer && inputs.len() > 1 {
        proof {
            assert forall|j: int| 0 <= j < ins.len() implies #[trigger] ins[j].from < b1.nodes@.len() by {
                assert(input_ok(rs, b1.nodes@, ins[j], id@));
            }
        }
        let s = push_node(b, String::from_str(id), BusOp::Sum { inputs });
        proof {
            assert(inputs_of(b.nodes@[s as int].op) == ins);
            if splitters_fed_once(ns, rs) {
                assert(b.nodes@ == b1.nodes@.push(b.nodes@[s as int]));
                lemma_hub_used(n0, b1.nodes@, ins, b.nodes@[s as int], s);
            }
            assert forall|j: int| 0 <= j < ins.len() implies #[trigger] input_ok(rs, b.nodes@, ins[j], id@) by {
                lemma_input_extend(rs, b1.nodes@, b.nodes@, ins[j], id@);
            }
            assert(node_ok(ns, rs, b.nodes@, s as int, pass));
            lemma_after_push(ns, rs, b1, *b, pass);
            lemma_unique_push(ns, rs, b1, *b, id@);
            if full {
                assert(hub_inputs(b.nodes@, s as int, id@) == ins);
                lemma_hub_complete(ns, rs, b.nodes@, s as int, id@, ins);
                lemma_complete_extend(ns, rs, b1.nodes@, b.nodes@, pass);
            }
        }
        s
    } else {
        proof {
            assert(input_ok(rs, b1.nodes@, inputs@[0], id@));
        }
        let first = inputs.remove(0);
        let p = push_node(b, String::from_str(id), BusOp::Pass { input: first });
        proof {
            if splitters_fed_once(ns, rs) {
                if ins.len() > 1 {
                    assert(multi_fed(rs, id@)) by {
                        let e1 = sorted@[pos[0]] as int;
                        let e2 = sorted@[pos[1]] as int;
                        assert(pos[0] < pos[1]);
                        assert(str_lt(rs[e1].id@, rs[e2].id@));
                        crate::text::lemma_str_lt_total(rs[e1].id@, rs[e1].id@);
                        assert(rs[e1].to_node@ == id@ && rs[e2].to_node@ == id@);
                    }
                    let a = node_pos(ns, id@);
                    assert(ns[a].id@ == id@);
                }
                assert(ins.len() == 1);
                assert(inputs_of(b.nodes@[p as int].op) =~= ins);
                assert(b.nodes@ == b1.nodes@.push(b.nodes@[p as int]));
                lemma_hub_used(n0, b1.nodes@, ins, b.nodes@[p as int], p);
            }
            lemma_input_extend(rs, b1.nodes@, b.nodes@, first, id@);
            assert(node_ok(ns, rs, b.nodes@, p as int, pass));
            lemma_after_push(ns, rs, b1, *b, pass);
            lemma_unique_push(ns, rs, b1, *b, id@);
            if full {
                assert(hub_inputs(b.nodes@, p as int, id@) == seq![first]);
                if node.node_type != NodeType::Splitter {
                    assert(ins =~= seq![first]);
                }
                lemma_hub_complete(ns, rs, b.nodes@, p as int, id@, ins);
                lemma_complete_extend(ns, rs, b1.nodes@, b.nodes@, pass);
            }
        }
        p
    };
    Some(k)
}

// ── Chains ──────────────────────────────────────────────────────────────────

/// Each entry is the id of a route of the graph, and none repeats.
pub open spec fn chain_routes<A>(rs: Seq<Route<A>>, c: Seq<String>) -> bool {
    &&& forall|j: int| 0 <= j < c.len() ==> has_route(rs, (#[trigger] c[j])@)
    &&& forall|a: int, b: int| 0 <= a < b < c.len() ==> (#[trigger] c[a])@ != (#[trigger] c[b])@
}

proof fn lemma_chain_bound<A>(rs: Seq<Route<A>>, c: Seq<String>)
    requires
        chain_routes(rs, c),
    ensures
        c.len() <= rs.len(),
{
    let cv = c.map_values(|s: String| s@);
    assert forall|j: int| 0 <= j < cv.len() implies route_ids(rs).contains(cv[j]) by {
        assert(has_route(rs, c[j]@));
        let i = choose|i: int| 0 <= i < rs.len() && (#[trigger] rs[i]).id@ == c[j]@;
        assert(route_ids(rs)[i] == cv[j]);
    }
    assert forall|a: int, b: int| 0 <= a < b < cv.len() implies cv[a] != cv[b] by {
        assert(c[a]@ != c[b]@);
    }
    lemma_distinct_within(cv, route_ids(rs));
}

/// Route id `e` is in chain `c`.
pub open spec fn in_chain(c: Seq<String>, e: Seq<char>) -> bool {
    exists|j: int| 0 <= j < c.len() && (#[trigger] c[j])@ == e
}

/// The routes at positions `p` lead into node `n`, one after the other:
/// the last arrives at `n`, and each arrives where the next leaves.
pub open spec fn route_path<A>(rs: Seq<Route<A>>, p: Seq<int>, n: Seq<char>) -> bool
    decreases p.len(),
{
    if p.len() == 0 {
        false
    } else {
        &&& 0 <= p.last() < rs.len()
        &&& rs[p.last()].to_node@ == n
        &&& (p.len() > 1 ==> route_path(rs, p.drop_last(), rs[p.last()].from_node@))
    }
}

/// The route at position `t` is upstream of node `n`: a path of routes
/// leads from it into `n`.
pub open spec fn upstream<A>(rs: Seq<Route<A>>, t: int, n: Seq<char>) -> bool {
    exists|p: Seq<int>| #[trigger] route_path(rs, p, n) && p[0] == t
}

/// A chain holds exactly the route at position `k` and every route
/// upstream of that route's source.
pub open spec fn chain_exact<A>(rs: Seq<Route<A>>, c: Seq<String>, k: int) -> bool {
    forall|t: int| 0 <= t < rs.len() ==> (#[trigger] in_chain(c, rs[t].id@) <==> (t == k || upstream(rs, t, rs[k].from_node@)))
}

/// Every route into node `f` is in chain `c`.
spec fn expanded<A>(rs: Seq<Route<A>>, c: Seq<String>, f: Seq<char>) -> bool {
    forall|t: int| 0 <= t < rs.len() && rs[t].to_node@ == f ==> #[trigger] in_chain(c, rs[t].id@)
}

/// The source of every route in chain `c` has had all its incoming routes
/// added, unless it is still being explored (in `open`).
spec fn chain_closed<A>(rs: Seq<Route<A>>, c: Seq<String>, open: Set<Seq<char>>) -> bool {
    forall|j: int|
        0 <= j < c.len() ==> open.contains(rs[route_pos(rs, (#[trigger] c[j])@)].from_node@) || expanded(
            rs,
            c,
            rs[route_pos(rs, c[j]@)].from_node@,
        )
}

proof fn lemma_in_chain_grow(c0: Seq<String>, c1: Seq<String>, e: Seq<char>)
    requires
        c1.len() >= c0.len(),
        forall|j: int| 0 <= j < c0.len() ==> #[trigger] c1[j] == c0[j],
        in_chain(c0, e),
    ensures
        in_chain(c1, e),
{
    let j = choose|j: int| 0 <= j < c0.len() && (#[trigger] c0[j])@ == e;
    assert(c1[j] == c0[j]);
}

proof fn lemma_expanded_grow<A>(rs: Seq<Route<A>>, c0: Seq<String>, c1: Seq<String>, f: Seq<char>)
    requires
        c1.len() >= c0.len(),
        forall|j: int| 0 <= j < c0.len() ==> #[trigger] c1[j] == c0[j],
        expanded(rs, c0, f),
    ensures
        expanded(rs, c1, f),
{
    assert forall|t: int| 0 <= t < rs.len() && rs[t].to_node@ == f implies #[trigger] in_chain(c1, rs[t].id@) by {
        lemma_in_chain_grow(c0, c1, rs[t].id@);
    }
}

/// A route into `n` is upstream of it.
proof fn lemma_upstream_base<A>(rs: Seq<Route<A>>, t: int, n: Seq<char>)
    requires
        0 <= t < rs.len(),
        rs[t].to_node@ == n,
    ensures
        upstream(rs, t, n),
{
    let p = seq![t];
    assert(route_path(rs, p, n));
}

/// What is upstream of a route's source is upstream of where it arrives.
proof fn lemma_upstream_step<A>(rs: Seq<Route<A>>, t: int, u: int, n: Seq<char>)
    requires
        0 <= u < rs.len(),
        rs[u].to_node@ == n,
        upstream(rs, t, rs[u].from_node@),
    ensures
        upstream(rs, t, n),
{
    let p = choose|p: Seq<int>| #[trigger] route_path(rs, p, rs[u].from_node@) && p[0] == t;
    let q = p.push(u);
    assert(q.drop_last() =~= p);
    assert(route_path(rs, q, n));
    assert(q[0] == t);
}

/// A closed chain holding every route into `m` holds every route upstream
/// of `m`.
proof fn lemma_closed_complete<A>(rs: Seq<Route<A>>, c: Seq<String>, m: Seq<char>, p: Seq<int>)
    requires
        crate::graph::unique_route_ids(rs),
        chain_closed(rs, c, Set::empty()),
        expanded(rs, c, m),
        route_path(rs, p, m),
    ensures
        in_chain(c, rs[p[0]].id@),
    decreases p.len(),
{
    let u = p.last();
    assert(in_chain(c, rs[u].id@));
    if p.len() > 1 {
        let j = choose|j: int| 0 <= j < c.len() && (#[trigger] c[j])@ == rs[u].id@;
        lemma_route_at(rs, u);
        assert(route_pos(rs, c[j]@) == u);
        assert(!Set::<Seq<char>>::empty().contains(rs[u].from_node@));
        lemma_closed_complete(rs, c, rs[u].from_node@, p.drop_last());
    }
}

/// The chain of a sink: the routes upstream of the final route's source,
/// as `collect_chain` leaves them, then the final route.
proof fn lemma_sink_chain_exact<A>(rs: Seq<Route<A>>, c0: Seq<String>, c: Seq<String>, k: int)
    requires
        crate::graph::unique_route_ids(rs),
        0 <= k < rs.len(),
        c == c0.push(rs[k].id),
        chain_routes(rs, c0),
        chain_closed(rs, c0, Set::empty()),
        expanded(rs, c0, rs[k].from_node@),
        forall|j: int| 0 <= j < c0.len() ==> upstream(rs, route_pos(rs, (#[trigger] c0[j])@), rs[k].from_node@),
    ensures
        chain_exact(rs, c, k),
{
    let f = rs[k].from_node@;
    assert forall|t: int| 0 <= t < rs.len() implies (#[trigger] in_chain(c, rs[t].id@) <==> (t == k || upstream(rs, t, f))) by {
        lemma_route_at(rs, t);
        if in_chain(c, rs[t].id@) {
            let j = choose|j: int| 0 <= j < c.len() && (#[trigger] c[j])@ == rs[t].id@;
            if j < c0.len() {
                assert(c[j] == c0[j]);
                assert(route_pos(rs, c0[j]@) == t);
            } else {
                lemma_route_at(rs, k);
                assert(rs[k].id@ == rs[t].id@);
            }
        }
        if t == k {
            assert(c[c.len() - 1] == rs[k].id);
            assert(in_chain(c, rs[t].id@));
        } else if upstream(rs, t, f) {
            let p = choose|p: Seq<int>| #[trigger] route_path(rs, p, f) && p[0] == t;
            lemma_closed_complete(rs, c0, f, p);
            lemma_in_chain_grow(c0, c, rs[t].id@);
        }
    }
}

/// Append every edge upstream of `node` not yet in `out`, depth first; an
/// edge already there is not followed again. The nodes of `open` are being
/// explored further up.
fn collect_chain<X, A>(g: &Graph<X, A>, node: &str, out: &mut Vec<String>, Ghost(open): Ghost<Set<Seq<char>>>)
    requires
        g.wf(),
        chain_routes(g.route_seq(), old(out)@),
        chain_closed(g.route_seq(), old(out)@, open.insert(node@)),
    ensures
        chain_routes(g.route_seq(), final(out)@),
        final(out)@.len() >= old(out)@.len(),
        forall|j: int| 0 <= j < old(out)@.len() ==> #[trigger] final(out)@[j] == old(out)@[j],
        chain_closed(g.route_seq(), final(out)@, open),
        expanded(g.route_seq(), final(out)@, node@),
        forall|j: int|
            old(out)@.len() <= j < final(out)@.len() ==> upstream(
                g.route_seq(),
                route_pos(g.route_seq(), (#[trigger] final(out)@[j])@),
                node@,
            ),
    decreases g.route_seq().len() - old(out)@.len(),
{
    let ghost rs = g.route_seq();
    let ghost here = open.insert(node@);
    let rs_exec = g.routes();
    let inc = incoming_routes(rs_exec, node);
    let mut i: usize = 0;
    while i < inc.len()
        invariant
            g.wf(),
            rs == g.route_seq(),
            rs_exec@ == rs,
            here == open.insert(node@),
            chain_routes(rs, out@),
            out@.len() >= old(out)@.len(),
            forall|j: int| 0 <= j < old(out)@.len() ==> #[trigger] out@[j] == old(out)@[j],
            forall|j: int| 0 <= j < inc@.len() ==> #[trigger] inc@[j] < rs.len() && rs[inc@[j] as int].to_node@ == node@,
            forall|t: int| 0 <= t < rs.len() && rs[t].to_node@ == node@ ==> inc@.contains(t as usize),
            i <= inc@.len(),
            chain_closed(rs, out@, here),
            forall|q: int| 0 <= q < i ==> #[trigger] in_chain(out@, rs[inc@[q] as int].id@),
            forall|j: int| old(out)@.len() <= j < out@.len() ==> upstream(rs, route_pos(rs, (#[trigger] out@[j])@), node@),
        decreases inc@.len() - i,
    {
        let r = &rs_exec[inc[i]];
        let ghost ri = inc@[i as int] as int;
        proof {
            lemma_route_at(rs, ri);
        }
        if !contains_str(out, r.id.as_str()) {
            let ghost before = out@;
            out.push(r.id.clone());
            proof {
                assert(out@.last()@ == r.id@);
                assert forall|j: int| 0 <= j < out@.len() implies has_route(rs, (#[trigger] out@[j])@) by {
                    if j < before.len() {
                        assert(out@[j] == before[j]);
                    }
                }
                assert forall|a: int, c: int| 0 <= a < c < out@.len() implies (#[trigger] out@[a])@
                    != (#[trigger] out@[c])@ by {
                    assert(out@[a] == before[a]);
                    if c < before.len() {
                        assert(out@[c] == before[c]);
                    }
                }
                lemma_chain_bound(rs, out@);
                let next = here.insert(r.from_node@);
                assert forall|j: int| 0 <= j < out@.len() implies next.contains(rs[route_pos(rs, (#[trigger] out@[j])@)].from_node@)
                    || expanded(rs, out@, rs[route_pos(rs, out@[j]@)].from_node@) by {
                    if j < before.len() {
                        assert(out@[j] == before[j]);
                        if !here.contains(rs[route_pos(rs, before[j]@)].from_node@) {
                            lemma_expanded_grow(rs, before, out@, rs[route_pos(rs, before[j]@)].from_node@);
                        }
                    } else {
                        assert(out@[j]@ == rs[ri].id@);
                    }
                }
                assert(chain_closed(rs, out@, here.insert(r.from_node@)));
                assert forall|q: int| 0 <= q < i implies #[trigger] in_chain(out@, rs[inc@[q] as int].id@) by {
                    lemma_in_chain_grow(before, out@, rs[inc@[q] as int].id@);
                }
                assert forall|j: int| old(out)@.len() <= j < out@.len() implies upstream(rs, route_pos(rs, (#[trigger] out@[j])@), node@) by {
                    if j < before.len() {
                        assert(out@[j] == before[j]);
                    } else {
                        lemma_upstream_base(rs, ri, node@);
                    }
                }
            }
            let ghost mid = out@;
            collect_chain(g, r.from_node.as_str(), out, Ghost(here));
            proof {
                assert(out@[mid.len() - 1] == mid[mid.len() - 1]);
                assert(in_chain(out@, rs[ri].id@));
                assert forall|q: int| 0 <= q < i implies #[trigger] in_chain(out@, rs[inc@[q] as int].id@) by {
                    lemma_in_chain_grow(mid, out@, rs[inc@[q] as int].id@);
                }
                assert forall|j: int| old(out)@.len() <= j < out@.len() implies upstream(rs, route_pos(rs, (#[trigger] out@[j])@), node@) by {
                    if j < mid.len() {
                        assert(out@[j] == mid[j]);
                    } else {
                        lemma_upstream_step(rs, route_pos(rs, out@[j]@), ri, node@);
                    }
                }
            }
        } else {
            proof {
                assert(in_chain(out@, rs[ri].id@));
            }
        }
        i += 1;
    }
    let n_routes = rs_exec.len();
    proof {
        assert(rs.len() == n_routes);
        assert forall|t: int| 0 <= t < rs.len() && rs[t].to_node@ == node@ implies #[trigger] in_chain(out@, rs[t].id@) by {
            assert(inc@.contains(t as usize));
            let q = choose|q: int| 0 <= q < inc@.len() && inc@[q] == t as usize;
            assert(inc@[q] as int == t);
            assert(in_chain(out@, rs[inc@[q] as int].id@));
        }
        assert(expanded(rs, out@, node@));
    }
}

// ── Resolving ──

/// Route `t` arrives at one of the first `n` outputs of `outs`.
pub open spec fn done_output<X, A>(ns: Seq<Node<X>>, rs: Seq<Route<A>>, outs: Seq<usize>, n: int, t: int) -> bool {
    exists|q: int| 0 <= q < n && rs[t].to_node@ == ns[outs[q] as int].id@
}

/// Some sink renders route `e`.
pub open spec fn has_sink_for(sinks: Seq<BusSink>, e: Seq<char>) -> bool {
    exists|j: int| 0 <= j < sinks.len() && (#[trigger] sinks[j]).route_id@ == e
}

/// The node a sink's final route arrives at.
pub open spec fn sink_output<A>(rs: Seq<Route<A>>, s: BusSink) -> Seq<char> {
    rs[route_pos(rs, s.route_id@)].to_node@
}

/// The sinks come by the id of the output they render, and those of one
/// output by the id of their final route.
pub open spec fn sinks_ordered<A>(rs: Seq<Route<A>>, sinks: Seq<BusSink>) -> bool {
    forall|a: int, c: int|
        0 <= a < c < sinks.len() ==> str_lt(sink_output(rs, #[trigger] sinks[a]), sink_output(rs, #[trigger] sinks[c])) || (
        sink_output(rs, sinks[a]) == sink_output(rs, sinks[c]) && str_lt(sinks[a].route_id@, sinks[c].route_id@))
}

proof fn lemma_sink_for_push(s0: Seq<BusSink>, s1: Seq<BusSink>)
    requires
        s1.len() == s0.len() + 1,
        forall|j: int| 0 <= j < s0.len() ==> #[trigger] s1[j] == s0[j],
    ensures
        forall|e: Seq<char>| has_sink_for(s0, e) ==> #[trigger] has_sink_for(s1, e),
{
    assert forall|e: Seq<char>| has_sink_for(s0, e) implies #[trigger] has_sink_for(s1, e) by {
        let j = choose|j: int| 0 <= j < s0.len() && (#[trigger] s0[j]).route_id@ == e;
        assert(s1[j] == s0[j]);
    }
}

/// With unique ids, the node at position `i` is the one its id finds.
proof fn lemma_node_at<X>(ns: Seq<Node<X>>, i: int)
    requires
        crate::graph::unique_node_ids(ns),
        0 <= i < ns.len(),
    ensures
        has_node(ns, ns[i].id@),
        node_pos(ns, ns[i].id@) == i,
{
    assert(ns[i].id@ == ns[i].id@);
    let p = node_pos(ns, ns[i].id@);
    if p != i {
        if p < i {
            assert(ns[p].id@ != ns[i].id@);
        } else {
            assert(ns[i].id@ != ns[p].id@);
        }
    }
}

/// An output the plan renders: an output or virtual node with a device.
pub open spec fn renders<X>(n: Node<X>) -> bool {
    is_output_kind(n.node_type) && n.device_id@.len() > 0
}

/// The positions of the nodes the plan renders, in order.
fn output_nodes<X>(ns: &[Node<X>]) -> (out: Vec<usize>)
    ensures
        forall|j: int| 0 <= j < out@.len() ==> #[trigger] out@[j] < ns@.len() && renders(ns@[out@[j] as int]),
        forall|i: int| 0 <= i < ns@.len() && renders(ns@[i]) ==> out@.contains(i as usize),
        forall|a: int, b: int| 0 <= a < b < out@.len() ==> out@[a] < out@[b],
{
    let mut out: Vec<usize> = Vec::new();
    let mut i: usize = 0;
    while i < ns.len()
        invariant
            i <= ns@.len(),
            forall|j: int| 0 <= j < out@.len() ==> #[trigger] out@[j] < i && renders(ns@[out@[j] as int]),
            forall|x: int| 0 <= x < i && renders(ns@[x]) ==> out@.contains(x as usize),
            forall|a: int, b: int| 0 <= a < b < out@.len() ==> out@[a] < out@[b],
        decreases ns@.len() - i,
    {
        let n = &ns[i];
        if (n.node_type == NodeType::Output || n.node_type == NodeType::Virtual) && n.device_id.unicode_len() > 0 {
            let ghost before = out@;
            out.push(i);
            proof {
                assert(out@[out@.len() - 1] == i);
                assert forall|x: int| 0 <= x < i + 1 && renders(ns@[x]) implies out@.contains(x as usize) by {
                    if x < i {
                        let k = choose|k: int| 0 <= k < before.len() && before[k] == x as usize;
                        assert(out@[k] == x as usize);
                    }
                }
            }
        }
        i += 1;
    }
    out
}

/// Add the sinks of output `ns[o]`: for each route into it, by id, whose
/// source side produces, a sink rendering that side's plan node.
fn sinks_for_output<X: Copy, A>(g: &Graph<X, A>, rkeys: &Vec<&str>, o: usize, b: &mut PlanBuilder<X>, pass: X)
    requires
        g.wf(),
        key_view(rkeys@) == route_ids(g.route_seq()),
        builder_ok(g.node_seq(), g.route_seq(), *old(b), pass),
        old(b).visiting@.len() == 0,
        o < g.node_seq().len(),
        renders(g.node_seq()[o as int]),
        sinks_ordered(g.route_seq(), old(b).sinks@),
        forall|j: int| 0 <= j < old(b).sinks@.len() ==> str_lt(sink_output(g.route_seq(), #[trigger] old(b).sinks@[j]), g.node_seq()[o as int].id@),
        splitters_fed_once(g.node_seq(), g.route_seq()) ==> all_used(old(b).nodes@, old(b).sinks@),
    ensures
        builder_ok(g.node_seq(), g.route_seq(), *final(b), pass),
        splitters_fed_once(g.node_seq(), g.route_seq()) ==> all_used(final(b).nodes@, final(b).sinks@),
        final(b).visiting@.len() == 0,
        sinks_ordered(g.route_seq(), final(b).sinks@),
        forall|j: int| old(b).sinks@.len() <= j < final(b).sinks@.len() ==> sink_output(g.route_seq(), #[trigger] final(b).sinks@[j]) == g.node_seq()[o as int].id@,
        final(b).sinks@.len() >= old(b).sinks@.len(),
        forall|j: int| 0 <= j < old(b).sinks@.len() ==> #[trigger] final(b).sinks@[j] == old(b).sinks@[j],
        forall|e: Seq<char>| has_sink_for(old(b).sinks@, e) ==> #[trigger] has_sink_for(final(b).sinks@, e),
        acyclic(g.node_seq(), g.route_seq()) && sum_free(g.node_seq()) ==> forall|t: int|
            0 <= t < g.route_seq().len() && g.route_seq()[t].to_node@ == g.node_seq()[o as int].id@ && #[trigger] produces(
                g.node_seq(),
                g.route_seq(),
                g.route_seq()[t].from_node@,
            ) ==> has_sink_for(final(b).sinks@, g.route_seq()[t].id@),
{
    let ghost ns = g.node_seq();
    let ghost rs = g.route_seq();
    let ghost full = acyclic(ns, rs) && sum_free(ns);
    let ghost sinks0 = b.sinks@;
    let ns_exec = g.nodes();
    let rs_exec = g.routes();
    let nr = rs_exec.len();
    let out = &ns_exec[o];
    let inc = incoming_routes(rs_exec, out.id.as_str());
    proof {
        assert(key_view(rkeys@).len() == rkeys@.len());
        assert(route_ids(rs).len() == rs.len());
        assert forall|a: int, c: int| 0 <= a < c < inc@.len() implies key_view(rkeys@)[inc@[a] as int]
            != key_view(rkeys@)[inc@[c] as int] by {
            assert(route_ids(rs)[inc@[a] as int] == rs[inc@[a] as int].id@);
            assert(route_ids(rs)[inc@[c] as int] == rs[inc@[c] as int].id@);
        }
    }
    let sorted = sort_by_keys(rkeys, inc);
    proof {
        assert forall|j: int| 0 <= j < sorted@.len() implies #[trigger] sorted@[j] < rs.len()
            && rs[sorted@[j] as int].to_node@ == out.id@ by {
            assert(sorted@.contains(sorted@[j]));
            let q = choose|q: int| 0 <= q < inc@.len() && inc@[q] == sorted@[j];
        }
        lemma_node_at(ns, o as int);
        assert forall|t: int| 0 <= t < rs.len() && rs[t].to_node@ == out.id@ implies sorted@.contains(t as usize) by {
            assert(inc@.contains(t as usize));
        }
        assert forall|a: int, c: int| 0 <= a < c < sorted@.len() implies str_lt(rs[#[trigger] sorted@[a] as int].id@, rs[#[trigger] sorted@[c] as int].id@) by {
            assert(route_ids(rs)[sorted@[a] as int] == rs[sorted@[a] as int].id@);
            assert(route_ids(rs)[sorted@[c] as int] == rs[sorted@[c] as int].id@);
        }
    }
    let to_mic = is_nodus_virtual_mic_name(out.label.as_str());
    let mut ri: usize = 0;
    while ri < sorted.len()
        invariant
            g.wf(),
            ns == g.node_seq(),
            rs == g.route_seq(),
            ns_exec@ == ns,
            rs_exec@ == rs,
            nr == rs.len(),
            key_view(rkeys@) == route_ids(rs),
            builder_ok(ns, rs, *b, pass),
            b.visiting@.len() == 0,
            o < ns.len(),
            *out == ns[o as int],
            renders(*out),
            has_node(ns, out.id@),
            node_pos(ns, out.id@) == o,
            to_mic == nodus_mic_marker(lowercase_of(out.label@)),
            ri <= sorted@.len(),
            forall|j: int| 0 <= j < sorted@.len() ==> #[trigger] sorted@[j] < rs.len() && rs[sorted@[j] as int].to_node@ == out.id@,
            full == (acyclic(ns, rs) && sum_free(ns)),
            forall|t: int| 0 <= t < rs.len() && rs[t].to_node@ == out.id@ ==> sorted@.contains(t as usize),
            b.sinks@.len() >= sinks0.len(),
            forall|j: int| 0 <= j < sinks0.len() ==> #[trigger] b.sinks@[j] == sinks0[j],
            full ==> forall|q: int|
                0 <= q < ri && #[trigger] produces(ns, rs, rs[sorted@[q] as int].from_node@) ==> has_sink_for(
                    b.sinks@,
                    rs[sorted@[q] as int].id@,
                ),
            forall|a: int, c: int| 0 <= a < c < sorted@.len() ==> str_lt(rs[#[trigger] sorted@[a] as int].id@, rs[#[trigger] sorted@[c] as int].id@),
            sinks_ordered(rs, b.sinks@),
            forall|j: int| 0 <= j < sinks0.len() ==> str_lt(sink_output(rs, #[trigger] sinks0[j]), out.id@),
            forall|j: int| sinks0.len() <= j < b.sinks@.len() ==> sink_output(rs, #[trigger] b.sinks@[j]) == out.id@
                && exists|q: int| 0 <= q < ri && b.sinks@[j].route_id@ == rs[sorted@[q] as int].id@,
            splitters_fed_once(ns, rs) ==> all_used(b.nodes@, b.sinks@),
        decreases sorted@.len() - ri,
    {
        let r_idx = sorted[ri];
        let route = &rs_exec[r_idx];
        proof {
            assert(has_node(ns, rs[r_idx as int].from_node@));
        }
        let ghost nb = b.nodes@;
        let ghost sb = b.sinks@;
        let res = build_node(g, rkeys, route.from_node.as_str(), b, pass);
        match res {
            Some(from) => {
                let mut chain: Vec<String> = Vec::new();
                collect_chain(g, route.from_node.as_str(), &mut chain, Ghost(Set::empty()));
                let ghost c0 = chain@;
                chain.push(route.id.clone());
                let sink = BusSink {
                    input: from,
                    route_id: route.id.clone(),
                    chain,
                    to_device_id: out.device_id.clone(),
                    to_is_virtual_mic: to_mic,
                };
                proof {
                    lemma_route_at(rs, r_idx as int);
                    assert forall|j: int| 0 <= j < sink.chain@.len() implies has_route(rs, (#[trigger] sink.chain@[j])@) by {
                        if j < c0.len() {
                            assert(sink.chain@[j] == c0[j]);
                        }
                    }
                    lemma_sink_chain_exact(rs, c0, sink.chain@, r_idx as int);
                    assert(sink_ok(ns, rs, b.nodes@, sink));
                }
                let ghost sk0 = b.sinks@;
                b.sinks.push(sink);
                proof {
                    assert forall|j: int| 0 <= j < b.sinks@.len() implies sink_ok(ns, rs, b.nodes@, #[trigger] b.sinks@[j]) by {
                        if j == b.sinks@.len() - 1 {
                            assert(b.sinks@[j] == sink);
                        }
                    }
                    lemma_sink_for_push(sk0, b.sinks@);
                    assert(b.sinks@[b.sinks@.len() - 1] == sink);
                    if splitters_fed_once(ns, rs) {
                        assert(b.sinks@[b.sinks@.len() - 1].input == from);
                        assert(rendered::<X>(b.sinks@, from as int));
                        lemma_used_after_build(nb, b.nodes@, sb, b.sinks@, res);
                    }
                    assert(has_sink_for(b.sinks@, rs[sorted@[ri as int] as int].id@));
                    assert(sink_output(rs, sink) == out.id@);
                    assert forall|j: int| sinks0.len() <= j < b.sinks@.len() implies sink_output(rs, #[trigger] b.sinks@[j]) == out.id@
                        && exists|q: int| 0 <= q < ri + 1 && b.sinks@[j].route_id@ == rs[sorted@[q] as int].id@ by {
                        if j < sk0.len() {
                            assert(b.sinks@[j] == sk0[j]);
                            let q = choose|q: int| 0 <= q < ri && sk0[j].route_id@ == rs[sorted@[q] as int].id@;
                            assert(b.sinks@[j].route_id@ == rs[sorted@[q] as int].id@);
                        } else {
                            assert(b.sinks@[j] == sink);
                            assert(b.sinks@[j].route_id@ == rs[sorted@[ri as int] as int].id@);
                        }
                    }
                    assert forall|a: int, c: int| 0 <= a < c < b.sinks@.len() implies str_lt(sink_output(rs, #[trigger] b.sinks@[a]), sink_output(rs, #[trigger] b.sinks@[c])) || (
                        sink_output(rs, b.sinks@[a]) == sink_output(rs, b.sinks@[c]) && str_lt(b.sinks@[a].route_id@, b.sinks@[c].route_id@)) by {
                        assert(b.sinks@[a] == sk0[a]);
                        if c < sk0.len() {
                            assert(b.sinks@[c] == sk0[c]);
                        } else {
                            assert(b.sinks@[c] == sink);
                            if a < sinks0.len() {
                                assert(sk0[a] == sinks0[a]);
                            } else {
                                let q = choose|q: int| 0 <= q < ri && sk0[a].route_id@ == rs[sorted@[q] as int].id@;
                                assert(str_lt(rs[sorted@[q] as int].id@, rs[sorted@[ri as int] as int].id@));
                            }
                        }
                    }
                }
            },
            None => {
                proof {
                    if splitters_fed_once(ns, rs) {
                        lemma_used_after_build(nb, b.nodes@, sb, b.sinks@, res);
                    }
                }
            },
        }
        ri += 1;
    }
    proof {
        assert forall|e: Seq<char>| has_sink_for(sinks0, e) implies #[trigger] has_sink_for(b.sinks@, e) by {
            let j = choose|j: int| 0 <= j < sinks0.len() && (#[trigger] sinks0[j]).route_id@ == e;
            assert(b.sinks@[j] == sinks0[j]);
        }
        if full {
            assert forall|t: int|
                0 <= t < rs.len() && rs[t].to_node@ == ns[o as int].id@ && #[trigger] produces(ns, rs, rs[t].from_node@)
                    implies has_sink_for(b.sinks@, rs[t].id@) by {
                assert(sorted@.contains(t as usize));
                let qq = choose|qq: int| 0 <= qq < sorted@.len() && sorted@[qq] == t as usize;
                assert(sorted@[qq] as int == t);
                assert(produces(ns, rs, rs[sorted@[qq] as int].from_node@));
            }
        }
    }
}

impl<X: Copy, A> Graph<X, A> {
    /// Resolve the graph into an execution plan in which every node exists
    /// once: outputs by id, the routes into each by id, each source side
    /// built (or reused) from the output backwards. `passthrough` stands in
    /// for the settings of an effect not configured yet.
    pub fn resolve_bus_plan(&self, passthrough: X) -> (plan: BusPlan<X>)
        requires
            self.wf(),
        ensures
            plan_sound(self.node_seq(), self.route_seq(), plan.nodes@, passthrough),
            forall|j: int| 0 <= j < plan.sinks@.len() ==> sink_ok(self.node_seq(), self.route_seq(), plan.nodes@, #[trigger] plan.sinks@[j]),
            sums_clear(self.node_seq(), self.route_seq()) ==> ids_distinct(plan.nodes@),
            acyclic(self.node_seq(), self.route_seq()) && sum_free(self.node_seq()) ==> builder_complete(
                self.node_seq(),
                self.route_seq(),
                plan.nodes@,
            ),
            acyclic(self.node_seq(), self.route_seq()) && sum_free(self.node_seq()) ==> forall|t: int|
                0 <= t < self.route_seq().len() && renders(node_of(self.node_seq(), self.route_seq()[t].to_node@))
                    && #[trigger] produces(self.node_seq(), self.route_seq(), self.route_seq()[t].from_node@)
                    ==> has_sink_for(plan.sinks@, self.route_seq()[t].id@),
            sinks_ordered(self.route_seq(), plan.sinks@),
            splitters_fed_once(self.node_seq(), self.route_seq()) ==> forall|k: int|
                0 <= k < plan.nodes@.len() ==> #[trigger] readers(plan.nodes@, k) + sinks_of(plan.sinks@, k) > 0,
            sums_clear(self.node_seq(), self.route_seq()) ==> forall|j: int| 0 <= j < plan.sinks@.len() ==> #[trigger] produces(
                self.node_seq(),
                self.route_seq(),
                self.route_seq()[route_pos(self.route_seq(), plan.sinks@[j].route_id@)].from_node@,
            ),
    {
        let ghost ns = self.node_seq();
        let ghost rs = self.route_seq();
        let ns_exec = self.nodes();
        let rs_exec = self.routes();
        let nn = ns_exec.len();
        let nkeys = node_keys(ns_exec);
        let rkeys = route_keys(rs_exec);
        let outs = output_nodes(ns_exec);
        proof {
            assert(key_view(nkeys@).len() == nkeys@.len());
            assert(node_ids(ns).len() == ns.len());
            assert(key_view(rkeys@).len() == rkeys@.len());
            assert(route_ids(rs).len() == rs.len());
            assert forall|a: int, c: int| 0 <= a < c < outs@.len() implies key_view(nkeys@)[outs@[a] as int]
                != key_view(nkeys@)[outs@[c] as int] by {
                assert(node_ids(ns)[outs@[a] as int] == ns[outs@[a] as int].id@);
                assert(node_ids(ns)[outs@[c] as int] == ns[outs@[c] as int].id@);
            }
        }
        let sorted_outs = sort_by_keys(&nkeys, outs);
        proof {
            assert forall|j: int| 0 <= j < sorted_outs@.len() implies #[trigger] sorted_outs@[j] < ns.len()
                && renders(ns[sorted_outs@[j] as int]) by {
                assert(sorted_outs@.contains(sorted_outs@[j]));
                let q = choose|q: int| 0 <= q < outs@.len() && outs@[q] == sorted_outs@[j];
            }
            assert forall|a: int, c: int| 0 <= a < c < sorted_outs@.len() implies str_lt(ns[#[trigger] sorted_outs@[a] as int].id@, ns[#[trigger] sorted_outs@[c] as int].id@) by {
                assert(node_ids(ns)[sorted_outs@[a] as int] == ns[sorted_outs@[a] as int].id@);
                assert(node_ids(ns)[sorted_outs@[c] as int] == ns[sorted_outs@[c] as int].id@);
            }
        }
        let mut b = PlanBuilder { nodes: Vec::new(), sinks: Vec::new(), built: Vec::new(), visiting: Vec::new() };
        let ghost full = acyclic(ns, rs) && sum_free(ns);
        proof {
            reveal(builder_unique);
            reveal(builder_complete);
            assert forall|x: usize| 0 <= x < ns.len() && renders(ns[x as int]) implies sorted_outs@.contains(x) by {
                assert(outs@.contains(x));
            }
        }
        let mut oi: usize = 0;
        while oi < sorted_outs.len()
            invariant
                self.wf(),
                ns == self.node_seq(),
                rs == self.route_seq(),
                ns_exec@ == ns,
                rs_exec@ == rs,
                key_view(rkeys@) == route_ids(rs),
                rkeys@.len() == rs.len(),
                builder_ok(ns, rs, b, passthrough),
                b.visiting@.len() == 0,
                oi <= sorted_outs@.len(),
                forall|j: int| 0 <= j < sorted_outs@.len() ==> #[trigger] sorted_outs@[j] < ns.len() && renders(ns[sorted_outs@[j] as int]),
                forall|x: usize| 0 <= x < ns.len() && renders(ns[x as int]) ==> sorted_outs@.contains(x),
                full == (acyclic(ns, rs) && sum_free(ns)),
                nn == ns.len(),
                full ==> forall|t: int|
                    0 <= t < rs.len() && done_output(ns, rs, sorted_outs@, oi as int, t) && #[trigger] produces(
                        ns,
                        rs,
                        rs[t].from_node@,
                    ) ==> has_sink_for(b.sinks@, rs[t].id@),
                forall|a: int, c: int| 0 <= a < c < sorted_outs@.len() ==> str_lt(ns[#[trigger] sorted_outs@[a] as int].id@, ns[#[trigger] sorted_outs@[c] as int].id@),
                sinks_ordered(rs, b.sinks@),
                forall|j: int| 0 <= j < b.sinks@.len() ==> exists|q: int| 0 <= q < oi && sink_output(rs, #[trigger] b.sinks@[j]) == ns[sorted_outs@[q] as int].id@,
                splitters_fed_once(ns, rs) ==> all_used(b.nodes@, b.sinks@),
            decreases sorted_outs@.len() - oi,
        {
            let o = sorted_outs[oi];
            let ghost sk0 = b.sinks@;
            proof {
                assert forall|j: int| 0 <= j < b.sinks@.len() implies str_lt(sink_output(rs, #[trigger] b.sinks@[j]), ns[o as int].id@) by {
                    let q = choose|q: int| 0 <= q < oi && sink_output(rs, b.sinks@[j]) == ns[sorted_outs@[q] as int].id@;
                    assert(str_lt(ns[sorted_outs@[q] as int].id@, ns[sorted_outs@[oi as int] as int].id@));
                }
            }
            sinks_for_output(self, &rkeys, o, &mut b, passthrough);
            proof {
                assert forall|j: int| 0 <= j < b.sinks@.len() implies exists|q: int| 0 <= q < oi + 1 && sink_output(rs, #[trigger] b.sinks@[j]) == ns[sorted_outs@[q] as int].id@ by {
                    if j < sk0.len() {
                        assert(b.sinks@[j] == sk0[j]);
                        let q = choose|q: int| 0 <= q < oi && sink_output(rs, sk0[j]) == ns[sorted_outs@[q] as int].id@;
                        assert(sink_output(rs, b.sinks@[j]) == ns[sorted_outs@[q] as int].id@);
                    } else {
                        assert(sink_output(rs, b.sinks@[j]) == ns[sorted_outs@[oi as int] as int].id@);
                    }
                }
            }
            proof {
                if full {
                    assert forall|t: int|
                        0 <= t < rs.len() && done_output(ns, rs, sorted_outs@, oi + 1, t) && #[trigger] produces(
                            ns,
                            rs,
                            rs[t].from_node@,
                        ) implies has_sink_for(b.sinks@, rs[t].id@) by {
                        let q = choose|q: int| 0 <= q < oi + 1 && rs[t].to_node@ == ns[sorted_outs@[q] as int].id@;
                        if q != oi {
                            assert(done_output(ns, rs, sorted_outs@, oi as int, t));
                            assert(has_sink_for(sk0, rs[t].id@));
                        }
                    }
                }
            }
            oi += 1;
        }
        proof {
            reveal(builder_unique);
            if full {
                assert forall|t: int|
                    0 <= t < rs.len() && renders(node_of(ns, rs[t].to_node@)) && #[trigger] produces(ns, rs, rs[t].from_node@)
                        implies has_sink_for(b.sinks@, rs[t].id@) by {
                    assert(has_node(ns, rs[t].to_node@));
                    let o = node_pos(ns, rs[t].to_node@);
                    assert(ns[o].id@ == rs[t].to_node@);
                    assert(ns_exec@.len() == nn);
                    assert(sorted_outs@.contains(o as usize));
                    let q = choose|q: int| 0 <= q < sorted_outs@.len() && sorted_outs@[q] == o as usize;
                    assert(sorted_outs@[q] as int == o);
                    assert(done_output(ns, rs, sorted_outs@, sorted_outs@.len() as int, t));
                }
            }
        }
        proof {
            if sums_clear(ns, rs) {
                lemma_sinks_produce(ns, rs, b.nodes@, b.sinks@, passthrough);
            }
            if splitters_fed_once(ns, rs) {
                assert forall|k: int| 0 <= k < b.nodes@.len() implies #[trigger] readers(b.nodes@, k) + sinks_of(b.sinks@, k) > 0 by {
                    if read_by(b.nodes@, k) {
                        lemma_readers_positive(b.nodes@, k);
                    } else {
                        lemma_sinks_positive::<X>(b.sinks@, k);
                    }
                }
            }
        }
        BusPlan { nodes: b.nodes, sinks: b.sinks }
    }
}

} // verus!
