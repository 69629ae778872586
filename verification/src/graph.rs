//! The routing graph: nodes (sources, outputs, hubs, effects) and the
//! directed routes between them, kept free of dangling and duplicate
//! routes and, when replaced from a snapshot, free of cycles.
//!
//! A node carries its effect settings as `X` and a route its audio
//! parameters (volume, balance) as `A`: the graph's rules never read them,
//! they only travel with the node or route they belong to.

use vstd::prelude::*;

use crate::text::{lowercase_of, opt_view, str_eq};
use crate::virtual_device::{
    is_nodus_virtual_mic_name, is_nodus_virtual_name, nodus_marker, nodus_mic_marker,
};

verus! {

/// What a node is.
#[derive(Debug, Clone, Copy, PartialEq, Eq, Structural)]
pub enum NodeType {
    Source,
    Output,
    Splitter,
    Mixer,
    Virtual,
    /// An effect on the route: passes audio through, applying DSP.
    Fx,
}

/// Which effect an Fx node applies.
#[derive(Debug, Clone, Copy, PartialEq, Eq, Structural)]
pub enum FxKind {
    Gain,
    Gate,
    Eq,
    Limiter,
    Compressor,
}

/// A node of the graph.
#[derive(Debug, Clone)]
pub struct Node<X> {
    pub id: String,
    pub node_type: NodeType,
    /// Human-readable label ("Arma 3", "Headphones").
    pub label: String,
    /// System endpoint id (empty for hubs, effects and app sources).
    pub device_id: String,
    /// Exe name of an app source ("spotify.exe").
    pub exe_name: Option<String>,
    /// Effect settings, on Fx nodes.
    pub fx: Option<X>,
}

/// A directed route from one node to another.
#[derive(Debug, Clone)]
pub struct Route<A> {
    pub id: String,
    pub from_node: String,
    pub to_node: String,
    pub muted: bool,
    /// Volume and balance.
    pub params: A,
}

/// A whole graph as the UI sends it.
#[derive(Debug, Clone)]
pub struct RoutingGraph<X, A> {
    pub nodes: Vec<Node<X>>,
    pub routes: Vec<Route<A>>,
}

/// Why a graph operation was refused.
#[derive(Debug)]
pub enum GraphError {
    NodeNotFound(String),
    RouteNotFound(String),
    DuplicateRoute { from: String, to: String },
    CycleDetected,
}

impl GraphError {
    /// The error as a user reads it.
    pub open spec fn spec_message(&self) -> Seq<char> {
        match self {
            GraphError::NodeNotFound(id) => "node '"@ + id@ + "' not found"@,
            GraphError::RouteNotFound(id) => "route '"@ + id@ + "' not found"@,
            GraphError::DuplicateRoute { from, to } => "duplicate route from '"@ + from@ + "' to '"@ + to@ + "'"@,
            GraphError::CycleDetected => "routing cycle detected"@,
        }
    }

    /// The error as a user reads it.
    pub fn message(&self) -> (s: String)
        ensures
            s@ == self.spec_message(),
    {
        match self {
            GraphError::NodeNotFound(id) => {
                let mut s = String::from_str("node '");
                s.append(id.as_str());
                s.append("' not found");
                s
            },
            GraphError::RouteNotFound(id) => {
                let mut s = String::from_str("route '");
                s.append(id.as_str());
                s.append("' not found");
                s
            },
            GraphError::DuplicateRoute { from, to } => {
                let mut s = String::from_str("duplicate route from '");
                s.append(from.as_str());
                s.append("' to '");
                s.append(to.as_str());
                s.append("'");
                s
            },
            GraphError::CycleDetected => String::from_str("routing cycle detected"),
        }
    }
}

/// A lower-case hexadecimal digit.
pub open spec fn is_lower_hex(c: char) -> bool {
    ('0' <= c && c <= '9') || ('a' <= c && c <= 'f')
}

/// The text form of a random (version 4, RFC 4122 variant) UUID: 36
/// characters, hyphens after the 8th, 12th, 16th and 20th hex digit, the
/// version digit `4`, the variant digit one of `8`, `9`, `a`, `b`, and
/// lower-case hex digits elsewhere.
pub open spec fn is_v4_uuid_text(s: Seq<char>) -> bool {
    &&& s.len() == 36
    &&& forall|i: int| 0 <= i < 36 ==> (if i == 8 || i == 13 || i == 18 || i == 23 {
        s[i] == '-'
    } else {
        is_lower_hex(#[trigger] s[i])
    })
    &&& s[14] == '4'
    &&& (s[19] == '8' || s[19] == '9' || s[19] == 'a' || s[19] == 'b')
}

/// `uuid::Uuid::new_v4` in its `to_string` form: random, so nothing says
/// which; every outcome has the hyphenated lower-case shape of a version 4
/// UUID.
#[verifier::external_body]
pub(crate) fn new_uuid() -> (s: String)
    ensures
        is_v4_uuid_text(s@),
{
    uuid::Uuid::new_v4().to_string()
}

impl<X> Node<X> {
    /// A node of the given type and label on the given device, under a fresh
    /// random id, with no exe and no effect.
    pub fn new(node_type: NodeType, label: String, device_id: String) -> (n: Self)
        ensures
            n.node_type == node_type,
            n.label == label,
            n.device_id == device_id,
            n.exe_name is None,
            n.fx is None,
            is_v4_uuid_text(n.id@),
    {
        Node { id: new_uuid(), node_type, label, device_id, exe_name: None, fx: None }
    }
}

impl<A> Route<A> {
    /// An unmuted route from `from_node` to `to_node` under a fresh random
    /// id, with the given volume and balance.
    pub fn new(from_node: String, to_node: String, params: A) -> (r: Self)
        ensures
            r.from_node == from_node,
            r.to_node == to_node,
            !r.muted,
            r.params == params,
            is_v4_uuid_text(r.id@),
    {
        Route { id: new_uuid(), from_node, to_node, muted: false, params }
    }
}

// ── Model ───────────────────────────────────────────────────────────────────

/// Some node has id `id`.
pub open spec fn has_node<X>(ns: Seq<Node<X>>, id: Seq<char>) -> bool {
    exists|i: int| 0 <= i < ns.len() && (#[trigger] ns[i]).id@ == id
}

/// Some route has id `id`.
pub open spec fn has_route<A>(rs: Seq<Route<A>>, id: Seq<char>) -> bool {
    exists|i: int| 0 <= i < rs.len() && (#[trigger] rs[i]).id@ == id
}

/// Some route goes from `from` to `to`.
pub open spec fn has_pair<A>(rs: Seq<Route<A>>, from: Seq<char>, to: Seq<char>) -> bool {
    exists|i: int| 0 <= i < rs.len() && (#[trigger] rs[i]).from_node@ == from && rs[i].to_node@ == to
}

/// The position of the node with id `id` (meaningful when there is one).
pub open spec fn node_pos<X>(ns: Seq<Node<X>>, id: Seq<char>) -> int {
    choose|i: int| 0 <= i < ns.len() && (#[trigger] ns[i]).id@ == id
}

/// The position of the route with id `id` (meaningful when there is one).
pub open spec fn route_pos<A>(rs: Seq<Route<A>>, id: Seq<char>) -> int {
    choose|i: int| 0 <= i < rs.len() && (#[trigger] rs[i]).id@ == id
}

/// No two nodes share an id.
pub open spec fn unique_node_ids<X>(ns: Seq<Node<X>>) -> bool {
    forall|i: int, j: int| 0 <= i < j < ns.len() ==> (#[trigger] ns[i]).id@ != (#[trigger] ns[j]).id@
}

/// No two routes share an id.
pub open spec fn unique_route_ids<A>(rs: Seq<Route<A>>) -> bool {
    forall|i: int, j: int| 0 <= i < j < rs.len() ==> (#[trigger] rs[i]).id@ != (#[trigger] rs[j]).id@
}

/// No two routes join the same two nodes in the same direction.
pub open spec fn unique_pairs<A>(rs: Seq<Route<A>>) -> bool {
    forall|i: int, j: int|
        0 <= i < j < rs.len() ==> !((#[trigger] rs[i]).from_node@ == (#[trigger] rs[j]).from_node@
            && rs[i].to_node@ == rs[j].to_node@)
}

/// Every route joins two nodes of the graph.
pub open spec fn no_dangling<X, A>(ns: Seq<Node<X>>, rs: Seq<Route<A>>) -> bool {
    forall|i: int|
        0 <= i < rs.len() ==> has_node(ns, (#[trigger] rs[i]).from_node@) && has_node(ns, rs[i].to_node@)
}

/// The graph's invariant: unique node and route ids, no dangling route, no
/// duplicate route.
pub open spec fn graph_wf<X, A>(ns: Seq<Node<X>>, rs: Seq<Route<A>>) -> bool {
    &&& unique_node_ids(ns)
    &&& unique_route_ids(rs)
    &&& unique_pairs(rs)
    &&& no_dangling(ns, rs)
}

/// `rs` with `r` added: a route with the same id is replaced in place,
/// otherwise `r` goes last.
pub open spec fn insert_route<A>(rs: Seq<Route<A>>, r: Route<A>) -> Seq<Route<A>> {
    if has_route(rs, r.id@) {
        rs.update(route_pos(rs, r.id@), r)
    } else {
        rs.push(r)
    }
}

/// A route touches node `id` at either end.
pub open spec fn touches<A>(r: Route<A>, id: Seq<char>) -> bool {
    r.from_node@ == id || r.to_node@ == id
}

/// `rs` without the routes touching node `id`, in order.
pub open spec fn without_node<A>(rs: Seq<Route<A>>, id: Seq<char>) -> Seq<Route<A>>
    decreases rs.len(),
{
    if rs.len() == 0 {
        Seq::empty()
    } else {
        let rest = without_node(rs.drop_last(), id);
        if touches(rs.last(), id) {
            rest
        } else {
            rest.push(rs.last())
        }
    }
}

/// The routes of `rs` leaving node `id`, in order.
pub open spec fn routes_leaving<A>(rs: Seq<Route<A>>, id: Seq<char>) -> Seq<Route<A>>
    decreases rs.len(),
{
    if rs.len() == 0 {
        Seq::empty()
    } else {
        let rest = routes_leaving(rs.drop_last(), id);
        if rs.last().from_node@ == id {
            rest.push(rs.last())
        } else {
            rest
        }
    }
}

/// The routes of `rs` arriving at node `id`, in order.
pub open spec fn routes_arriving<A>(rs: Seq<Route<A>>, id: Seq<char>) -> Seq<Route<A>>
    decreases rs.len(),
{
    if rs.len() == 0 {
        Seq::empty()
    } else {
        let rest = routes_arriving(rs.drop_last(), id);
        if rs.last().to_node@ == id {
            rest.push(rs.last())
        } else {
            rest
        }
    }
}

/// The nodes of `ns` no route of `rs` arrives at, in order.
pub open spec fn unfed_nodes<X, A>(ns: Seq<Node<X>>, rs: Seq<Route<A>>) -> Seq<Node<X>>
    decreases ns.len(),
{
    if ns.len() == 0 {
        Seq::empty()
    } else {
        let rest = unfed_nodes(ns.drop_last(), rs);
        if exists|i: int| 0 <= i < rs.len() && (#[trigger] rs[i]).to_node@ == ns.last().id@ {
            rest
        } else {
            rest.push(ns.last())
        }
    }
}

proof fn lemma_without_node_sub<A>(rs: Seq<Route<A>>, id: Seq<char>)
    ensures
        forall|i: int|
            0 <= i < without_node(rs, id).len() ==> !touches(#[trigger] without_node(rs, id)[i], id)
                && exists|j: int| 0 <= j < rs.len() && rs[j] == without_node(rs, id)[i],
        without_node(rs, id).len() <= rs.len(),
    decreases rs.len(),
{
    if rs.len() > 0 {
        lemma_without_node_sub(rs.drop_last(), id);
        let rest = without_node(rs.drop_last(), id);
        assert forall|i: int| 0 <= i < without_node(rs, id).len() implies !touches(
            #[trigger] without_node(rs, id)[i],
            id,
        ) && exists|j: int| 0 <= j < rs.len() && rs[j] == without_node(rs, id)[i] by {
            if i < rest.len() {
                let j = choose|j: int| 0 <= j < rs.drop_last().len() && rs.drop_last()[j] == rest[i];
                assert(rs[j] == without_node(rs, id)[i]);
            } else {
                assert(rs[rs.len() - 1] == without_node(rs, id)[i]);
            }
        }
    }
}

proof fn lemma_without_node_order<A>(rs: Seq<Route<A>>, id: Seq<char>)
    ensures
        forall|a: int, b: int|
            0 <= a < b < without_node(rs, id).len() ==> exists|ja: int, jb: int|
                0 <= ja < jb < rs.len() && rs[ja] == #[trigger] without_node(rs, id)[a] && rs[jb]
                    == #[trigger] without_node(rs, id)[b],
    decreases rs.len(),
{
    if rs.len() > 0 {
        lemma_without_node_order(rs.drop_last(), id);
        lemma_without_node_sub(rs.drop_last(), id);
        let rest = without_node(rs.drop_last(), id);
        assert forall|a: int, b: int| 0 <= a < b < without_node(rs, id).len() implies exists|
            ja: int,
            jb: int,
        |
            0 <= ja < jb < rs.len() && rs[ja] == #[trigger] without_node(rs, id)[a] && rs[jb]
                == #[trigger] without_node(rs, id)[b] by {
            if b < rest.len() {
                let (ja, jb) = choose|ja: int, jb: int|
                    0 <= ja < jb < rs.drop_last().len() && rs.drop_last()[ja] == rest[a]
                        && rs.drop_last()[jb] == rest[b];
                assert(rs[ja] == without_node(rs, id)[a] && rs[jb] == without_node(rs, id)[b]);
            } else {
                let ja = choose|ja: int| 0 <= ja < rs.drop_last().len() && rs.drop_last()[ja] == rest[a];
                assert(rs[ja] == without_node(rs, id)[a]);
                assert(rs[rs.len() - 1] == without_node(rs, id)[b]);
            }
        }
    }
}

/// The in-memory routing graph.
pub struct Graph<X, A> {
    nodes: Vec<Node<X>>,
    routes: Vec<Route<A>>,
}

impl<X, A> Graph<X, A> {
    /// The nodes, in the order they were added.
    pub closed spec fn node_seq(&self) -> Seq<Node<X>> {
        self.nodes@
    }

    /// The routes, in the order they were added.
    pub closed spec fn route_seq(&self) -> Seq<Route<A>> {
        self.routes@
    }

    /// The graph's invariant holds.
    pub open spec fn wf(&self) -> bool {
        graph_wf(self.node_seq(), self.route_seq())
    }

    /// An empty graph.
    pub fn new() -> (g: Self)
        ensures
            g.wf(),
            g.node_seq().len() == 0,
            g.route_seq().len() == 0,
    {
        Graph { nodes: Vec::new(), routes: Vec::new() }
    }

    /// The position of the node with id `id`.
    fn find_node(&self, id: &str) -> (r: Option<usize>)
        requires
            unique_node_ids(self.nodes@),
        ensures
            match r {
                Some(i) => i < self.nodes@.len() && self.nodes@[i as int].id@ == id@ && node_pos(
                    self.nodes@,
                    id@,
                ) == i,
                None => !has_node(self.nodes@, id@),
            },
    {
        let mut i: usize = 0;
        while i < self.nodes.len()
            invariant
                i <= self.nodes@.len(),
                unique_node_ids(self.nodes@),
                forall|j: int| 0 <= j < i ==> (#[trigger] self.nodes@[j]).id@ != id@,
            decreases self.nodes@.len() - i,
        {
            if str_eq(self.nodes[i].id.as_str(), id) {
                proof {
                    let p = node_pos(self.nodes@, id@);
                    assert(self.nodes@[i as int].id@ == id@);
                    if p != i {
                        assert(self.nodes@[p].id@ == id@);
                    }
                }
                return Some(i);
            }
            i += 1;
        }
        None
    }

    /// The position of the route with id `id`.
    fn find_route(&self, id: &str) -> (r: Option<usize>)
        requires
            unique_route_ids(self.routes@),
        ensures
            match r {
                Some(i) => i < self.routes@.len() && self.routes@[i as int].id@ == id@ && route_pos(
                    self.routes@,
                    id@,
                ) == i,
                None => !has_route(self.routes@, id@),
            },
    {
        let mut i: usize = 0;
        while i < self.routes.len()
            invariant
                i <= self.routes@.len(),
                unique_route_ids(self.routes@),
                forall|j: int| 0 <= j < i ==> (#[trigger] self.routes@[j]).id@ != id@,
            decreases self.routes@.len() - i,
        {
            if str_eq(self.routes[i].id.as_str(), id) {
                proof {
                    let p = route_pos(self.routes@, id@);
                    assert(self.routes@[i as int].id@ == id@);
                    if p != i {
                        assert(self.routes@[p].id@ == id@);
                    }
                }
                return Some(i);
            }
            i += 1;
        }
        None
    }

    /// The node with id `id`, if any.
    pub fn get_node(&self, id: &str) -> (r: Option<&Node<X>>)
        requires
            self.wf(),
        ensures
            match r {
                Some(n) => has_node(self.node_seq(), id@) && *n == self.node_seq()[node_pos(
                    self.node_seq(),
                    id@,
                )],
                None => !has_node(self.node_seq(), id@),
            },
    {
        match self.find_node(id) {
            Some(i) => Some(&self.nodes[i]),
            None => None,
        }
    }

    /// The route with id `id`, if any.
    pub fn get_route(&self, id: &str) -> (r: Option<&Route<A>>)
        requires
            self.wf(),
        ensures
            match r {
                Some(x) => has_route(self.route_seq(), id@) && *x == self.route_seq()[route_pos(
                    self.route_seq(),
                    id@,
                )],
                None => !has_route(self.route_seq(), id@),
            },
    {
        match self.find_route(id) {
            Some(i) => Some(&self.routes[i]),
            None => None,
        }
    }

    /// All nodes.
    pub fn nodes(&self) -> (r: &[Node<X>])
        ensures
            r@ == self.node_seq(),
    {
        self.nodes.as_slice()
    }

    /// All routes.
    pub fn routes(&self) -> (r: &[Route<A>])
        ensures
            r@ == self.route_seq(),
    {
        self.routes.as_slice()
    }

    /// Add a node; a node with the same id is replaced in place.
    pub fn add_node(&mut self, node: Node<X>)
        requires
            old(self).wf(),
        ensures
            final(self).wf(),
            final(self).route_seq() == old(self).route_seq(),
            has_node(old(self).node_seq(), node.id@) ==> final(self).node_seq() == old(self).node_seq().update(node_pos(old(self).node_seq(), node.id@), node),
            !has_node(old(self).node_seq(), node.id@) ==> final(self).node_seq() == old(self).node_seq().push(node),
    {
        let ghost old_nodes = self.nodes@;
        match self.find_node(node.id.as_str()) {
            Some(i) => {
                self.nodes.set(i, node);
                proof {
                    assert forall|k: int| 0 <= k < old_nodes.len() implies (#[trigger] self.nodes@[k]).id@
                        == old_nodes[k].id@ by {}
                    assert forall|id: Seq<char>| has_node(old_nodes, id) implies has_node(
                        self.nodes@,
                        id,
                    ) by {
                        let k = choose|k: int| 0 <= k < old_nodes.len() && old_nodes[k].id@ == id;
                        assert(self.nodes@[k].id@ == id);
                    }
                }
            },
            None => {
                self.nodes.push(node);
                proof {
                    assert forall|id: Seq<char>| has_node(old_nodes, id) implies has_node(
                        self.nodes@,
                        id,
                    ) by {
                        let k = choose|k: int| 0 <= k < old_nodes.len() && old_nodes[k].id@ == id;
                        assert(self.nodes@[k].id@ == id);
                    }
                }
            },
        }
    }

    /// Set whether a route is muted.
    pub fn set_mute(&mut self, route_id: &str, muted: bool) -> (r: Result<(), GraphError>)
        requires
            old(self).wf(),
        ensures
            final(self).wf(),
            final(self).node_seq() == old(self).node_seq(),
            has_route(old(self).route_seq(), route_id@) ==> {
                let p = route_pos(old(self).route_seq(), route_id@);
                &&& r is Ok
                &&& final(self).route_seq() == old(self).route_seq().update(
                    p,
                    Route { muted, ..old(self).route_seq()[p] },
                )
            },
            !has_route(old(self).route_seq(), route_id@) ==> (r matches Err(GraphError::RouteNotFound(
                id,
            )) && id@ == route_id@ && final(self).route_seq() == old(self).route_seq()),
    {
        match self.find_route(route_id) {
            Some(i) => {
                let ghost old_routes = self.routes@;
                let mut rt = self.routes.remove(i);
                rt.muted = muted;
                self.routes.insert(i, rt);
                assert(self.routes@ =~= old_routes.update(i as int, Route { muted, ..old_routes[i as int] }));
                Ok(())
            },
            None => Err(GraphError::RouteNotFound(String::from_str(route_id))),
        }
    }

    /// Replace a route's volume and balance.
    pub fn set_route_params(&mut self, route_id: &str, params: A) -> (r: Result<(), GraphError>)
        requires
            old(self).wf(),
        ensures
            final(self).wf(),
            final(self).node_seq() == old(self).node_seq(),
            has_route(old(self).route_seq(), route_id@) ==> {
                let p = route_pos(old(self).route_seq(), route_id@);
                &&& r is Ok
                &&& final(self).route_seq() == old(self).route_seq().update(
                    p,
                    Route { params, ..old(self).route_seq()[p] },
                )
            },
            !has_route(old(self).route_seq(), route_id@) ==> (r matches Err(GraphError::RouteNotFound(
                id,
            )) && id@ == route_id@ && final(self).route_seq() == old(self).route_seq()),
    {
        match self.find_route(route_id) {
            Some(i) => {
                let ghost old_routes = self.routes@;
                let mut rt = self.routes.remove(i);
                rt.params = params;
                self.routes.insert(i, rt);
                assert(self.routes@ =~= old_routes.update(i as int, Route { params, ..old_routes[i as int] }));
                Ok(())
            },
            None => Err(GraphError::RouteNotFound(String::from_str(route_id))),
        }
    }

    /// Replace an Fx node's settings (the graph is what a route is rebuilt
    /// from, so a knob turned while the route waits is kept).
    pub fn set_node_fx(&mut self, node_id: &str, spec: X) -> (r: Result<(), GraphError>)
        requires
            old(self).wf(),
        ensures
            final(self).wf(),
            final(self).route_seq() == old(self).route_seq(),
            has_node(old(self).node_seq(), node_id@) ==> {
                let p = node_pos(old(self).node_seq(), node_id@);
                &&& r is Ok
                &&& final(self).node_seq() == old(self).node_seq().update(
                    p,
                    Node { fx: Some(spec), ..old(self).node_seq()[p] },
                )
            },
            !has_node(old(self).node_seq(), node_id@) ==> (r matches Err(GraphError::NodeNotFound(
                id,
            )) && id@ == node_id@ && final(self).node_seq() == old(self).node_seq()),
    {
        match self.find_node(node_id) {
            Some(i) => {
                let ghost old_nodes = self.nodes@;
                let mut n = self.nodes.remove(i);
                n.fx = Some(spec);
                self.nodes.insert(i, n);
                assert(self.nodes@ =~= old_nodes.update(i as int, Node { fx: Some(spec), ..old_nodes[i as int] }));
                proof {
                    assert forall|id: Seq<char>| has_node(old_nodes, id) implies has_node(
                        self.nodes@,
                        id,
                    ) by {
                        let k = choose|k: int| 0 <= k < old_nodes.len() && old_nodes[k].id@ == id;
                        assert(self.nodes@[k].id@ == id);
                    }
                }
                Ok(())
            },
            None => Err(GraphError::NodeNotFound(String::from_str(node_id))),
        }
    }
}


impl<X, A> Graph<X, A> {
    /// Add a route between two existing nodes. Refused, in this order, when
    /// the source node is missing, when the destination node is missing,
    /// and when a route already joins the two in that direction. A route
    /// with the same id is replaced in place.
    pub fn add_route(&mut self, route: Route<A>) -> (r: Result<(), GraphError>)
        requires
            old(self).wf(),
        ensures
            final(self).wf(),
            final(self).node_seq() == old(self).node_seq(),
            !has_node(old(self).node_seq(), route.from_node@) ==> (r matches Err(GraphError::NodeNotFound(id))
                && id@ == route.from_node@ && final(self).route_seq() == old(self).route_seq()),
            has_node(old(self).node_seq(), route.from_node@) && !has_node(old(self).node_seq(), route.to_node@)
                ==> (r matches Err(GraphError::NodeNotFound(id)) && id@ == route.to_node@ && final(self).route_seq() == old(self).route_seq()),
            has_node(old(self).node_seq(), route.from_node@) && has_node(old(self).node_seq(), route.to_node@)
                && has_pair(old(self).route_seq(), route.from_node@, route.to_node@) ==> (r matches Err(
                GraphError::DuplicateRoute { from, to },
            ) && from@ == route.from_node@ && to@ == route.to_node@ && final(self).route_seq() == old(self).route_seq()),
            has_node(old(self).node_seq(), route.from_node@) && has_node(old(self).node_seq(), route.to_node@)
                && !has_pair(old(self).route_seq(), route.from_node@, route.to_node@) ==> (r is Ok && final(self).route_seq() == insert_route(old(self).route_seq(), route)),
    {
        if self.find_node(route.from_node.as_str()).is_none() {
            return Err(GraphError::NodeNotFound(route.from_node));
        }
        if self.find_node(route.to_node.as_str()).is_none() {
            return Err(GraphError::NodeNotFound(route.to_node));
        }
        let mut i: usize = 0;
        while i < self.routes.len()
            invariant
                i <= self.routes@.len(),
                self.nodes@ == old(self).nodes@,
                self.routes@ == old(self).routes@,
                graph_wf(self.nodes@, self.routes@),
                has_node(self.nodes@, route.from_node@),
                has_node(self.nodes@, route.to_node@),
                forall|j: int|
                    0 <= j < i ==> !((#[trigger] self.routes@[j]).from_node@ == route.from_node@
                        && self.routes@[j].to_node@ == route.to_node@),
            decreases self.routes@.len() - i,
        {
            if str_eq(self.routes[i].from_node.as_str(), route.from_node.as_str()) && str_eq(
                self.routes[i].to_node.as_str(),
                route.to_node.as_str(),
            ) {
                return Err(GraphError::DuplicateRoute { from: route.from_node, to: route.to_node });
            }
            i += 1;
        }
        let ghost old_routes = self.routes@;
        match self.find_route(route.id.as_str()) {
            Some(k) => {
                self.routes.set(k, route);
                proof {
                    assert forall|a: int, b: int| 0 <= a < b < self.routes@.len() implies (
                    #[trigger] self.routes@[a]).id@ != (#[trigger] self.routes@[b]).id@ by {
                        if a != k && b != k {
                            assert(old_routes[a].id@ != old_routes[b].id@);
                        }
                    }
                }
            },
            None => {
                self.routes.push(route);
            },
        }
        Ok(())
    }

    /// Remove a route; refused when there is none with that id.
    pub fn remove_route(&mut self, id: &str) -> (r: Result<(), GraphError>)
        requires
            old(self).wf(),
        ensures
            final(self).wf(),
            final(self).node_seq() == old(self).node_seq(),
            has_route(old(self).route_seq(), id@) ==> (r is Ok && final(self).route_seq() == old(self).route_seq().remove(route_pos(old(self).route_seq(), id@))),
            !has_route(old(self).route_seq(), id@) ==> (r matches Err(GraphError::RouteNotFound(x))
                && x@ == id@ && final(self).route_seq() == old(self).route_seq()),
    {
        match self.find_route(id) {
            Some(k) => {
                let ghost old_routes = self.routes@;
                self.routes.remove(k);
                proof {
                    assert forall|a: int, b: int| 0 <= a < b < self.routes@.len() implies (
                    #[trigger] self.routes@[a]).id@ != (#[trigger] self.routes@[b]).id@ by {
                        let oa = if a < k { a } else { a + 1 };
                        let ob = if b < k { b } else { b + 1 };
                        assert(old_routes[oa].id@ != old_routes[ob].id@);
                    }
                    assert forall|a: int, b: int| 0 <= a < b < self.routes@.len() implies !((
                    #[trigger] self.routes@[a]).from_node@ == (#[trigger] self.routes@[b]).from_node@
                        && self.routes@[a].to_node@ == self.routes@[b].to_node@) by {
                        let oa = if a < k { a } else { a + 1 };
                        let ob = if b < k { b } else { b + 1 };
                        assert(self.routes@[a] == old_routes[oa]);
                        assert(self.routes@[b] == old_routes[ob]);
                    }
                    assert forall|a: int| 0 <= a < self.routes@.len() implies has_node(
                        self.nodes@,
                        (#[trigger] self.routes@[a]).from_node@,
                    ) && has_node(self.nodes@, self.routes@[a].to_node@) by {
                        let oa = if a < k { a } else { a + 1 };
                        assert(self.routes@[a] == old_routes[oa]);
                    }
                }
                Ok(())
            },
            None => Err(GraphError::RouteNotFound(String::from_str(id))),
        }
    }

    /// Remove a node and every route touching it; refused when there is no
    /// node with that id.
    pub fn remove_node(&mut self, id: &str) -> (r: Result<(), GraphError>)
        requires
            old(self).wf(),
        ensures
            final(self).wf(),
            has_node(old(self).node_seq(), id@) ==> (r is Ok && final(self).node_seq() == old(self).node_seq().remove(node_pos(old(self).node_seq(), id@)) && final(self).route_seq()
                == without_node(old(self).route_seq(), id@)),
            !has_node(old(self).node_seq(), id@) ==> (r matches Err(GraphError::NodeNotFound(x))
                && x@ == id@ && final(self).node_seq() == old(self).node_seq() && final(self).route_seq() == old(self).route_seq()),
    {
        let k = match self.find_node(id) {
            Some(k) => k,
            None => {
                return Err(GraphError::NodeNotFound(String::from_str(id)));
            },
        };
        let ghost orig = self.routes@;
        let ghost onodes = self.nodes@;
        let mut i: usize = 0;
        let ghost mut done: int = 0;
        while i < self.routes.len()
            invariant
                0 <= done <= orig.len(),
                self.routes@ == without_node(orig.take(done), id@) + orig.skip(done),
                i == without_node(orig.take(done), id@).len(),
                self.routes@.len() == i + (orig.len() - done),
                self.nodes@ == onodes,
            decreases orig.len() - done,
        {
            assert(orig.take(done + 1).drop_last() =~= orig.take(done));
            assert(self.routes@[i as int] == orig[done]);
            let t = str_eq(self.routes[i].from_node.as_str(), id) || str_eq(
                self.routes[i].to_node.as_str(),
                id,
            );
            if t {
                self.routes.remove(i);
                assert(self.routes@ =~= without_node(orig.take(done + 1), id@) + orig.skip(done + 1));
            } else {
                assert(without_node(orig.take(done + 1), id@) =~= without_node(orig.take(done), id@).push(
                    orig[done],
                ));
                assert(self.routes@ =~= without_node(orig.take(done + 1), id@) + orig.skip(done + 1));
                i += 1;
            }
            proof {
                done = done + 1;
            }
        }
        assert(orig.take(done) =~= orig);
        assert(self.routes@ =~= without_node(orig, id@));
        self.nodes.remove(k);
        proof {
            lemma_without_node_sub(orig, id@);
            lemma_without_node_order(orig, id@);
            let w = without_node(orig, id@);
            assert forall|a: int, b: int| 0 <= a < b < self.nodes@.len() implies (
            #[trigger] self.nodes@[a]).id@ != (#[trigger] self.nodes@[b]).id@ by {
                let oa = if a < k { a } else { a + 1 };
                let ob = if b < k { b } else { b + 1 };
                assert(onodes[oa].id@ != onodes[ob].id@);
            }
            assert forall|a: int, b: int| 0 <= a < b < w.len() implies (#[trigger] w[a]).id@ != (
            #[trigger] w[b]).id@ && !(w[a].from_node@ == w[b].from_node@ && w[a].to_node@
                == w[b].to_node@) by {
                let (ja, jb) = choose|ja: int, jb: int|
                    0 <= ja < jb < orig.len() && orig[ja] == w[a] && orig[jb] == w[b];
                assert(orig[ja].id@ != orig[jb].id@);
            }
            assert forall|a: int| 0 <= a < w.len() implies has_node(
                self.nodes@,
                (#[trigger] w[a]).from_node@,
            ) && has_node(self.nodes@, w[a].to_node@) by {
                let j = choose|j: int| 0 <= j < orig.len() && orig[j] == w[a];
                assert(has_node(onodes, orig[j].from_node@));
                assert(has_node(onodes, orig[j].to_node@));
                let pf = choose|p: int| 0 <= p < onodes.len() && onodes[p].id@ == w[a].from_node@;
                let pt = choose|p: int| 0 <= p < onodes.len() && onodes[p].id@ == w[a].to_node@;
                assert(pf != k);
                assert(pt != k);
                let nf = if pf < k { pf } else { pf - 1 };
                let nt = if pt < k { pt } else { pt - 1 };
                assert(self.nodes@[nf].id@ == w[a].from_node@);
                assert(self.nodes@[nt].id@ == w[a].to_node@);
            }
        }
        Ok(())
    }

    /// The routes leaving node `id`, in the order they were added.
    pub fn routes_from(&self, id: &str) -> (r: Vec<&Route<A>>)
        ensures
            r@.len() == routes_leaving(self.route_seq(), id@).len(),
            forall|i: int| 0 <= i < r@.len() ==> *r@[i] == routes_leaving(self.route_seq(), id@)[i],
    {
        let mut out: Vec<&Route<A>> = Vec::new();
        let mut i: usize = 0;
        while i < self.routes.len()
            invariant
                i <= self.routes@.len(),
                out@.len() == routes_leaving(self.routes@.take(i as int), id@).len(),
                forall|j: int|
                    0 <= j < out@.len() ==> *out@[j] == routes_leaving(self.routes@.take(i as int), id@)[j],
            decreases self.routes@.len() - i,
        {
            assert(self.routes@.take(i + 1).drop_last() =~= self.routes@.take(i as int));
            if str_eq(self.routes[i].from_node.as_str(), id) {
                out.push(&self.routes[i]);
            }
            i += 1;
        }
        assert(self.routes@.take(i as int) =~= self.routes@);
        out
    }

    /// The routes arriving at node `id`, in the order they were added.
    pub fn routes_to(&self, id: &str) -> (r: Vec<&Route<A>>)
        ensures
            r@.len() == routes_arriving(self.route_seq(), id@).len(),
            forall|i: int| 0 <= i < r@.len() ==> *r@[i] == routes_arriving(self.route_seq(), id@)[i],
    {
        let mut out: Vec<&Route<A>> = Vec::new();
        let mut i: usize = 0;
        while i < self.routes.len()
            invariant
                i <= self.routes@.len(),
                out@.len() == routes_arriving(self.routes@.take(i as int), id@).len(),
                forall|j: int|
                    0 <= j < out@.len() ==> *out@[j] == routes_arriving(self.routes@.take(i as int), id@)[j],
            decreases self.routes@.len() - i,
        {
            assert(self.routes@.take(i + 1).drop_last() =~= self.routes@.take(i as int));
            if str_eq(self.routes[i].to_node.as_str(), id) {
                out.push(&self.routes[i]);
            }
            i += 1;
        }
        assert(self.routes@.take(i as int) =~= self.routes@);
        out
    }

    /// Whether some route arrives at node `id`.
    fn is_fed(&self, id: &str) -> (b: bool)
        ensures
            b == exists|i: int| 0 <= i < self.routes@.len() && (#[trigger] self.routes@[i]).to_node@ == id@,
    {
        let mut i: usize = 0;
        while i < self.routes.len()
            invariant
                i <= self.routes@.len(),
                forall|j: int| 0 <= j < i ==> (#[trigger] self.routes@[j]).to_node@ != id@,
            decreases self.routes@.len() - i,
        {
            if str_eq(self.routes[i].to_node.as_str(), id) {
                return true;
            }
            i += 1;
        }
        false
    }

    /// The nodes no route arrives at (the sources of the graph), in order.
    pub fn source_nodes(&self) -> (r: Vec<&Node<X>>)
        ensures
            r@.len() == unfed_nodes(self.node_seq(), self.route_seq()).len(),
            forall|i: int| 0 <= i < r@.len() ==> *r@[i] == unfed_nodes(self.node_seq(), self.route_seq())[i],
    {
        let mut out: Vec<&Node<X>> = Vec::new();
        let mut i: usize = 0;
        while i < self.nodes.len()
            invariant
                i <= self.nodes@.len(),
                out@.len() == unfed_nodes(self.nodes@.take(i as int), self.routes@).len(),
                forall|j: int|
                    0 <= j < out@.len() ==> *out@[j] == unfed_nodes(self.nodes@.take(i as int), self.routes@)[j],
            decreases self.nodes@.len() - i,
        {
            assert(self.nodes@.take(i + 1).drop_last() =~= self.nodes@.take(i as int));
            if !self.is_fed(self.nodes[i].id.as_str()) {
                out.push(&self.nodes[i]);
            }
            i += 1;
        }
        assert(self.nodes@.take(i as int) =~= self.nodes@);
        out
    }
}

/// Removing a node leaves no route touching it, and keeps every other
/// route, in order.
pub proof fn lemma_remove_node_detaches<A>(rs: Seq<Route<A>>, id: Seq<char>)
    ensures
        forall|i: int| 0 <= i < without_node(rs, id).len() ==> !touches(#[trigger] without_node(rs, id)[i], id),
        forall|j: int|
            0 <= j < rs.len() && !touches(#[trigger] rs[j], id) ==> without_node(rs, id).contains(rs[j]),
    decreases rs.len(),
{
    lemma_without_node_sub(rs, id);
    if rs.len() > 0 {
        lemma_remove_node_detaches(rs.drop_last(), id);
        let rest = without_node(rs.drop_last(), id);
        assert forall|j: int| 0 <= j < rs.len() && !touches(#[trigger] rs[j], id) implies without_node(
            rs,
            id,
        ).contains(rs[j]) by {
            if j < rs.len() - 1 {
                assert(rs.drop_last()[j] == rs[j]);
                let k = choose|k: int| 0 <= k < rest.len() && rest[k] == rs[j];
                assert(without_node(rs, id)[k] == rs[j]);
            } else {
                assert(without_node(rs, id)[rest.len() as int] == rs[j]);
            }
        }
    }
}


// ── Cycles ──────────────────────────────────────────────────────────────────

/// In a snapshot, a route joins node `a` to node `b`, both of them nodes of
/// the snapshot (routes to unknown nodes are not edges).
pub open spec fn snap_edge<X, A>(s: RoutingGraph<X, A>, a: Seq<char>, b: Seq<char>) -> bool {
    has_node(s.nodes@, a) && has_node(s.nodes@, b) && has_pair(s.routes@, a, b)
}

/// `c` is a directed cycle of the snapshot: each node has an edge to the
/// next, and the last one back to the first (a self-loop is a cycle of one).
pub open spec fn is_cycle<X, A>(s: RoutingGraph<X, A>, c: Seq<Seq<char>>) -> bool {
    &&& c.len() >= 1
    &&& forall|i: int| 0 <= i < c.len() - 1 ==> #[trigger] snap_edge(s, c[i], c[i + 1])
    &&& snap_edge(s, c.last(), c[0])
}

/// The snapshot would feed audio back on itself.
pub open spec fn has_cycle<X, A>(s: RoutingGraph<X, A>) -> bool {
    exists|c: Seq<Seq<char>>| is_cycle(s, c)
}

/// How many entries of `s` equal `x`.
pub open spec fn count_of<T>(s: Seq<T>, x: T) -> nat
    decreases s.len(),
{
    if s.len() == 0 {
        0
    } else {
        count_of(s.drop_last(), x) + if s.last() == x {
            1nat
        } else {
            0nat
        }
    }
}

proof fn lemma_count_update<T>(s: Seq<T>, i: int, x: T, y: T)
    requires
        0 <= i < s.len(),
        s[i] == x,
        y != x,
    ensures
        count_of(s.update(i, y), x) + 1 == count_of(s, x),
    decreases s.len(),
{
    let t = s.update(i, y);
    if i == s.len() - 1 {
        assert(t.drop_last() =~= s.drop_last());
    } else {
        assert(t.drop_last() =~= s.drop_last().update(i, y));
        lemma_count_update(s.drop_last(), i, x, y);
    }
}

pub(crate) proof fn lemma_count_zero<T>(s: Seq<T>, x: T)
    ensures
        count_of(s, x) == 0 <==> forall|i: int| 0 <= i < s.len() ==> s[i] != x,
    decreases s.len(),
{
    if s.len() > 0 {
        lemma_count_zero(s.drop_last(), x);
        if count_of(s, x) == 0 {
            assert forall|i: int| 0 <= i < s.len() implies s[i] != x by {
                if i < s.len() - 1 {
                    assert(s.drop_last()[i] == s[i]);
                }
            }
        }
        if forall|i: int| 0 <= i < s.len() ==> s[i] != x {
            assert forall|i: int| 0 <= i < s.drop_last().len() implies s.drop_last()[i] != x by {
                assert(s.drop_last()[i] == s[i]);
            }
        }
    }
}

/// The edges of the index graph: `(u, v)` for a route from node `u` to
/// node `v`.
pub open spec fn iedge(edges: Seq<(usize, usize)>, u: int, v: int) -> bool {
    exists|k: int| 0 <= k < edges.len() && (#[trigger] edges[k]).0 == u && edges[k].1 == v
}

/// The index of node id `a` among `ids`.
pub open spec fn ix(ids: Seq<Seq<char>>, a: Seq<char>) -> int {
    choose|k: int| 0 <= k < ids.len() && ids[k] == a
}

/// The index graph stands for the snapshot: `ids` are the snapshot's node
/// ids, each once, and the edges are exactly its routes between them.
pub open spec fn index_graph<X, A>(s: RoutingGraph<X, A>, ids: Seq<Seq<char>>, edges: Seq<(usize, usize)>) -> bool {
    &&& forall|a: int, b: int| 0 <= a < b < ids.len() ==> ids[a] != ids[b]
    &&& forall|a: Seq<char>| has_node(s.nodes@, a) <==> exists|k: int| 0 <= k < ids.len() && ids[k] == a
    &&& forall|k: int|
        0 <= k < edges.len() ==> (#[trigger] edges[k]).0 < ids.len() && edges[k].1 < ids.len()
            && snap_edge(s, ids[edges[k].0 as int], ids[edges[k].1 as int])
    &&& forall|a: Seq<char>, b: Seq<char>|
        #[trigger] snap_edge(s, a, b) ==> iedge(edges, ix(ids, a), ix(ids, b))
}

/// Every edge climbs in rank.
pub open spec fn ranked(edges: Seq<(usize, usize)>, rank: Seq<usize>) -> bool {
    forall|k: int|
        0 <= k < edges.len() ==> (#[trigger] edges[k]).0 < rank.len() && edges[k].1 < rank.len()
            && rank[edges[k].0 as int] < rank[edges[k].1 as int]
}

#[verifier::rlimit(40)]
proof fn lemma_rank_climbs<X, A>(s: RoutingGraph<X, A>, ids: Seq<Seq<char>>, edges: Seq<(usize, usize)>, rank: Seq<usize>, c: Seq<Seq<char>>, j: int)
    requires
        index_graph(s, ids, edges),
        ranked(edges, rank),
        rank.len() == ids.len(),
        is_cycle(s, c),
        1 <= j < c.len(),
    ensures
        rank[ix(ids, c[0])] < rank[ix(ids, c[j])],
    decreases j,
{
    let i = j - 1;
    assert(snap_edge(s, c[i], c[i + 1]));
    assert(c[i + 1] == c[j]);
    lemma_edge_climbs(s, ids, edges, rank, c[i], c[j]);
    if j > 1 {
        lemma_rank_climbs(s, ids, edges, rank, c, j - 1);
    }
}

proof fn lemma_edge_climbs<X, A>(s: RoutingGraph<X, A>, ids: Seq<Seq<char>>, edges: Seq<(usize, usize)>, rank: Seq<usize>, a: Seq<char>, b: Seq<char>)
    requires
        index_graph(s, ids, edges),
        ranked(edges, rank),
        rank.len() == ids.len(),
        snap_edge(s, a, b),
    ensures
        rank[ix(ids, a)] < rank[ix(ids, b)],
{
    assert(iedge(edges, ix(ids, a), ix(ids, b)));
    let k = choose|k: int| 0 <= k < edges.len() && (#[trigger] edges[k]).0 == ix(ids, a) && edges[k].1 == ix(ids, b);
    assert(rank[edges[k].0 as int] < rank[edges[k].1 as int]);
}

/// A ranking of the index graph rules out every cycle of the snapshot.
proof fn lemma_ranked_acyclic<X, A>(s: RoutingGraph<X, A>, ids: Seq<Seq<char>>, edges: Seq<(usize, usize)>, rank: Seq<usize>)
    requires
        index_graph(s, ids, edges),
        ranked(edges, rank),
        rank.len() == ids.len(),
    ensures
        !has_cycle(s),
{
    if has_cycle(s) {
        let c = choose|c: Seq<Seq<char>>| is_cycle(s, c);
        lemma_edge_climbs(s, ids, edges, rank, c.last(), c[0]);
        if c.len() > 1 {
            lemma_rank_climbs(s, ids, edges, rank, c, c.len() - 1);
        }
    }
}

proof fn lemma_count_all<T>(s: Seq<T>, x: T)
    requires
        forall|i: int| 0 <= i < s.len() ==> s[i] == x,
    ensures
        count_of(s, x) == s.len(),
    decreases s.len(),
{
    if s.len() > 0 {
        assert forall|i: int| 0 <= i < s.drop_last().len() implies s.drop_last()[i] == x by {
            assert(s.drop_last()[i] == s[i]);
        }
        lemma_count_all(s.drop_last(), x);
    }
}

/// A backward walk through live nodes: each step goes to a predecessor.
pub open spec fn back_walk(edges: Seq<(usize, usize)>, path: Seq<usize>) -> bool {
    forall|k: int| 0 <= k < path.len() - 1 ==> iedge(edges, #[trigger] path[k + 1] as int, path[k] as int)
}

/// Closing a backward walk where it meets itself gives a cycle.
proof fn lemma_walk_cycle<X, A>(s: RoutingGraph<X, A>, ids: Seq<Seq<char>>, edges: Seq<(usize, usize)>, path: Seq<usize>, p: int, u: usize)
    requires
        index_graph(s, ids, edges),
        path.len() >= 1,
        forall|k: int| 0 <= k < path.len() ==> (#[trigger] path[k]) < ids.len(),
        back_walk(edges, path),
        0 <= p < path.len(),
        path[p] == u,
        iedge(edges, u as int, path.last() as int),
    ensures
        has_cycle(s),
{
    let kk = path.len() - 1;
    let c = Seq::new((kk - p + 1) as nat, |i: int| ids[path[kk - i] as int]);
    assert forall|i: int| 0 <= i < c.len() - 1 implies #[trigger] snap_edge(s, c[i], c[i + 1]) by {
        let q = kk - i - 1;
        assert(iedge(edges, path[q + 1] as int, path[q] as int));
        let e = choose|e: int| 0 <= e < edges.len() && (#[trigger] edges[e]).0 == path[q + 1] && edges[e].1 == path[q];
        assert(q + 1 == kk - i);
    }
    let e = choose|e: int| 0 <= e < edges.len() && (#[trigger] edges[e]).0 == u && edges[e].1 == path.last();
    assert(c.last() == ids[path[p] as int]);
    assert(snap_edge(s, c.last(), c[0]));
    assert(is_cycle(s, c));
}

/// Some node among the first `i` has id `a`.
pub open spec fn prefix_has<X>(ns: Seq<Node<X>>, i: int, a: Seq<char>) -> bool {
    exists|j: int| 0 <= j < i && (#[trigger] ns[j]).id@ == a
}

/// Some entry of `ids` is `a`.
pub open spec fn ids_has(ids: Seq<&String>, a: Seq<char>) -> bool {
    exists|k: int| 0 <= k < ids.len() && (*ids[k])@ == a
}

/// Does some not-yet-removed node have an edge into `v`?
fn has_live_pred(edges: &Vec<(usize, usize)>, removed: &Vec<bool>, v: usize) -> (r: Option<usize>)
    requires
        forall|k: int| 0 <= k < edges@.len() ==> (#[trigger] edges@[k]).0 < removed@.len(),
    ensures
        match r {
            Some(u) => u < removed@.len() && !removed@[u as int] && iedge(edges@, u as int, v as int),
            None => forall|k: int|
                0 <= k < edges@.len() && (#[trigger] edges@[k]).1 == v ==> removed@[edges@[k].0 as int],
        },
{
    let mut k: usize = 0;
    while k < edges.len()
        invariant
            forall|j: int| 0 <= j < edges@.len() ==> (#[trigger] edges@[j]).0 < removed@.len(),
            k <= edges@.len(),
            forall|j: int| 0 <= j < k && (#[trigger] edges@[j]).1 == v ==> removed@[edges@[j].0 as int],
        decreases edges@.len() - k,
    {
        let (u, w) = edges[k];
        if w == v && !removed[u] {
            return Some(u);
        }
        k += 1;
    }
    None
}

/// Position of node id `id` among `ids`, if any.
fn index_of_id(ids: &Vec<&String>, id: &str) -> (r: Option<usize>)
    ensures
        match r {
            Some(k) => k < ids@.len() && (*ids@[k as int])@ == id@,
            None => forall|k: int| 0 <= k < ids@.len() ==> (*ids@[k])@ != id@,
        },
{
    let mut k: usize = 0;
    while k < ids.len()
        invariant
            k <= ids@.len(),
            forall|j: int| 0 <= j < k ==> (*ids@[j])@ != id@,
        decreases ids@.len() - k,
    {
        if str_eq(ids[k].as_str(), id) {
            return Some(k);
        }
        k += 1;
    }
    None
}

/// Refuse a snapshot with a directed cycle: a route path that leads back
/// to where it started would feed audio back on itself.
pub fn detect_cycle<X, A>(snapshot: &RoutingGraph<X, A>) -> (r: Result<(), GraphError>)
    ensures
        has_cycle(*snapshot) ==> r matches Err(GraphError::CycleDetected),
        !has_cycle(*snapshot) ==> r is Ok,
{
    // The node ids, each once.
    let mut ids: Vec<&String> = Vec::new();
    let mut i: usize = 0;
    while i < snapshot.nodes.len()
        invariant
            i <= snapshot.nodes@.len(),
            forall|a: int, b: int| 0 <= a < b < ids@.len() ==> (*ids@[a])@ != (*ids@[b])@,
            forall|a: Seq<char>| #[trigger] prefix_has(snapshot.nodes@, i as int, a) <==> ids_has(ids@, a),
        decreases snapshot.nodes@.len() - i,
    {
        let id = &snapshot.nodes[i].id;
        let ghost before = ids@;
        if index_of_id(&ids, id.as_str()).is_none() {
            ids.push(id);
        }
        proof {
            assert forall|a: Seq<char>| #[trigger] prefix_has(snapshot.nodes@, i + 1, a) implies ids_has(ids@, a) by {
                let j = choose|j: int| 0 <= j < i + 1 && (#[trigger] snapshot.nodes@[j]).id@ == a;
                if j < i {
                    assert(prefix_has(snapshot.nodes@, i as int, a));
                    let k = choose|k: int| 0 <= k < before.len() && (*before[k])@ == a;
                    assert((*ids@[k])@ == a);
                } else {
                    if !ids_has(before, a) {
                        assert((*ids@[ids@.len() - 1])@ == a);
                    } else {
                        let k = choose|k: int| 0 <= k < before.len() && (*before[k])@ == a;
                        assert((*ids@[k])@ == a);
                    }
                }
            }
            assert forall|a: Seq<char>| ids_has(ids@, a) implies #[trigger] prefix_has(snapshot.nodes@, i + 1, a) by {
                let k = choose|k: int| 0 <= k < ids@.len() && (*ids@[k])@ == a;
                if k < before.len() {
                    assert(ids_has(before, a));
                    assert(prefix_has(snapshot.nodes@, i as int, a));
                    let j = choose|j: int| 0 <= j < i && (#[trigger] snapshot.nodes@[j]).id@ == a;
                    assert(snapshot.nodes@[j].id@ == a);
                } else {
                    assert(snapshot.nodes@[i as int].id@ == a);
                }
            }
        }
        i += 1;
    }
    assert forall|a: Seq<char>| has_node(snapshot.nodes@, a) <==> prefix_has(snapshot.nodes@, i as int, a) by {
        if has_node(snapshot.nodes@, a) {
            let j = choose|j: int| 0 <= j < snapshot.nodes@.len() && (#[trigger] snapshot.nodes@[j]).id@ == a;
            assert(snapshot.nodes@[j].id@ == a);
        }
    }
    let n = ids.len();
    let ghost idv: Seq<Seq<char>> = Seq::new(n as nat, |k: int| (*ids@[k])@);
    assert forall|a: Seq<char>| has_node(snapshot.nodes@, a) <==> exists|k: int| 0 <= k < idv.len() && idv[k] == a by {
        if has_node(snapshot.nodes@, a) {
            assert(prefix_has(snapshot.nodes@, i as int, a));
            assert(ids_has(ids@, a));
            let k = choose|k: int| 0 <= k < ids@.len() && (*ids@[k])@ == a;
            assert(idv[k] == a);
        }
        if exists|k: int| 0 <= k < idv.len() && idv[k] == a {
            let k = choose|k: int| 0 <= k < idv.len() && idv[k] == a;
            assert((*ids@[k])@ == a);
        }
    }
    // The edges between them.
    let mut edges: Vec<(usize, usize)> = Vec::new();
    let mut j: usize = 0;
    while j < snapshot.routes.len()
        invariant
            n == ids@.len(),
            idv == Seq::new(n as nat, |k: int| (*ids@[k])@),
            forall|a: int, b: int| 0 <= a < b < idv.len() ==> idv[a] != idv[b],
            forall|a: Seq<char>| has_node(snapshot.nodes@, a) <==> exists|k: int| 0 <= k < idv.len() && idv[k] == a,
            j <= snapshot.routes@.len(),
            forall|k: int|
                0 <= k < edges@.len() ==> (#[trigger] edges@[k]).0 < n && edges@[k].1 < n && snap_edge(
                    *snapshot,
                    idv[edges@[k].0 as int],
                    idv[edges@[k].1 as int],
                ),
            forall|q: int|
                0 <= q < j && has_node(snapshot.nodes@, (#[trigger] snapshot.routes@[q]).from_node@) && has_node(
                    snapshot.nodes@,
                    snapshot.routes@[q].to_node@,
                ) ==> iedge(
                    edges@,
                    ix(idv, snapshot.routes@[q].from_node@),
                    ix(idv, snapshot.routes@[q].to_node@),
                ),
        decreases snapshot.routes@.len() - j,
    {
        let r = &snapshot.routes[j];
        match (index_of_id(&ids, r.from_node.as_str()), index_of_id(&ids, r.to_node.as_str())) {
            (Some(u), Some(v)) => {
                proof {
                    assert(idv[u as int] == r.from_node@);
                    assert(idv[v as int] == r.to_node@);
                    assert(has_pair(snapshot.routes@, r.from_node@, r.to_node@));
                    let pu = ix(idv, r.from_node@);
                    let pv = ix(idv, r.to_node@);
                    assert(pu == u);
                    assert(pv == v);
                }
                let ghost old_edges = edges@;
                edges.push((u, v));
                proof {
                    assert(edges@[edges@.len() - 1] == (u, v));
                    assert forall|q: int|
                        0 <= q < j + 1 && has_node(snapshot.nodes@, (#[trigger] snapshot.routes@[q]).from_node@)
                            && has_node(snapshot.nodes@, snapshot.routes@[q].to_node@) implies iedge(
                        edges@,
                        ix(idv, snapshot.routes@[q].from_node@),
                        ix(idv, snapshot.routes@[q].to_node@),
                    ) by {
                        if q < j {
                            let k = choose|k: int| 0 <= k < old_edges.len() && (#[trigger] old_edges[k]).0 == ix(
                                idv,
                                snapshot.routes@[q].from_node@,
                            ) && old_edges[k].1 == ix(idv, snapshot.routes@[q].to_node@);
                            assert(edges@[k] == old_edges[k]);
                        } else {
                            assert(edges@[edges@.len() - 1] == (u, v));
                        }
                    }
                    assert forall|k: int| 0 <= k < edges@.len() implies (#[trigger] edges@[k]).0 < n && edges@[k].1 < n
                        && snap_edge(*snapshot, idv[edges@[k].0 as int], idv[edges@[k].1 as int]) by {
                        if k < old_edges.len() {
                            assert(edges@[k] == old_edges[k]);
                        }
                    }
                }
            },
            _ => {
                proof {
                    if has_node(snapshot.nodes@, r.from_node@) && has_node(snapshot.nodes@, r.to_node@) {
                        let ku = choose|k: int| 0 <= k < idv.len() && idv[k] == r.from_node@;
                        let kv = choose|k: int| 0 <= k < idv.len() && idv[k] == r.to_node@;
                        assert((*ids@[ku])@ == r.from_node@);
                        assert((*ids@[kv])@ == r.to_node@);
                    }
                }
            },
        }
        j += 1;
    }
    proof {
        assert forall|a: Seq<char>, b: Seq<char>| #[trigger] snap_edge(*snapshot, a, b) implies iedge(
            edges@,
            ix(idv, a),
            ix(idv, b),
        ) by {
            let q = choose|q: int| 0 <= q < snapshot.routes@.len() && (#[trigger] snapshot.routes@[q]).from_node@
                == a && snapshot.routes@[q].to_node@ == b;
            assert(has_node(snapshot.nodes@, snapshot.routes@[q].from_node@));
        }
        assert(index_graph(*snapshot, idv, edges@));
    }
    // Peel off nodes nothing live feeds; the order they go in is a ranking.
    match peel(&edges, n) {
        Ok(rank) => {
            proof {
                lemma_ranked_acyclic(*snapshot, idv, edges@, rank@);
            }
            Ok(())
        },
        Err(removed) => {
            let w = walk_back(&edges, &removed);
            proof {
                let (path, p) = w@;
                lemma_walk_cycle(*snapshot, idv, edges@, path, p, path[p]);
            }
            Err(GraphError::CycleDetected)
        },
    }
}

/// Remove, one at a time, a node no remaining node feeds. Either every node
/// goes, and the order they went in ranks every edge upwards, or the
/// remaining ones all feed each other.
fn peel(edges: &Vec<(usize, usize)>, n: usize) -> (r: Result<Vec<usize>, Vec<bool>>)
    requires
        forall|k: int| 0 <= k < edges@.len() ==> (#[trigger] edges@[k]).0 < n && edges@[k].1 < n,
    ensures
        match r {
            Ok(rank) => rank@.len() == n && ranked(edges@, rank@),
            Err(removed) => {
                &&& removed@.len() == n
                &&& count_of(removed@, false) > 0
                &&& forall|w: int|
                    0 <= w < n && !removed@[w] ==> exists|u: int|
                        0 <= u < n && !removed@[u] && #[trigger] iedge(edges@, u, w)
            },
        },
{
    let mut removed: Vec<bool> = Vec::new();
    let mut rank: Vec<usize> = Vec::new();
    let mut z: usize = 0;
    while z < n
        invariant
            z <= n,
            removed@.len() == z,
            rank@.len() == z,
            forall|k: int| 0 <= k < z ==> !removed@[k],
        decreases n - z,
    {
        removed.push(false);
        rank.push(0);
        z += 1;
    }
    let mut count: usize = 0;
    proof {
        lemma_count_all(removed@, false);
    }
    loop
        invariant
            forall|k: int| 0 <= k < edges@.len() ==> (#[trigger] edges@[k]).0 < n && edges@[k].1 < n,
            removed@.len() == n,
            rank@.len() == n,
            count + count_of(removed@, false) == n,
            forall|k: int|
                0 <= k < edges@.len() && removed@[(#[trigger] edges@[k]).1 as int] ==> removed@[edges@[k].0 as int]
                    && rank@[edges@[k].0 as int] < rank@[edges@[k].1 as int],
            forall|v: int| 0 <= v < n && removed@[v] ==> rank@[v] < count,
        decreases count_of(removed@, false),
    {
        match find_unfed(edges, &removed) {
            Some(w) => {
                proof {
                    lemma_count_update(removed@, w as int, false, true);
                }
                removed.set(w, true);
                rank.set(w, count);
                count = count + 1;
            },
            None => {
                if count_of_false_is_zero(&removed) {
                    proof {
                        lemma_count_zero(removed@, false);
                        assert forall|k: int| 0 <= k < edges@.len() implies (#[trigger] edges@[k]).0 < rank@.len()
                            && edges@[k].1 < rank@.len() && rank@[edges@[k].0 as int] < rank@[edges@[k].1 as int] by {
                            assert(removed@[edges@[k].1 as int]);
                        }
                    }
                    return Ok(rank);
                }
                return Err(removed);
            },
        }
    }
}

/// A live node no live node feeds, if there is one.
fn find_unfed(edges: &Vec<(usize, usize)>, removed: &Vec<bool>) -> (r: Option<usize>)
    requires
        forall|k: int| 0 <= k < edges@.len() ==> (#[trigger] edges@[k]).0 < removed@.len() && edges@[k].1
            < removed@.len(),
    ensures
        match r {
            Some(w) => w < removed@.len() && !removed@[w as int] && forall|k: int|
                0 <= k < edges@.len() && (#[trigger] edges@[k]).1 == w ==> removed@[edges@[k].0 as int],
            None => forall|w: int|
                0 <= w < removed@.len() && !removed@[w] ==> exists|u: int|
                    0 <= u < removed@.len() && !removed@[u] && #[trigger] iedge(edges@, u, w),
        },
{
    let n = removed.len();
    let mut v: usize = 0;
    while v < n
        invariant
            n == removed@.len(),
            forall|k: int| 0 <= k < edges@.len() ==> (#[trigger] edges@[k]).0 < n && edges@[k].1 < n,
            v <= n,
            forall|w: int|
                0 <= w < v && !removed@[w] ==> exists|u: int| 0 <= u < n && !removed@[u] && #[trigger] iedge(edges@, u, w),
        decreases n - v,
    {
        if !removed[v] {
            match has_live_pred(edges, removed, v) {
                Some(u) => {},
                None => {
                    return Some(v);
                },
            }
        }
        v += 1;
    }
    None
}

/// When every live node has a live predecessor (and some node is live),
/// walking back from a live node must repeat a node: the walk found, and
/// where it meets itself.
#[verifier::rlimit(30)]
fn walk_back(edges: &Vec<(usize, usize)>, removed: &Vec<bool>) -> (r: Ghost<(Seq<usize>, int)>)
    requires
        count_of(removed@, false) > 0,
        forall|k: int| 0 <= k < edges@.len() ==> (#[trigger] edges@[k]).0 < removed@.len() && edges@[k].1
            < removed@.len(),
        forall|w: int|
            0 <= w < removed@.len() && !removed@[w] ==> exists|u: int|
                0 <= u < removed@.len() && !removed@[u] && #[trigger] iedge(edges@, u, w),
    ensures
        r@.0.len() >= 1,
        forall|k: int| 0 <= k < r@.0.len() ==> (#[trigger] r@.0[k]) < removed@.len(),
        back_walk(edges@, r@.0),
        0 <= r@.1 < r@.0.len(),
        iedge(edges@, r@.0[r@.1] as int, r@.0.last() as int),
{
    let n = removed.len();
    let start = first_live(removed);
    let mut pos: Vec<usize> = Vec::new();
    let mut y: usize = 0;
    while y < n
        invariant
            y <= n,
            pos@.len() == y,
            forall|k: int| 0 <= k < y ==> pos@[k] == n,
        decreases n - y,
    {
        pos.push(n);
        y += 1;
    }
    proof {
        lemma_count_all(pos@, n);
        lemma_count_update(pos@, start as int, n, 0);
    }
    pos.set(start, 0);
    let mut path: Vec<usize> = Vec::new();
    path.push(start);
    loop
        invariant
            n == removed@.len(),
            forall|k: int| 0 <= k < edges@.len() ==> (#[trigger] edges@[k]).0 < n && edges@[k].1 < n,
            forall|w: int|
                0 <= w < n && !removed@[w] ==> exists|u: int| 0 <= u < n && !removed@[u] && #[trigger] iedge(edges@, u, w),
            pos@.len() == n,
            path@.len() >= 1,
            path@.len() + count_of(pos@, n) == n,
            forall|k: int| 0 <= k < path@.len() ==> (#[trigger] path@[k]) < n && !removed@[path@[k] as int]
                && pos@[path@[k] as int] == k,
            forall|w: int| 0 <= w < n && pos@[w] != n ==> pos@[w] < path@.len() && path@[pos@[w] as int] == w,
            back_walk(edges@, path@),
        decreases count_of(pos@, n),
    {
        let cur = path[path.len() - 1];
        let u = match has_live_pred(edges, removed, cur) {
            Some(u) => u,
            None => {
                proof {
                    assert(!removed@[cur as int]);
                    let w = choose|u: int| 0 <= u < n && !removed@[u] && #[trigger] iedge(edges@, u, cur as int);
                    let k = choose|k: int| 0 <= k < edges@.len() && (#[trigger] edges@[k]).0 == w && edges@[k].1 == cur;
                    assert(removed@[edges@[k].0 as int]);
                }
                return Ghost((path@, 0));
            },
        };
        if pos[u] != n {
            return Ghost((path@, pos@[u as int] as int));
        }
        proof {
            if path@.len() >= n {
                lemma_count_zero(pos@, n);
            }
            lemma_count_update(pos@, u as int, n, path@.len() as usize);
        }
        let ghost old_path = path@;
        pos.set(u, path.len());
        path.push(u);
        proof {
            assert forall|k: int| 0 <= k < path@.len() - 1 implies iedge(edges@, #[trigger] path@[k + 1] as int, path@[k] as int) by {
                if k < old_path.len() - 1 {
                    assert(path@[k + 1] == old_path[k + 1]);
                    assert(path@[k] == old_path[k]);
                }
            }
            assert forall|k: int| 0 <= k < path@.len() implies (#[trigger] path@[k]) < n && !removed@[path@[k] as int]
                && pos@[path@[k] as int] == k by {
                if k < old_path.len() {
                    assert(path@[k] == old_path[k]);
                }
            }
        }
    }
}

/// Are all entries set?
fn count_of_false_is_zero(removed: &Vec<bool>) -> (b: bool)
    ensures
        b == (count_of(removed@, false) == 0),
{
    proof {
        lemma_count_zero(removed@, false);
    }
    let mut k: usize = 0;
    while k < removed.len()
        invariant
            k <= removed@.len(),
            forall|j: int| 0 <= j < k ==> removed@[j],
        decreases removed@.len() - k,
    {
        if !removed[k] {
            proof {
                lemma_count_zero(removed@, false);
            }
            return false;
        }
        k += 1;
    }
    proof {
        lemma_count_zero(removed@, false);
    }
    true
}

/// The first entry not set (there is one).
fn first_live(removed: &Vec<bool>) -> (v: usize)
    requires
        count_of(removed@, false) > 0,
    ensures
        v < removed@.len(),
        !removed@[v as int],
{
    proof {
        lemma_count_zero(removed@, false);
    }
    let mut k: usize = 0;
    while k < removed.len()
        invariant
            k <= removed@.len(),
            exists|j: int| k <= j < removed@.len() && !removed@[j],
        decreases removed@.len() - k,
    {
        if !removed[k] {
            return k;
        }
        k += 1;
    }
    k
}


// ── Snapshots ───────────────────────────────────────────────────────────────

/// `ns` with `n` added: a node with the same id is replaced in place,
/// otherwise `n` goes last.
pub open spec fn insert_node<X>(ns: Seq<Node<X>>, n: Node<X>) -> Seq<Node<X>> {
    if has_node(ns, n.id@) {
        ns.update(node_pos(ns, n.id@), n)
    } else {
        ns.push(n)
    }
}

/// The nodes a snapshot's node list gives, added in order.
pub open spec fn build_nodes<X>(src: Seq<Node<X>>) -> Seq<Node<X>>
    decreases src.len(),
{
    if src.len() == 0 {
        Seq::empty()
    } else {
        insert_node(build_nodes(src.drop_last()), src.last())
    }
}

/// The routes a snapshot's route list gives over the nodes `ns`, with the
/// from→to pairs taken so far: in order, a route to or from an unknown node
/// is dropped, and so is any route whose pair was already taken.
pub open spec fn build_routes<X, A>(src: Seq<Route<A>>, ns: Seq<Node<X>>) -> (Seq<Route<A>>, Seq<(Seq<char>, Seq<char>)>)
    decreases src.len(),
{
    if src.len() == 0 {
        (Seq::empty(), Seq::empty())
    } else {
        let prev = build_routes(src.drop_last(), ns);
        let r = src.last();
        if has_node(ns, r.from_node@) && has_node(ns, r.to_node@) && !prev.1.contains(
            (r.from_node@, r.to_node@),
        ) {
            (insert_route(prev.0, r), prev.1.push((r.from_node@, r.to_node@)))
        } else {
            prev
        }
    }
}

/// The plain values of the pairs taken.
pub open spec fn pair_view(seen: Seq<(String, String)>) -> Seq<(Seq<char>, Seq<char>)> {
    seen.map_values(|p: (String, String)| (p.0@, p.1@))
}

/// Was the pair `from`→`to` taken?
fn pair_seen(seen: &Vec<(String, String)>, from: &str, to: &str) -> (b: bool)
    ensures
        b == pair_view(seen@).contains((from@, to@)),
{
    let mut i: usize = 0;
    while i < seen.len()
        invariant
            i <= seen@.len(),
            forall|j: int| 0 <= j < i ==> pair_view(seen@)[j] != (from@, to@),
        decreases seen@.len() - i,
    {
        if str_eq(seen[i].0.as_str(), from) && str_eq(seen[i].1.as_str(), to) {
            assert(pair_view(seen@)[i as int] == (from@, to@));
            return true;
        }
        i += 1;
    }
    false
}

impl<X, A> Graph<X, A> {
    /// Add a route whose ends exist and whose pair is new; a route with the
    /// same id is replaced in place.
    fn insert_route_unchecked(&mut self, route: Route<A>)
        requires
            old(self).wf(),
            has_node(old(self).node_seq(), route.from_node@),
            has_node(old(self).node_seq(), route.to_node@),
            !has_pair(old(self).route_seq(), route.from_node@, route.to_node@),
        ensures
            final(self).wf(),
            final(self).node_seq() == old(self).node_seq(),
            final(self).route_seq() == insert_route(old(self).route_seq(), route),
    {
        let ghost old_routes = self.routes@;
        match self.find_route(route.id.as_str()) {
            Some(k) => {
                self.routes.set(k, route);
                proof {
                    assert forall|a: int, b: int| 0 <= a < b < self.routes@.len() implies (
                    #[trigger] self.routes@[a]).id@ != (#[trigger] self.routes@[b]).id@ by {
                        if a != k && b != k {
                            assert(old_routes[a].id@ != old_routes[b].id@);
                        }
                    }
                }
            },
            None => {
                self.routes.push(route);
            },
        }
    }

    /// Replace the whole graph from a snapshot. A snapshot with a cycle is
    /// refused before anything changes. Otherwise the nodes are taken in
    /// order (a later node with an id already taken replaces it), then the
    /// routes, dropping those to or from unknown nodes and those repeating a
    /// from→to pair already taken.
    pub fn apply_snapshot(&mut self, snapshot: RoutingGraph<X, A>) -> (r: Result<(), GraphError>)
        requires
            old(self).wf(),
        ensures
            final(self).wf(),
            has_cycle(snapshot) ==> (r matches Err(GraphError::CycleDetected) && final(self).node_seq()
                == old(self).node_seq() && final(self).route_seq() == old(self).route_seq()),
            !has_cycle(snapshot) ==> (r is Ok && final(self).node_seq() == build_nodes(snapshot.nodes@)
                && final(self).route_seq() == build_routes(snapshot.routes@, build_nodes(snapshot.nodes@)).0),
            r is Ok ==> crate::bus::acyclic(final(self).node_seq(), final(self).route_seq()),
    {
        let ghost snap0 = snapshot;
        match detect_cycle(&snapshot) {
            Ok(()) => {},
            Err(e) => {
                return Err(e);
            },
        }
        let RoutingGraph { nodes: mut src_nodes, routes: mut src_routes } = snapshot;
        self.nodes = Vec::new();
        self.routes = Vec::new();
        let ghost orig_nodes = src_nodes@;
        let ghost mut k: int = 0;
        while src_nodes.len() > 0
            invariant
                0 <= k <= orig_nodes.len(),
                src_nodes@ == orig_nodes.skip(k),
                self.nodes@ == build_nodes(orig_nodes.take(k)),
                self.routes@.len() == 0,
                self.wf(),
            decreases orig_nodes.len() - k,
        {
            let node = src_nodes.remove(0);
            assert(orig_nodes.take(k + 1).drop_last() =~= orig_nodes.take(k));
            assert(orig_nodes.take(k + 1).last() == node);
            self.add_node(node);
            assert(src_nodes@ =~= orig_nodes.skip(k + 1));
            proof {
                k = k + 1;
            }
        }
        assert(orig_nodes.take(k) =~= orig_nodes);
        let ghost ns = self.nodes@;
        let ghost orig_routes = src_routes@;
        let mut seen: Vec<(String, String)> = Vec::new();
        let ghost mut q: int = 0;
        while src_routes.len() > 0
            invariant
                0 <= q <= orig_routes.len(),
                src_routes@ == orig_routes.skip(q),
                self.nodes@ == ns,
                self.routes@ == build_routes(orig_routes.take(q), ns).0,
                pair_view(seen@) == build_routes(orig_routes.take(q), ns).1,
                forall|i: int|
                    0 <= i < self.routes@.len() ==> pair_view(seen@).contains(
                        ((#[trigger] self.routes@[i]).from_node@, self.routes@[i].to_node@),
                    ),
                self.wf(),
            decreases orig_routes.len() - q,
        {
            let route = src_routes.remove(0);
            assert(orig_routes.take(q + 1).drop_last() =~= orig_routes.take(q));
            assert(orig_routes.take(q + 1).last() == route);
            let known = self.find_node(route.from_node.as_str()).is_some() && self.find_node(
                route.to_node.as_str(),
            ).is_some();
            if known && !pair_seen(&seen, route.from_node.as_str(), route.to_node.as_str()) {
                let ghost old_seen = seen@;
                let ghost old_routes = self.routes@;
                seen.push((route.from_node.clone(), route.to_node.clone()));
                assert(pair_view(seen@) =~= pair_view(old_seen).push((route.from_node@, route.to_node@)));
                assert(!has_pair(self.routes@, route.from_node@, route.to_node@)) by {
                    if has_pair(self.routes@, route.from_node@, route.to_node@) {
                        let i = choose|i: int| 0 <= i < self.routes@.len() && (#[trigger] self.routes@[i]).from_node@
                            == route.from_node@ && self.routes@[i].to_node@ == route.to_node@;
                        assert(pair_view(old_seen).contains((self.routes@[i].from_node@, self.routes@[i].to_node@)));
                    }
                }
                let ghost r = route;
                self.insert_route_unchecked(route);
                proof {
                    assert forall|i: int| 0 <= i < self.routes@.len() implies pair_view(seen@).contains(
                        ((#[trigger] self.routes@[i]).from_node@, self.routes@[i].to_node@),
                    ) by {
                        if self.routes@[i] == r {
                            assert(pair_view(seen@)[pair_view(seen@).len() - 1] == (r.from_node@, r.to_node@));
                        } else {
                            if has_route(old_routes, r.id@) {
                                assert(self.routes@[i] == old_routes[i]);
                            } else {
                                assert(self.routes@[i] == old_routes[i]);
                            }
                            let j = choose|j: int| 0 <= j < pair_view(old_seen).len() && pair_view(old_seen)[j]
                                == (old_routes[i].from_node@, old_routes[i].to_node@);
                            assert(pair_view(seen@)[j] == pair_view(old_seen)[j]);
                        }
                    }
                }
            }
            assert(src_routes@ =~= orig_routes.skip(q + 1));
            proof {
                q = q + 1;
            }
        }
        assert(orig_routes.take(q) =~= orig_routes);
        proof {
            crate::bus::lemma_applied_acyclic(snap0);
        }
        Ok(())
    }
}


// ── Resolution into device routes ───────────────────────────────────────────

/// An Fx node on a resolved route, with its settings.
#[derive(Debug, Clone)]
pub struct FxInstance<X> {
    pub node_id: String,
    pub spec: X,
}

/// Where a route touches a Mixer or Splitter: the edge of the hub's row,
/// and the last effect before that point (whose output is the signal
/// there), `None` when the signal comes straight off the source.
#[derive(Debug, Clone)]
pub struct HubTap {
    pub edge: String,
    pub after_fx: Option<String>,
}

/// One source-to-device route of the graph, hubs and effects inlined. Its
/// volume is the product of its chain's volumes and its balance the final
/// edge's, both read from the graph by route id.
#[derive(Debug, Clone)]
pub struct ActiveRoute<X> {
    /// The final edge into the output.
    pub route_id: String,
    /// The effects traversed, in signal order.
    pub fx_chain: Vec<FxInstance<X>>,
    /// Every edge traversed, source to output.
    pub chain: Vec<String>,
    pub from_device_id: String,
    pub exe_name: Option<String>,
    /// The source is a Nodus virtual endpoint (read from the driver's ring).
    pub from_is_virtual: bool,
    pub to_device_id: String,
    /// The destination is the Nodus virtual microphone (written into the
    /// driver's mic ring).
    pub to_is_virtual_mic: bool,
    /// Some edge of the chain is muted.
    pub muted: bool,
    /// The hub rows the route passes, in signal order.
    pub hub_taps: Vec<HubTap>,
}

/// The node a route leads to.
pub open spec fn dest_node<X, A>(ns: Seq<Node<X>>, r: Route<A>) -> Node<X> {
    ns[node_pos(ns, r.to_node@)]
}

/// The route paths from a node, given the routes `rs` leaving it (in
/// order) at depth `d`: an edge into an output (or virtual endpoint) with a
/// device ends a path; an edge into a hub or an effect continues with every
/// path from there, one level deeper; nothing goes deeper than 16 levels.
pub open spec fn paths_via<X, A>(ns: Seq<Node<X>>, all: Seq<Route<A>>, rs: Seq<Route<A>>, d: int) -> Seq<Seq<Route<A>>>
    decreases 17 - d, rs.len(),
{
    if d > 16 || d < 0 || rs.len() == 0 {
        Seq::empty()
    } else {
        paths_via(ns, all, rs.drop_last(), d) + paths_of_edge(ns, all, rs.last(), d)
    }
}

/// The paths that start with edge `r` at depth `d`.
pub open spec fn paths_of_edge<X, A>(ns: Seq<Node<X>>, all: Seq<Route<A>>, r: Route<A>, d: int) -> Seq<Seq<Route<A>>>
    decreases 17 - d, 0nat,
{
    if d > 16 || d < 0 || !has_node(ns, r.to_node@) {
        Seq::empty()
    } else {
        let dest = dest_node(ns, r);
        match dest.node_type {
            NodeType::Output | NodeType::Virtual => if dest.device_id@.len() > 0 {
                seq![seq![r]]
            } else {
                Seq::empty()
            },
            NodeType::Splitter | NodeType::Mixer | NodeType::Fx => paths_via(
                ns,
                all,
                routes_leaving(all, dest.id@),
                d + 1,
            ).map_values(|p: Seq<Route<A>>| seq![r] + p),
            NodeType::Source => Seq::empty(),
        }
    }
}

/// The effects a path passes, in order.
pub open spec fn fx_along<X, A>(ns: Seq<Node<X>>, p: Seq<Route<A>>) -> Seq<(Seq<char>, X)>
    decreases p.len(),
{
    if p.len() == 0 {
        Seq::empty()
    } else {
        let rest = fx_along(ns, p.drop_last());
        let d = dest_node(ns, p.last());
        if d.node_type == NodeType::Fx && d.fx is Some {
            rest.push((d.id@, d.fx->0))
        } else {
            rest
        }
    }
}

/// The id of the last effect passed, if any.
pub open spec fn last_fx_id<X>(f: Seq<(Seq<char>, X)>) -> Option<Seq<char>> {
    if f.len() == 0 {
        None
    } else {
        Some(f.last().0)
    }
}

/// The hub rows a path from `s` passes: an edge leaving a splitter is a
/// row, and so is an edge landing on a mixer or splitter; each records the
/// last effect before it.
pub open spec fn taps_along<X, A>(ns: Seq<Node<X>>, s: Node<X>, p: Seq<Route<A>>) -> Seq<(Seq<char>, Option<Seq<char>>)>
    decreases p.len(),
{
    if p.len() == 0 {
        Seq::empty()
    } else {
        let q = p.drop_last();
        let e = p.last();
        let after = last_fx_id(fx_along(ns, q));
        let from = if q.len() == 0 {
            s
        } else {
            dest_node(ns, q.last())
        };
        let t1 = if from.node_type == NodeType::Splitter {
            taps_along(ns, s, q).push((e.id@, after))
        } else {
            taps_along(ns, s, q)
        };
        let d = dest_node(ns, e);
        if d.node_type == NodeType::Splitter || d.node_type == NodeType::Mixer {
            t1.push((e.id@, after))
        } else {
            t1
        }
    }
}

/// Some edge of the path is muted.
pub open spec fn muted_along<A>(p: Seq<Route<A>>) -> bool {
    exists|i: int| 0 <= i < p.len() && (#[trigger] p[i]).muted
}

/// The plain values of an effect list.
pub open spec fn fx_view<X>(f: Seq<FxInstance<X>>) -> Seq<(Seq<char>, X)> {
    f.map_values(|x: FxInstance<X>| (x.node_id@, x.spec))
}

/// The plain values of a tap list.
pub open spec fn taps_view(t: Seq<HubTap>) -> Seq<(Seq<char>, Option<Seq<char>>)> {
    t.map_values(|x: HubTap| (x.edge@, opt_view(&x.after_fx)))
}

/// The plain values of an id list.
pub open spec fn ids_view(c: Seq<String>) -> Seq<Seq<char>> {
    c.map_values(|x: String| x@)
}

/// `ar` is the route path `p` from source `s` resolves to.
pub open spec fn active_is<X, A>(ar: ActiveRoute<X>, ns: Seq<Node<X>>, s: Node<X>, p: Seq<Route<A>>) -> bool {
    let dest = dest_node(ns, p.last());
    &&& p.len() >= 1
    &&& ar.route_id@ == p.last().id@
    &&& ids_view(ar.chain@) == p.map_values(|r: Route<A>| r.id@)
    &&& fx_view(ar.fx_chain@) == fx_along(ns, p)
    &&& ar.from_device_id@ == s.device_id@
    &&& opt_view(&ar.exe_name) == opt_view(&s.exe_name)
    &&& ar.from_is_virtual == nodus_marker(lowercase_of(s.label@))
    &&& ar.to_device_id@ == dest.device_id@
    &&& ar.to_is_virtual_mic == nodus_mic_marker(lowercase_of(dest.label@))
    &&& ar.muted == muted_along(p)
    &&& taps_view(ar.hub_taps@) == taps_along(ns, s, p)
}

/// A node routes start from: a source or virtual endpoint with a device or
/// an app.
pub open spec fn starts_routes<X>(n: Node<X>) -> bool {
    (n.node_type == NodeType::Source || n.node_type == NodeType::Virtual) && (n.device_id@.len() > 0
        || n.exe_name is Some)
}

/// The (source position, path) pairs the first `k` nodes give, in order.
pub open spec fn resolved<X, A>(ns: Seq<Node<X>>, rs: Seq<Route<A>>, k: int) -> Seq<(int, Seq<Route<A>>)>
    decreases k,
{
    if k <= 0 {
        Seq::empty()
    } else {
        let prev = resolved(ns, rs, k - 1);
        if starts_routes(ns[k - 1]) {
            prev + paths_via(ns, rs, routes_leaving(rs, ns[k - 1].id@), 0).map_values(
                |p: Seq<Route<A>>| (k - 1, p),
            )
        } else {
            prev
        }
    }
}

fn copy_strings(v: &Vec<String>) -> (r: Vec<String>)
    ensures
        r@ == v@,
{
    let mut r: Vec<String> = Vec::new();
    let mut i: usize = 0;
    while i < v.len()
        invariant
            i <= v@.len(),
            r@ == v@.take(i as int),
        decreases v@.len() - i,
    {
        r.push(v[i].clone());
        assert(r@ =~= v@.take(i + 1));
        i += 1;
    }
    assert(v@.take(i as int) =~= v@);
    r
}

fn copy_opt(o: &Option<String>) -> (r: Option<String>)
    ensures
        r == *o,
{
    match o {
        Some(s) => Some(s.clone()),
        None => None,
    }
}

fn copy_taps(v: &Vec<HubTap>) -> (r: Vec<HubTap>)
    ensures
        r@ == v@,
{
    let mut r: Vec<HubTap> = Vec::new();
    let mut i: usize = 0;
    while i < v.len()
        invariant
            i <= v@.len(),
            r@ == v@.take(i as int),
        decreases v@.len() - i,
    {
        r.push(HubTap { edge: v[i].edge.clone(), after_fx: copy_opt(&v[i].after_fx) });
        assert(r@ =~= v@.take(i + 1));
        i += 1;
    }
    assert(v@.take(i as int) =~= v@);
    r
}

fn copy_fx<X: Copy>(v: &Vec<FxInstance<X>>) -> (r: Vec<FxInstance<X>>)
    ensures
        r@ == v@,
{
    let mut r: Vec<FxInstance<X>> = Vec::new();
    let mut i: usize = 0;
    while i < v.len()
        invariant
            i <= v@.len(),
            r@ == v@.take(i as int),
        decreases v@.len() - i,
    {
        r.push(FxInstance { node_id: v[i].node_id.clone(), spec: v[i].spec });
        assert(r@ =~= v@.take(i + 1));
        i += 1;
    }
    assert(v@.take(i as int) =~= v@);
    r
}


proof fn lemma_routes_leaving_sub<A>(rs: Seq<Route<A>>, id: Seq<char>)
    ensures
        forall|i: int|
            0 <= i < routes_leaving(rs, id).len() ==> (#[trigger] routes_leaving(rs, id)[i]).from_node@ == id
                && exists|j: int| 0 <= j < rs.len() && rs[j] == routes_leaving(rs, id)[i],
    decreases rs.len(),
{
    if rs.len() > 0 {
        lemma_routes_leaving_sub(rs.drop_last(), id);
        let rest = routes_leaving(rs.drop_last(), id);
        assert forall|i: int| 0 <= i < routes_leaving(rs, id).len() implies (#[trigger] routes_leaving(
            rs,
            id,
        )[i]).from_node@ == id && exists|j: int| 0 <= j < rs.len() && rs[j] == routes_leaving(rs, id)[i] by {
            if i < rest.len() {
                let j = choose|j: int| 0 <= j < rs.drop_last().len() && rs.drop_last()[j] == rest[i];
                assert(rs[j] == routes_leaving(rs, id)[i]);
            } else {
                assert(rs[rs.len() - 1] == routes_leaving(rs, id)[i]);
            }
        }
    }
}

/// `r` is one of the routes `rs`.
pub open spec fn in_routes<A>(rs: Seq<Route<A>>, r: Route<A>) -> bool {
    exists|j: int| 0 <= j < rs.len() && rs[j] == r
}

/// `p` is a route path from node `from` found at depth `d`: one edge at
/// least and at most `17 - d`, every edge a route of `all` starting where
/// the one before ended, the first leaving `from`, the last arriving at an
/// output or virtual endpoint with a device.
pub open spec fn path_ok<X, A>(ns: Seq<Node<X>>, all: Seq<Route<A>>, from: Seq<char>, p: Seq<Route<A>>, d: int) -> bool {
    &&& 1 <= p.len() <= 17 - d
    &&& p[0].from_node@ == from
    &&& forall|i: int| 0 <= i < p.len() ==> in_routes(all, #[trigger] p[i])
    &&& forall|i: int| 0 <= i < p.len() - 1 ==> (#[trigger] p[i]).to_node@ == p[i + 1].from_node@
    &&& has_node(ns, p.last().to_node@)
    &&& dest_node(ns, p.last()).device_id@.len() > 0
}

proof fn lemma_paths_via_ok<X, A>(ns: Seq<Node<X>>, all: Seq<Route<A>>, rs: Seq<Route<A>>, d: int, from: Seq<char>)
    requires
        0 <= d,
        forall|i: int| 0 <= i < rs.len() ==> in_routes(all, #[trigger] rs[i]) && rs[i].from_node@ == from,
    ensures
        forall|j: int| 0 <= j < paths_via(ns, all, rs, d).len() ==> path_ok(ns, all, from, #[trigger] paths_via(ns, all, rs, d)[j], d),
    decreases 17 - d, rs.len(),
{
    if d > 16 || rs.len() == 0 {
    } else {
        let pre = rs.drop_last();
        assert forall|i: int| 0 <= i < pre.len() implies in_routes(all, #[trigger] pre[i]) && pre[i].from_node@ == from by {
            assert(pre[i] == rs[i]);
        }
        lemma_paths_via_ok(ns, all, pre, d, from);
        assert(in_routes(all, rs[rs.len() - 1]));
        lemma_paths_edge_ok(ns, all, rs.last(), d, from);
        let a = paths_via(ns, all, pre, d);
        let b = paths_of_edge(ns, all, rs.last(), d);
        assert forall|j: int| 0 <= j < paths_via(ns, all, rs, d).len() implies path_ok(ns, all, from, #[trigger] paths_via(ns, all, rs, d)[j], d) by {
            if j < a.len() {
                assert(paths_via(ns, all, rs, d)[j] == a[j]);
            } else {
                assert(paths_via(ns, all, rs, d)[j] == b[j - a.len()]);
            }
        }
    }
}

proof fn lemma_paths_edge_ok<X, A>(ns: Seq<Node<X>>, all: Seq<Route<A>>, r: Route<A>, d: int, from: Seq<char>)
    requires
        0 <= d,
        in_routes(all, r),
        r.from_node@ == from,
    ensures
        forall|j: int| 0 <= j < paths_of_edge(ns, all, r, d).len() ==> path_ok(ns, all, from, #[trigger] paths_of_edge(ns, all, r, d)[j], d),
    decreases 17 - d, 0nat,
{
    if d > 16 || !has_node(ns, r.to_node@) {
    } else {
        let dest = dest_node(ns, r);
        assert(dest.id@ == r.to_node@);
        match dest.node_type {
            NodeType::Output | NodeType::Virtual => {
                if dest.device_id@.len() > 0 {
                    let q = seq![r];
                    assert(q.last() == r);
                    assert(path_ok(ns, all, from, q, d));
                }
            },
            NodeType::Splitter | NodeType::Mixer | NodeType::Fx => {
                let lv = routes_leaving(all, dest.id@);
                lemma_routes_leaving_sub(all, dest.id@);
                assert forall|i: int| 0 <= i < lv.len() implies in_routes(all, #[trigger] lv[i]) && lv[i].from_node@ == dest.id@ by {
                    let j = choose|j: int| 0 <= j < all.len() && all[j] == lv[i];
                }
                lemma_paths_via_ok(ns, all, lv, d + 1, dest.id@);
                let pv = paths_via(ns, all, lv, d + 1);
                assert forall|j: int| 0 <= j < paths_of_edge(ns, all, r, d).len() implies path_ok(ns, all, from, #[trigger] paths_of_edge(ns, all, r, d)[j], d) by {
                    let q = pv[j];
                    assert(path_ok(ns, all, dest.id@, q, d + 1));
                    let p = seq![r] + q;
                    assert(paths_of_edge(ns, all, r, d)[j] == p);
                    assert(p[0] == r);
                    assert(p.last() == q.last());
                    assert forall|i: int| 0 <= i < p.len() implies in_routes(all, #[trigger] p[i]) by {
                        if i > 0 {
                            assert(p[i] == q[i - 1]);
                        }
                    }
                    assert forall|i: int| 0 <= i < p.len() - 1 implies (#[trigger] p[i]).to_node@ == p[i + 1].from_node@ by {
                        if i > 0 {
                            assert(p[i] == q[i - 1]);
                            assert(p[i + 1] == q[i]);
                        } else {
                            assert(p[1] == q[0]);
                        }
                    }
                }
            },
            NodeType::Source => {},
        }
    }
}

/// Every path the resolution gives is a route path from its source.
pub proof fn lemma_resolved_are_paths<X, A>(ns: Seq<Node<X>>, rs: Seq<Route<A>>, k: int)
    requires
        0 <= k <= ns.len(),
    ensures
        forall|i: int|
            0 <= i < resolved(ns, rs, k).len() ==> 0 <= (#[trigger] resolved(ns, rs, k)[i]).0 < k && path_ok(
                ns,
                rs,
                ns[resolved(ns, rs, k)[i].0].id@,
                resolved(ns, rs, k)[i].1,
                0,
            ),
    decreases k,
{
    if k > 0 {
        lemma_resolved_are_paths(ns, rs, k - 1);
        let prev = resolved(ns, rs, k - 1);
        if starts_routes(ns[k - 1]) {
            let lv = routes_leaving(rs, ns[k - 1].id@);
            lemma_routes_leaving_sub(rs, ns[k - 1].id@);
            assert forall|i: int| 0 <= i < lv.len() implies in_routes(rs, #[trigger] lv[i]) && lv[i].from_node@ == ns[k - 1].id@ by {
                let j = choose|j: int| 0 <= j < rs.len() && rs[j] == lv[i];
            }
            lemma_paths_via_ok(ns, rs, lv, 0, ns[k - 1].id@);
            let pv = paths_via(ns, rs, lv, 0);
            let rv = resolved(ns, rs, k);
            assert forall|i: int| 0 <= i < rv.len() implies 0 <= (#[trigger] rv[i]).0 < k && path_ok(ns, rs, ns[rv[i].0].id@, rv[i].1, 0) by {
                if i < prev.len() {
                    assert(rv[i] == prev[i]);
                } else {
                    assert(rv[i] == (k - 1, pv[i - prev.len()]));
                }
            }
        }
    }
}

/// Every route the resolution gives ends with its own route: its chain is
/// at most 17 edges, leaves its source first and ends at a device; and it is
/// muted exactly when some route of its chain, looked up in the graph, is.
pub proof fn lemma_active_route_shape<X, A>(ar: ActiveRoute<X>, ns: Seq<Node<X>>, rs: Seq<Route<A>>, s: Node<X>, p: Seq<Route<A>>)
    requires
        graph_wf(ns, rs),
        active_is(ar, ns, s, p),
        path_ok(ns, rs, s.id@, p, 0),
    ensures
        1 <= ar.chain@.len() <= 17,
        ar.chain@.last()@ == ar.route_id@,
        has_route(rs, ar.chain@[0]@) && rs[route_pos(rs, ar.chain@[0]@)].from_node@ == s.id@,
        ar.from_device_id@ == s.device_id@,
        ar.to_device_id@.len() > 0,
        ar.muted <==> exists|i: int| 0 <= i < ar.chain@.len() && #[trigger] rs[route_pos(rs, ar.chain@[i]@)].muted,
{
    let ids = p.map_values(|r: Route<A>| r.id@);
    assert(ids_view(ar.chain@) == ids);
    assert(ar.chain@.len() == p.len());
    assert forall|i: int| 0 <= i < p.len() implies (#[trigger] ar.chain@[i])@ == p[i].id@ && has_route(rs, p[i].id@)
        && rs[route_pos(rs, p[i].id@)] == p[i] by {
        assert(ids_view(ar.chain@)[i] == ids[i]);
        assert(in_routes(rs, p[i]));
        let j = choose|j: int| 0 <= j < rs.len() && rs[j] == p[i];
        let q = route_pos(rs, p[i].id@);
        if q != j {
            if q < j {
                assert(rs[q].id@ != rs[j].id@);
            } else {
                assert(rs[j].id@ != rs[q].id@);
            }
        }
    }
    assert(ar.chain@[p.len() - 1]@ == p[p.len() - 1].id@);
    assert(ar.chain@[0]@ == p[0].id@);
    if ar.muted {
        let i = choose|i: int| 0 <= i < p.len() && (#[trigger] p[i]).muted;
        assert(ar.chain@[i]@ == p[i].id@);
        assert(rs[route_pos(rs, ar.chain@[i]@)].muted);
    }
    if exists|i: int| 0 <= i < ar.chain@.len() && #[trigger] rs[route_pos(rs, ar.chain@[i]@)].muted {
        let i = choose|i: int| 0 <= i < ar.chain@.len() && #[trigger] rs[route_pos(rs, ar.chain@[i]@)].muted;
        assert(ar.chain@[i]@ == p[i].id@);
        assert(p[i].muted);
        assert(muted_along(p));
    }
}

proof fn lemma_muted_push<A>(p: Seq<Route<A>>, r: Route<A>)
    ensures
        muted_along(p.push(r)) == (muted_along(p) || r.muted),
{
    if muted_along(p) {
        let i = choose|i: int| 0 <= i < p.len() && (#[trigger] p[i]).muted;
        assert(p.push(r)[i] == p[i]);
    }
    if r.muted {
        assert(p.push(r)[p.len() as int] == r);
    }
    if muted_along(p.push(r)) {
        let i = choose|i: int| 0 <= i < p.push(r).len() && (#[trigger] p.push(r)[i]).muted;
        if i < p.len() {
            assert(p.push(r)[i] == p[i]);
        }
    }
}

impl<X: Copy, A> Graph<X, A> {
    /// Every path from `cur` (reached by `pre` from source `s`), appended to
    /// `out` as the routes it resolves to.
    #[verifier::rlimit(60)]
    fn collect_device_routes(
        &self,
        cur: &String,
        s: &Node<X>,
        Ghost(si): Ghost<int>,
        Ghost(pre): Ghost<Seq<Route<A>>>,
        chain: &Vec<String>,
        fx_chain: &Vec<FxInstance<X>>,
        hub_taps: &Vec<HubTap>,
        muted: bool,
        out: &mut Vec<ActiveRoute<X>>,
        depth: usize,
    )
        requires
            self.wf(),
            0 <= si < self.nodes@.len(),
            *s == self.nodes@[si],
            depth <= 17,
            cur@ == (if pre.len() == 0 {
                s.id@
            } else {
                pre.last().to_node@
            }),
            pre.len() > 0 ==> has_node(self.nodes@, pre.last().to_node@),
            ids_view(chain@) == pre.map_values(|r: Route<A>| r.id@),
            fx_view(fx_chain@) == fx_along(self.nodes@, pre),
            taps_view(hub_taps@) == taps_along(self.nodes@, *s, pre),
            muted == muted_along(pre),
        ensures
            ({
                let pp = paths_via(self.nodes@, self.routes@, routes_leaving(self.routes@, cur@), depth as int);
                &&& final(out)@.len() == old(out)@.len() + pp.len()
                &&& forall|i: int| 0 <= i < old(out)@.len() ==> final(out)@[i] == old(out)@[i]
                &&& forall|i: int|
                    0 <= i < pp.len() ==> #[trigger] active_is(final(out)@[old(out)@.len() + i], self.nodes@, *s, pre + pp[i])
            }),
        decreases 17 - depth,
    {
        let ghost ns = self.nodes@;
        let ghost rs = self.routes@;
        let ghost lv = routes_leaving(rs, cur@);
        if depth > 16 {
            return;
        }
        let from_splitter = match self.get_node(cur.as_str()) {
            Some(n) => n.node_type == NodeType::Splitter,
            None => false,
        };
        proof {
            let from = if pre.len() == 0 {
                *s
            } else {
                dest_node(ns, pre.last())
            };
            if pre.len() == 0 {
                assert(ns[si].id@ == cur@);
                let q = node_pos(ns, cur@);
                assert(ns[q].id@ == cur@);
                assert(q == si);
            }
            assert(from_splitter == (from.node_type == NodeType::Splitter));
            lemma_routes_leaving_sub(rs, cur@);
        }
        let last_fx: Option<String> = if fx_chain.len() > 0 {
            Some(fx_chain[fx_chain.len() - 1].node_id.clone())
        } else {
            None
        };
        assert(opt_view(&last_fx) == last_fx_id(fx_along(ns, pre))) by {
            if fx_chain@.len() > 0 {
                assert(fx_view(fx_chain@)[fx_chain@.len() - 1] == (fx_chain@[fx_chain@.len() - 1].node_id@, fx_chain@[fx_chain@.len() - 1].spec));
            }
        }
        let leaving = self.routes_from(cur.as_str());
        let ghost base = out@.len();
        let mut i: usize = 0;
        while i < leaving.len()
            invariant
                self.wf(),
                ns == self.nodes@,
                rs == self.routes@,
                0 <= si < ns.len(),
                *s == ns[si],
                depth <= 16,
                lv == routes_leaving(rs, cur@),
                leaving@.len() == lv.len(),
                forall|j: int| 0 <= j < leaving@.len() ==> *leaving@[j] == lv[j],
                forall|j: int|
                    0 <= j < lv.len() ==> (#[trigger] lv[j]).from_node@ == cur@ && exists|k: int|
                        0 <= k < rs.len() && rs[k] == lv[j],
                cur@ == (if pre.len() == 0 {
                    s.id@
                } else {
                    pre.last().to_node@
                }),
                ids_view(chain@) == pre.map_values(|r: Route<A>| r.id@),
                fx_view(fx_chain@) == fx_along(ns, pre),
                taps_view(hub_taps@) == taps_along(ns, *s, pre),
                muted == muted_along(pre),
                opt_view(&last_fx) == last_fx_id(fx_along(ns, pre)),
                from_splitter == ((if pre.len() == 0 {
                    *s
                } else {
                    dest_node(ns, pre.last())
                }).node_type == NodeType::Splitter),
                i <= leaving@.len(),
                base <= out@.len(),
                out@.len() == base + paths_via(ns, rs, lv.take(i as int), depth as int).len(),
                forall|j: int| 0 <= j < base ==> out@[j] == old(out)@[j],
                base == old(out)@.len(),
                forall|j: int|
                    0 <= j < paths_via(ns, rs, lv.take(i as int), depth as int).len() ==> #[trigger] active_is(
                        out@[base + j],
                        ns,
                        *s,
                        pre + paths_via(ns, rs, lv.take(i as int), depth as int)[j],
                    ),
            decreases leaving@.len() - i,
        {
            let r = leaving[i];
            let ghost rv = *r;
            assert(rv == lv[i as int]);
            assert(lv.take(i + 1).drop_last() =~= lv.take(i as int));
            assert(lv.take(i + 1).last() == rv);
            let ghost before = paths_via(ns, rs, lv.take(i as int), depth as int);
            let ghost pe = paths_of_edge(ns, rs, rv, depth as int);
            assert(paths_via(ns, rs, lv.take(i + 1), depth as int) == before + pe);
            let ghost pre2 = pre.push(rv);
            let ghost out_before = out@;
            proof {
                let k = choose|k: int| 0 <= k < rs.len() && rs[k] == lv[i as int];
                assert(has_node(ns, rs[k].to_node@));
                lemma_muted_push(pre, rv);
                assert(pre2.drop_last() =~= pre);
            }
            let m2 = muted || r.muted;
            let mut chain2 = copy_strings(chain);
            let rid = r.id.clone();
            chain2.push(rid);
            proof {
                assert(ids_view(chain@).len() == chain@.len());
                assert(pre.map_values(|x: Route<A>| x.id@).len() == pre.len());
                assert(chain2@.len() == pre2.len());
                assert forall|j: int| 0 <= j < chain2@.len() implies (#[trigger] chain2@[j])@ == pre2[j].id@ by {
                    if j < pre.len() {
                        assert(chain2@[j] == chain@[j]);
                        assert(ids_view(chain@)[j] == pre.map_values(|x: Route<A>| x.id@)[j]);
                        assert(pre2[j] == pre[j]);
                    } else {
                        assert(chain2@[j] == rid);
                        assert(pre2[j] == rv);
                    }
                }
                assert(ids_view(chain2@) =~= pre2.map_values(|x: Route<A>| x.id@));
            }
            let mut taps2 = copy_taps(hub_taps);
            if from_splitter {
                taps2.push(HubTap { edge: r.id.clone(), after_fx: copy_opt(&last_fx) });
            }
            let dest = match self.get_node(r.to_node.as_str()) {
                Some(d) => d,
                None => {
                    assert(false);
                    return;
                },
            };
            assert(*dest == dest_node(ns, rv));
            match dest.node_type {
                NodeType::Output | NodeType::Virtual => {
                    if dest.device_id.unicode_len() > 0 {
                        let ar = ActiveRoute {
                            route_id: r.id.clone(),
                            fx_chain: copy_fx(fx_chain),
                            chain: chain2,
                            from_device_id: s.device_id.clone(),
                            exe_name: copy_opt(&s.exe_name),
                            from_is_virtual: is_nodus_virtual_name(s.label.as_str()),
                            to_device_id: dest.device_id.clone(),
                            to_is_virtual_mic: is_nodus_virtual_mic_name(dest.label.as_str()),
                            muted: m2,
                            hub_taps: taps2,
                        };
                        proof {
                            assert(pe == seq![seq![rv]]);
                            assert(pre + pe[0] =~= pre2);
                            assert(fx_along(ns, pre2) == fx_along(ns, pre));
                            assert(taps_view(ar.hub_taps@) =~= taps_along(ns, *s, pre2));
                            assert(active_is(ar, ns, *s, pre + pe[0]));
                        }
                        out.push(ar);
                        proof {
                            assert(out@.len() == out_before.len() + pe.len());
                            assert(forall|j: int| 0 <= j < out_before.len() ==> out@[j] == out_before[j]);
                            assert forall|jj: int| 0 <= jj < pe.len() implies active_is(out@[out_before.len() + jj], ns, *s, pre + pe[jj]) by {
                                assert(jj == 0);
                                assert(out@[out_before.len() as int] == ar);
                            }
                        }
                    } else {
                        assert(pe.len() == 0);
                        assert(pe =~= Seq::<Seq<Route<A>>>::empty());
                    }
                },
                NodeType::Splitter | NodeType::Mixer => {
                    taps2.push(HubTap { edge: r.id.clone(), after_fx: copy_opt(&last_fx) });
                    proof {
                        assert(taps_view(taps2@) =~= taps_along(ns, *s, pre2));
                        assert(fx_along(ns, pre2) == fx_along(ns, pre));
                    }
                    self.collect_device_routes(
                        &dest.id,
                        s,
                        Ghost(si),
                        Ghost(pre2),
                        &chain2,
                        fx_chain,
                        &taps2,
                        m2,
                        out,
                        depth + 1,
                    );
                    proof {
                        let sub = paths_via(ns, rs, routes_leaving(rs, dest.id@), depth + 1);
                        assert(pe =~= sub.map_values(|p: Seq<Route<A>>| seq![rv] + p));
                        assert forall|jj: int| 0 <= jj < pe.len() implies active_is(out@[out_before.len() + jj], ns, *s, pre + pe[jj]) by {
                            assert(pre + pe[jj] =~= pre2 + sub[jj]);
                            assert(active_is(out@[out_before.len() + jj], ns, *s, pre2 + sub[jj]));
                        }
                    }
                },
                NodeType::Fx => {
                    let mut fx2 = copy_fx(fx_chain);
                    match dest.fx {
                        Some(spec) => {
                            fx2.push(FxInstance { node_id: dest.id.clone(), spec });
                        },
                        None => {},
                    }
                    proof {
                        assert(fx_view(fx2@) =~= fx_along(ns, pre2));
                        assert(taps_view(taps2@) =~= taps_along(ns, *s, pre2));
                    }
                    self.collect_device_routes(
                        &dest.id,
                        s,
                        Ghost(si),
                        Ghost(pre2),
                        &chain2,
                        &fx2,
                        &taps2,
                        m2,
                        out,
                        depth + 1,
                    );
                    proof {
                        let sub = paths_via(ns, rs, routes_leaving(rs, dest.id@), depth + 1);
                        assert(pe =~= sub.map_values(|p: Seq<Route<A>>| seq![rv] + p));
                        assert forall|jj: int| 0 <= jj < pe.len() implies active_is(out@[out_before.len() + jj], ns, *s, pre + pe[jj]) by {
                            assert(pre + pe[jj] =~= pre2 + sub[jj]);
                            assert(active_is(out@[out_before.len() + jj], ns, *s, pre2 + sub[jj]));
                        }
                    }
                },
                NodeType::Source => {
                    assert(pe =~= Seq::<Seq<Route<A>>>::empty());
                },
            }
            proof {
                let after = before + pe;
                assert(paths_via(ns, rs, lv.take(i + 1), depth as int) == after);
                assert forall|j: int| 0 <= j < after.len() implies #[trigger] active_is(
                    out@[base + j],
                    ns,
                    *s,
                    pre + after[j],
                ) by {
                    if j < before.len() {
                        assert(after[j] == before[j]);
                        assert(out@[base + j] == out_before[base + j]);
                    } else {
                        let jj = j - before.len();
                        assert(after[j] == pe[jj]);
                        assert(base + j == out_before.len() + jj);
                    }
                }
            }
            i += 1;
        }
        assert(lv.take(i as int) =~= lv);
    }

    /// Resolve the graph into device-level routes for the engine: every
    /// path from each source (in node order) through hubs and effects to an
    /// output with a device, as `resolved` states it.
    pub fn resolve_device_routes(&self) -> (out: Vec<ActiveRoute<X>>)
        requires
            self.wf(),
        ensures
            ({
                let rv = resolved(self.node_seq(), self.route_seq(), self.node_seq().len() as int);
                &&& out@.len() == rv.len()
                &&& forall|i: int|
                    0 <= i < rv.len() ==> 0 <= rv[i].0 < self.node_seq().len() && #[trigger] active_is(
                        out@[i],
                        self.node_seq(),
                        self.node_seq()[rv[i].0],
                        rv[i].1,
                    )
            }),
    {
        let mut out: Vec<ActiveRoute<X>> = Vec::new();
        let mut k: usize = 0;
        let empty_chain: Vec<String> = Vec::new();
        let empty_fx: Vec<FxInstance<X>> = Vec::new();
        let empty_taps: Vec<HubTap> = Vec::new();
        assert(ids_view(empty_chain@) =~= Seq::<Route<A>>::empty().map_values(|r: Route<A>| r.id@));
        assert(fx_view(empty_fx@) =~= Seq::<(Seq<char>, X)>::empty());
        assert(taps_view(empty_taps@) =~= Seq::<(Seq<char>, Option<Seq<char>>)>::empty());
        while k < self.nodes.len()
            invariant
                self.wf(),
                k <= self.nodes@.len(),
                empty_chain@.len() == 0,
                empty_fx@.len() == 0,
                empty_taps@.len() == 0,
                ids_view(empty_chain@) == Seq::<Route<A>>::empty().map_values(|r: Route<A>| r.id@),
                fx_view(empty_fx@) == Seq::<(Seq<char>, X)>::empty(),
                taps_view(empty_taps@) == Seq::<(Seq<char>, Option<Seq<char>>)>::empty(),
                out@.len() == resolved(self.nodes@, self.routes@, k as int).len(),
                forall|i: int|
                    0 <= i < resolved(self.nodes@, self.routes@, k as int).len() ==> #[trigger] active_is(
                        out@[i],
                        self.nodes@,
                        self.nodes@[resolved(self.nodes@, self.routes@, k as int)[i].0],
                        resolved(self.nodes@, self.routes@, k as int)[i].1,
                    ),
            decreases self.nodes@.len() - k,
        {
            let n = &self.nodes[k];
            let t = n.node_type;
            let starts = (t == NodeType::Source || t == NodeType::Virtual) && (n.device_id.unicode_len() > 0
                || n.exe_name.is_some());
            if starts {
                let ghost before = out@;
                let ghost prev = resolved(self.nodes@, self.routes@, k as int);
                self.collect_device_routes(
                    &n.id,
                    n,
                    Ghost(k as int),
                    Ghost(Seq::empty()),
                    &empty_chain,
                    &empty_fx,
                    &empty_taps,
                    false,
                    &mut out,
                    0,
                );
                proof {
                    let pp = paths_via(self.nodes@, self.routes@, routes_leaving(self.routes@, n.id@), 0);
                    let now = resolved(self.nodes@, self.routes@, k + 1);
                    assert(now == prev + pp.map_values(|p: Seq<Route<A>>| (k as int, p)));
                    assert forall|i: int| 0 <= i < now.len() implies #[trigger] active_is(
                        out@[i],
                        self.nodes@,
                        self.nodes@[now[i].0],
                        now[i].1,
                    ) by {
                        if i < prev.len() {
                            assert(out@[i] == before[i]);
                            assert(now[i] == prev[i]);
                            assert(active_is(before[i], self.nodes@, self.nodes@[prev[i].0], prev[i].1));
                        } else {
                            let j = i - prev.len();
                            assert(Seq::<Route<A>>::empty() + pp[j] =~= pp[j]);
                            assert(now[i] == (k as int, pp[j]));
                            assert(now[i].0 == k);
                            assert(active_is(out@[before.len() + j], self.nodes@, *n, Seq::<Route<A>>::empty() + pp[j]));
                            assert(out@[i] == out@[before.len() + j]);
                        }
                    }
                }
            } else {
                proof {
                    assert(resolved(self.nodes@, self.routes@, k + 1) == resolved(self.nodes@, self.routes@, k as int));
                }
            }
            k += 1;
        }
        proof {
            lemma_resolved_bound(self.nodes@, self.routes@, k as int);
        }
        out
    }
}

proof fn lemma_resolved_bound<X, A>(ns: Seq<Node<X>>, rs: Seq<Route<A>>, k: int)
    ensures
        forall|i: int| 0 <= i < resolved(ns, rs, k).len() ==> 0 <= (#[trigger] resolved(ns, rs, k)[i]).0 < k,
    decreases k,
{
    if k > 0 {
        lemma_resolved_bound(ns, rs, k - 1);
        let prev = resolved(ns, rs, k - 1);
        if starts_routes(ns[k - 1]) {
            let pp = paths_via(ns, rs, routes_leaving(rs, ns[k - 1].id@), 0);
            assert forall|i: int| 0 <= i < resolved(ns, rs, k).len() implies 0 <= (#[trigger] resolved(
                ns,
                rs,
                k,
            )[i]).0 < k by {
                if i < prev.len() {
                    assert(resolved(ns, rs, k)[i] == prev[i]);
                } else {
                    assert(resolved(ns, rs, k)[i] == (k - 1, pp[i - prev.len()]));
                }
            }
        }
    }
}

} // verus!
