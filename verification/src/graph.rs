//! The graph of states. A node is a district, a purpose and a time bin; an
//! edge is a trip made by a mode, leading from the state in which it starts
//! to the state in which the activity at its destination can begin.

use std::collections::HashMap;

use petgraph::graph::EdgeIndex;
use petgraph::graph::NodeIndex;
use petgraph::Direction::Outgoing;
use vstd::prelude::*;

use crate::capacities::Capacities;
use crate::capacities::Ledger;
use crate::districts;
use crate::purposes::Purpose;
use crate::reference::ReferenceData;
use crate::time_bins;
use crate::time_bins::TimeBin;

verus! {

/// A state: being in a district for a purpose at a time of day.
#[derive(PartialEq, Eq, Hash, Clone, Copy, Debug, Structural)]
pub struct Node {
    pub district_id: districts::Id,
    pub purpose: Purpose,
    pub time_bin: TimeBin,
}

/// What an edge carries: the trip record it comes from, by its position in
/// the trip table, that trip's category, and the mode by which it is made.
#[derive(PartialEq, Eq, Hash, Clone, Copy, Debug, Structural)]
pub struct Edge {
    pub trip: usize,
    pub category: usize,
    pub mode: usize,
}

/// The graph type of petgraph, declared so that it can be held and handed
/// on. Nothing is known of a value of it but what the functions below
/// state, and what they state is taken from petgraph's source and believed,
/// not proved.
#[verifier::external_type_specification]
#[verifier::external_body]
#[verifier::reject_recursive_types(N)]
#[verifier::reject_recursive_types(E)]
#[verifier::reject_recursive_types(Ty)]
#[verifier::reject_recursive_types(Ix)]
pub struct ExPetgraph<N, E, Ty, Ix>(petgraph::graph::Graph<N, E, Ty, Ix>);

/// The marker of petgraph for graphs with directed edges.
#[verifier::external_type_specification]
#[verifier::external_body]
pub struct ExDirected(petgraph::Directed);

/// The weights of the nodes of a petgraph graph, by node index.
pub uninterp spec fn node_weights(g: petgraph::graph::Graph<Node, Edge>) -> Seq<Node>;

/// The edges of a petgraph graph, by edge index: source node, target node
/// and weight.
pub uninterp spec fn edge_links(g: petgraph::graph::Graph<Node, Edge>) -> Seq<(usize, usize, Edge)>;

/// For each node of a petgraph graph, the indices of its outgoing edges in
/// the order in which `first_edge` and `next_edge` walk them.
pub uninterp spec fn out_lists(g: petgraph::graph::Graph<Node, Edge>) -> Seq<Seq<usize>>;

/// `petgraph::graph::Graph::new`: a graph without nodes and edges.
#[verifier::external_body]
fn pg_new() -> (g: petgraph::graph::Graph<Node, Edge>)
    ensures
        node_weights(g) == Seq::<Node>::empty(),
        edge_links(g) == Seq::<(usize, usize, Edge)>::empty(),
        out_lists(g) == Seq::<Seq<usize>>::empty(),
{
    petgraph::graph::Graph::new()
}

/// `petgraph::graph::Graph::node_count`: the number of nodes.
#[verifier::external_body]
fn pg_node_count(g: &petgraph::graph::Graph<Node, Edge>) -> (n: usize)
    ensures
        n == node_weights(*g).len(),
{
    g.node_count()
}

/// `petgraph::graph::Graph::first_edge` in the outgoing direction: the head
/// of the node's list of outgoing edges.
#[verifier::external_body]
fn pg_first_edge(g: &petgraph::graph::Graph<Node, Edge>, a: usize) -> (first: Option<usize>)
    requires
        a < node_weights(*g).len(),
    ensures
        first == if out_lists(*g)[a as int].len() == 0 {
            None
        } else {
            Some(out_lists(*g)[a as int][0])
        },
{
    g.first_edge(NodeIndex::new(a), Outgoing).map(|e| e.index())
}

/// `petgraph::graph::Graph::edge_count`: the number of edges.
#[verifier::external_body]
fn pg_edge_count(g: &petgraph::graph::Graph<Node, Edge>) -> (n: usize)
    ensures
        n == edge_links(*g).len(),
{
    g.edge_count()
}

/// `petgraph::graph::Graph::add_node`: appends a node without edges and
/// returns its index. The call panics on a graph with `u32::MAX` nodes.
#[verifier::external_body]
fn pg_add_node(g: &mut petgraph::graph::Graph<Node, Edge>, weight: Node) -> (a: usize)
    requires
        node_weights(*old(g)).len() < u32::MAX,
    ensures
        a == node_weights(*old(g)).len(),
        node_weights(*final(g)) == node_weights(*old(g)).push(weight),
        edge_links(*final(g)) == edge_links(*old(g)),
        out_lists(*final(g)) == out_lists(*old(g)).push(Seq::<usize>::empty()),
{
    g.add_node(weight).index()
}

/// `petgraph::graph::Graph::add_edge`: appends an edge from `a` to `b`,
/// puts it at the head of the outgoing edges of `a`, and returns its index.
/// The call panics if a node is missing or the graph has `u32::MAX` edges.
#[verifier::external_body]
fn pg_add_edge(g: &mut petgraph::graph::Graph<Node, Edge>, a: usize, b: usize, weight: Edge) -> (e:
    usize)
    requires
        a < node_weights(*old(g)).len(),
        b < node_weights(*old(g)).len(),
        edge_links(*old(g)).len() < u32::MAX,
    ensures
        e == edge_links(*old(g)).len(),
        node_weights(*final(g)) == node_weights(*old(g)),
        edge_links(*final(g)) == edge_links(*old(g)).push((a, b, weight)),
        out_lists(*final(g)) == out_lists(*old(g)).update(
            a as int,
            seq![e] + out_lists(*old(g))[a as int],
        ),
{
    g.add_edge(NodeIndex::new(a), NodeIndex::new(b), weight).index()
}

/// `petgraph::graph::Graph::node_weight` of a node that exists.
#[verifier::external_body]
fn pg_node_weight(g: &petgraph::graph::Graph<Node, Edge>, a: usize) -> (weight: &Node)
    requires
        a < node_weights(*g).len(),
    ensures
        *weight == node_weights(*g)[a as int],
{
    g.node_weight(NodeIndex::new(a)).unwrap()
}

/// `petgraph::graph::Graph::edge_weight` of an edge that exists.
#[verifier::external_body]
fn pg_edge_weight(g: &petgraph::graph::Graph<Node, Edge>, e: usize) -> (weight: &Edge)
    requires
        e < edge_links(*g).len(),
    ensures
        *weight == edge_links(*g)[e as int].2,
{
    g.edge_weight(EdgeIndex::new(e)).unwrap()
}

/// `petgraph::graph::Graph::edge_endpoints` of an edge that exists: its
/// source and its target.
#[verifier::external_body]
fn pg_edge_endpoints(g: &petgraph::graph::Graph<Node, Edge>, e: usize) -> (ends: (usize, usize))
    requires
        e < edge_links(*g).len(),
    ensures
        ends.0 == edge_links(*g)[e as int].0,
        ends.1 == edge_links(*g)[e as int].1,
{
    let (a, b) = g.edge_endpoints(EdgeIndex::new(e)).unwrap();
    (a.index(), b.index())
}

/// `petgraph::graph::Graph::next_edge` in the outgoing direction: the edge
/// that follows `e` in the list of outgoing edges of its source.
#[verifier::external_body]
fn pg_next_edge(g: &petgraph::graph::Graph<Node, Edge>, e: usize) -> (next: Option<usize>)
    requires
        e < edge_links(*g).len(),
    ensures
        forall|p: int|
            0 <= p < out_lists(*g)[edge_links(*g)[e as int].0 as int].len() && #[trigger] out_lists(
                *g,
            )[edge_links(*g)[e as int].0 as int][p] == e ==> next == if p + 1 < out_lists(
                *g,
            )[edge_links(*g)[e as int].0 as int].len() {
                Some(out_lists(*g)[edge_links(*g)[e as int].0 as int][p + 1])
            } else {
                None
            },
{
    g.next_edge(EdgeIndex::new(e), Outgoing).map(|n| n.index())
}

/// `petgraph::graph::Graph::shrink_to_fit`: gives back spare memory and
/// leaves the graph as it is.
#[verifier::external_body]
fn pg_shrink_to_fit(g: &mut petgraph::graph::Graph<Node, Edge>)
    ensures
        node_weights(*final(g)) == node_weights(*old(g)),
        edge_links(*final(g)) == edge_links(*old(g)),
        out_lists(*final(g)) == out_lists(*old(g)),
{
    g.shrink_to_fit()
}

/// What a graph holds: the nodes by index, the edges by index with source,
/// target and weight, and for each node the indices of its outgoing edges
/// in the order in which they are walked.
pub struct GraphView {
    pub nodes: Seq<Node>,
    pub links: Seq<(usize, usize, Edge)>,
    pub out: Seq<Seq<usize>>,
}

impl GraphView {
    /// The node at which edge `e` starts.
    pub open spec fn source(self, e: int) -> int {
        self.links[e].0 as int
    }

    /// The node to which edge `e` leads.
    pub open spec fn target(self, e: int) -> int {
        self.links[e].1 as int
    }

    /// What edge `e` carries.
    pub open spec fn weight(self, e: int) -> Edge {
        self.links[e].2
    }

    /// The edge at position `p` among the outgoing edges of node `n`, if
    /// the node has that many.
    pub open spec fn out_at(self, n: int, p: int) -> Option<usize> {
        if 0 <= p < self.out[n].len() {
            Some(self.out[n][p])
        } else {
            None
        }
    }

    /// Edge `e` stands at position `p` among the outgoing edges of its
    /// source.
    pub open spec fn stands_at(self, e: int, p: int) -> bool {
        0 <= p < self.out[self.source(e)].len() && self.out[self.source(e)][p] == e
    }

    /// Edge `e`, which is `link`, stands among the outgoing edges of its
    /// source.
    pub open spec fn listed(self, link: (usize, usize, Edge), e: int) -> bool {
        exists|p: int| #[trigger] self.stands_at(e, p)
    }

    /// The nodes, edges and lists fit together: edges join nodes of the
    /// graph, and the outgoing edges of a node are the edges that start at
    /// it, each listed once. Every node has a time bin of the day.
    pub open spec fn wf(self) -> bool {
        &&& self.out.len() == self.nodes.len()
        &&& forall|e: int|
            0 <= e < self.links.len() ==> (#[trigger] self.links[e]).0 < self.nodes.len()
                && self.links[e].1 < self.nodes.len()
        &&& forall|n: int, p: int|
            0 <= n < self.out.len() && 0 <= p < self.out[n].len() ==> (#[trigger] self.out[n][p])
                < self.links.len() && self.links[self.out[n][p] as int].0 == n
        &&& forall|n: int, p: int, q: int|
            0 <= n < self.out.len() && 0 <= p < q < self.out[n].len() ==> #[trigger] self.out[n][p]
                != #[trigger] self.out[n][q]
        &&& forall|e: int|
            0 <= e < self.links.len() ==> self.listed(#[trigger] self.links[e], e)
        &&& forall|n: int| 0 <= n < self.nodes.len() ==> (#[trigger] self.nodes[n]).time_bin@ < 48
    }
}

/// The graph of states.
pub struct StateGraph(petgraph::graph::Graph<Node, Edge>);

impl View for StateGraph {
    type V = GraphView;

    closed spec fn view(&self) -> GraphView {
        GraphView { nodes: node_weights(self.0), links: edge_links(self.0), out: out_lists(self.0) }
    }
}

impl StateGraph {
    #[verifier::type_invariant]
    spec fn linked(self) -> bool {
        self@.wf()
    }

    /// The indices of the nodes, in order.
    pub fn node_indices(&self) -> (indices: Vec<usize>)
        ensures
            self@.wf(),
            indices.len() == self@.nodes.len(),
            forall|i: int| 0 <= i < indices.len() ==> #[trigger] indices[i] == i,
    {
        proof {
            use_type_invariant(self);
        }
        let n = pg_node_count(&self.0);
        let mut indices: Vec<usize> = Vec::new();
        let mut i: usize = 0;
        while i < n
            invariant
                i <= n,
                indices.len() == i,
                forall|k: int| 0 <= k < i ==> #[trigger] indices[k] == k,
            decreases n - i,
        {
            indices.push(i);
            i = i + 1;
        }
        indices
    }

    /// The number of nodes.
    pub fn node_count(&self) -> (n: usize)
        ensures
            self@.wf(),
            n == self@.nodes.len(),
    {
        proof {
            use_type_invariant(self);
        }
        pg_node_count(&self.0)
    }

    /// The number of edges.
    pub fn edge_count(&self) -> (n: usize)
        ensures
            self@.wf(),
            n == self@.links.len(),
    {
        proof {
            use_type_invariant(self);
        }
        pg_edge_count(&self.0)
    }

    /// The state that a node stands for.
    pub fn node(&self, node_index: usize) -> (node: &Node)
        requires
            node_index < self@.nodes.len(),
        ensures
            *node == self@.nodes[node_index as int],
    {
        pg_node_weight(&self.0, node_index)
    }

    /// What an edge carries.
    pub fn edge(&self, edge_index: usize) -> (edge: &Edge)
        requires
            edge_index < self@.links.len(),
        ensures
            *edge == self@.weight(edge_index as int),
    {
        pg_edge_weight(&self.0, edge_index)
    }

    /// The first of the outgoing edges of a node, if it has any.
    pub fn first_edge(&self, node_index: usize) -> (first: Option<usize>)
        requires
            node_index < self@.nodes.len(),
        ensures
            first == self@.out_at(node_index as int, 0),
            first.is_some() ==> first.unwrap() < self@.links.len() && self@.source(
                first.unwrap() as int,
            ) == node_index,
    {
        proof {
            use_type_invariant(self);
            if self@.out[node_index as int].len() > 0 {
                assert(self@.out[node_index as int][0] < self@.links.len());
            }
        }
        pg_first_edge(&self.0, node_index)
    }

    /// The edge that follows an edge among the outgoing edges of its source,
    /// if one does.
    pub fn next_edge(&self, edge_index: usize) -> (next: Option<usize>)
        requires
            edge_index < self@.links.len(),
        ensures
            forall|p: int| #[trigger]
                self@.stands_at(edge_index as int, p) ==> next == self@.out_at(
                    self@.source(edge_index as int),
                    p + 1,
                ),
            next.is_some() ==> next.unwrap() < self@.links.len() && self@.source(
                next.unwrap() as int,
            ) == self@.source(edge_index as int),
    {
        proof {
            use_type_invariant(self);
        }
        let next = pg_next_edge(&self.0, edge_index);
        proof {
            let view = self@;
            let s = view.source(edge_index as int);
            assert(view.listed(view.links[edge_index as int], edge_index as int));
            let p = choose|p: int| #[trigger] view.stands_at(edge_index as int, p);
            assert(view.out[s][p] == edge_index);
            assert forall|q: int| #[trigger]
                view.stands_at(edge_index as int, q) implies next == view.out_at(s, q + 1) by {
                assert(view.out[s][q] == edge_index);
            }
            if next.is_some() {
                assert(view.out[s][p + 1] < view.links.len());
            }
        }
        next
    }

    /// The node at which an edge starts.
    pub fn source_index(&self, edge_index: usize) -> (source: usize)
        requires
            edge_index < self@.links.len(),
        ensures
            source == self@.source(edge_index as int),
            source < self@.nodes.len(),
    {
        proof {
            use_type_invariant(self);
        }
        pg_edge_endpoints(&self.0, edge_index).0
    }

    /// The node to which an edge leads.
    pub fn target_index(&self, edge_index: usize) -> (target: usize)
        requires
            edge_index < self@.links.len(),
        ensures
            target == self@.target(edge_index as int),
            target < self@.nodes.len(),
    {
        proof {
            use_type_invariant(self);
        }
        pg_edge_endpoints(&self.0, edge_index).1
    }
}

/// What a petgraph graph holds.
pub open spec fn view_of(g: petgraph::graph::Graph<Node, Edge>) -> GraphView {
    GraphView { nodes: node_weights(g), links: edge_links(g), out: out_lists(g) }
}

/// The state in which trip `t` starts when it starts in bin `b`.
pub open spec fn source_node(data: ReferenceData, t: int, b: int) -> Node {
    let trip = data.trips[t];
    Node {
        district_id: data.districts[trip.origin as int].id,
        purpose: data.categories[trip.category as int].origin,
        time_bin: TimeBin::at(b as nat),
    }
}

/// The state to which trip `t` leads when it starts in bin `b`: the
/// destination, for the purpose of the destination, at the time at which
/// the activity left behind has taken its nominal duration.
pub open spec fn target_node(data: ReferenceData, t: int, b: int) -> Node {
    let trip = data.trips[t];
    let category = data.categories[trip.category as int];
    Node {
        district_id: data.districts[trip.destination as int].id,
        purpose: category.destination,
        time_bin: TimeBin::at(time_bins::bin_after(b as nat, category.origin.spec_duration())),
    }
}

/// The trip that edge `e` of a freshly built graph with `modes` modes
/// comes from.
pub open spec fn trip_of(e: int, modes: int) -> int {
    (e / modes) / 48
}

/// The time bin in which edge `e` of a freshly built graph starts.
pub open spec fn bin_of(e: int, modes: int) -> int {
    (e / modes) % 48
}

/// The mode of edge `e` of a freshly built graph.
pub open spec fn mode_of(e: int, modes: int) -> int {
    e % modes
}

/// The states with one more: `state` is added at the end unless it is
/// among them.
pub open spec fn with_state(states: Seq<Node>, state: Node) -> Seq<Node> {
    if states.contains(state) {
        states
    } else {
        states.push(state)
    }
}

/// The states that the first `edges` edges of the graph of the reference
/// data touch, each once, in the order in which the edges first touch them,
/// the source of an edge before its target.
pub open spec fn states_upto(data: ReferenceData, edges: int) -> Seq<Node>
    decreases edges,
{
    if edges <= 0 {
        Seq::empty()
    } else {
        let modes = data.modes.len() as int;
        let e = edges - 1;
        with_state(
            with_state(
                states_upto(data, e),
                source_node(data, trip_of(e, modes), bin_of(e, modes)),
            ),
            target_node(data, trip_of(e, modes), bin_of(e, modes)),
        )
    }
}

/// Of the first `edges` edges, those that start at node `n`, from the
/// newest to the oldest.
pub open spec fn outs_upto(links: Seq<(usize, usize, Edge)>, n: int, edges: int) -> Seq<usize>
    decreases edges,
{
    if edges <= 0 {
        Seq::empty()
    } else if links[edges - 1].0 == n {
        seq![(edges - 1) as usize] + outs_upto(links, n, edges - 1)
    } else {
        outs_upto(links, n, edges - 1)
    }
}

/// Node `n` is the source or the target of an edge.
pub open spec fn in_use(g: GraphView, n: int) -> bool {
    exists|e: int| 0 <= e < g.links.len() && (#[trigger] g.links[e].0 == n || g.links[e].1 == n)
}

/// The outgoing edges of every node are listed from the newest to the
/// oldest.
pub open spec fn newest_first(g: GraphView) -> bool {
    forall|n: int, p: int, q: int|
        0 <= n < g.out.len() && 0 <= p < q < g.out[n].len() ==> #[trigger] g.out[n][p]
            > #[trigger] g.out[n][q]
}

/// `g` is the graph of the reference data: there is one edge for each trip,
/// time bin and mode, numbered in that order, from the state in which the
/// trip starts to the state to which it leads; the nodes are the states
/// that an edge starts at or leads to, each once, numbered in the order in
/// which the edges first touch them; and every node lists its outgoing
/// edges from the newest to the oldest.
pub open spec fn built_from(g: GraphView, data: ReferenceData) -> bool {
    let modes = data.modes.len() as int;
    &&& g.wf()
    &&& g.links.len() == data.trips.len() * 48 * modes
    &&& forall|e: int|
        0 <= e < g.links.len() ==> {
            &&& 0 <= trip_of(e, modes) < data.trips.len()
            &&& (#[trigger] g.links[e]).2 == (Edge {
                trip: trip_of(e, modes) as usize,
                category: data.trips[trip_of(e, modes)].category,
                mode: mode_of(e, modes) as usize,
            })
            &&& g.nodes[g.source(e)] == source_node(data, trip_of(e, modes), bin_of(e, modes))
            &&& g.nodes[g.target(e)] == target_node(data, trip_of(e, modes), bin_of(e, modes))
        }
    &&& forall|i: int, j: int|
        0 <= i < j < g.nodes.len() ==> #[trigger] g.nodes[i] != #[trigger] g.nodes[j]
    &&& forall|n: int| 0 <= n < g.nodes.len() ==> #[trigger] in_use(g, n)
    &&& newest_first(g)
    &&& g.nodes == states_upto(data, g.links.len() as int)
    &&& forall|n: int|
        0 <= n < g.nodes.len() ==> #[trigger] g.out[n] == outs_upto(
            g.links,
            n,
            g.links.len() as int,
        )
}

/// The number under which a node is remembered while the graph is built.
pub open spec fn node_key(node: Node) -> int {
    (node.district_id@ * 6 + node.purpose.spec_index()) * 48 + node.time_bin@
}

/// The registry knows every node under its key, and nothing else.
pub open spec fn registry_matches(registry: Map<u64, usize>, nodes: Seq<Node>) -> bool {
    &&& forall|n: int|
        0 <= n < nodes.len() ==> registry.contains_key(node_key(#[trigger] nodes[n]) as u64)
            && registry[node_key(nodes[n]) as u64] == n
    &&& forall|key: u64| #[trigger]
        registry.contains_key(key) ==> registry[key] < nodes.len() && node_key(
            nodes[registry[key] as int],
        ) == key
}

proof fn lemma_node_key(a: Node, b: Node)
    requires
        a.time_bin@ < 48,
        b.time_bin@ < 48,
        node_key(a) == node_key(b),
    ensures
        a == b,
        0 <= node_key(a) < 18874368,
{
    TimeBin::lemma_view_injective(a.time_bin, b.time_bin);
}

/// Registered nodes are pairwise different and fewer than there are keys.
proof fn lemma_registered_nodes(registry: Map<u64, usize>, g: GraphView)
    requires
        g.wf(),
        registry_matches(registry, g.nodes),
    ensures
        forall|i: int, j: int|
            0 <= i < j < g.nodes.len() ==> #[trigger] g.nodes[i] != #[trigger] g.nodes[j],
        g.nodes.len() <= 18874368,
{
    let keys = Seq::new(g.nodes.len(), |n: int| node_key(g.nodes[n]));
    assert forall|i: int, j: int| 0 <= i < j < g.nodes.len() implies #[trigger] g.nodes[i]
        != #[trigger] g.nodes[j] by {
        if g.nodes[i] == g.nodes[j] {
            assert(registry[node_key(g.nodes[i]) as u64] == i);
            assert(registry[node_key(g.nodes[j]) as u64] == j);
        }
    }
    assert forall|i: int, j: int| 0 <= i < keys.len() && 0 <= j < keys.len() && i != j implies keys[i]
        != keys[j] by {
        if keys[i] == keys[j] {
            lemma_node_key(g.nodes[i], g.nodes[j]);
            if i < j {
                assert(g.nodes[i] != g.nodes[j]);
            } else {
                assert(g.nodes[j] != g.nodes[i]);
            }
        }
    }
    assert(keys.no_duplicates());
    keys.unique_seq_to_set();
    let range = vstd::set_lib::set_int_range(0, 18874368);
    vstd::set_lib::lemma_int_range(0, 18874368);
    assert(keys.to_set().subset_of(range)) by {
        assert forall|key: int| keys.to_set().contains(key) implies range.contains(key) by {
            let n = choose|n: int| 0 <= n < keys.len() && keys[n] == key;
            lemma_node_key(g.nodes[n], g.nodes[n]);
        }
    }
    vstd::set_lib::lemma_len_subset(keys.to_set(), range);
}

fn key_of(node: &Node) -> (key: u64)
    ensures
        key == node_key(*node),
        node.time_bin@ < 48,
{
    let bin = node.time_bin.value() as u64;
    (node.district_id.value() as u64 * 6 + node.purpose.index() as u64) * 48 + bin
}

/// The index of `node` in the graph, which gets the node if it lacks it.
fn ensure_node(
    g: &mut petgraph::graph::Graph<Node, Edge>,
    registry: &mut HashMap<u64, usize>,
    node: Node,
) -> (index: usize)
    requires
        view_of(*old(g)).wf(),
        registry_matches(old(registry)@, view_of(*old(g)).nodes),
    ensures
        view_of(*final(g)).wf(),
        registry_matches(final(registry)@, view_of(*final(g)).nodes),
        view_of(*final(g)).links == view_of(*old(g)).links,
        index < view_of(*final(g)).nodes.len(),
        view_of(*final(g)).nodes[index as int] == node,
        index < view_of(*old(g)).nodes.len() ==> view_of(*final(g)) == view_of(*old(g)),
        index >= view_of(*old(g)).nodes.len() ==> {
            &&& index == view_of(*old(g)).nodes.len()
            &&& view_of(*final(g)).nodes == view_of(*old(g)).nodes.push(node)
            &&& view_of(*final(g)).out == view_of(*old(g)).out.push(Seq::<usize>::empty())
        },
        view_of(*final(g)).nodes == with_state(view_of(*old(g)).nodes, node),
{
    broadcast use vstd::std_specs::hash::group_hash_axioms;

    let key = key_of(&node);
    let ghost before = view_of(*g);
    match registry.get(&key) {
        Some(index) => {
            proof {
                lemma_node_key(before.nodes[*index as int], node);
                assert(before.nodes[*index as int] == node);
            }
            *index
        },
        None => {
            proof {
                lemma_registered_nodes(registry@, before);
                if before.nodes.contains(node) {
                    let n = choose|n: int| 0 <= n < before.nodes.len() && before.nodes[n] == node;
                    assert(registry@.contains_key(node_key(before.nodes[n]) as u64));
                }
            }
            let index = pg_add_node(g, node);
            registry.insert(key, index);
            proof {
                let after = view_of(*g);
                let known = registry@;
                assert forall|n: int| 0 <= n < after.nodes.len() implies known.contains_key(
                    node_key(#[trigger] after.nodes[n]) as u64,
                ) && known[node_key(after.nodes[n]) as u64] == n by {
                    if n < before.nodes.len() {
                        assert(after.nodes[n] == before.nodes[n]);
                        lemma_node_key(before.nodes[n], before.nodes[n]);
                    }
                }
                assert forall|n: int, p: int|
                    0 <= n < after.out.len() && 0 <= p < after.out[n].len() implies (
                #[trigger] after.out[n][p]) < after.links.len() && after.links[after.out[n][p] as int].0
                    == n by {
                    assert(after.out[n] == before.out[n]);
                    assert(before.out[n][p] < before.links.len());
                }
                assert forall|n: int, p: int, q: int|
                    0 <= n < after.out.len() && 0 <= p < q < after.out[n].len() implies
                    #[trigger] after.out[n][p] != #[trigger] after.out[n][q] by {
                    assert(after.out[n] == before.out[n]);
                    assert(before.out[n][p] != before.out[n][q]);
                }
                assert forall|e: int| 0 <= e < after.links.len() implies after.listed(
                    #[trigger] after.links[e],
                    e,
                ) by {
                    assert(before.listed(before.links[e], e));
                    let p = choose|p: int| #[trigger] before.stands_at(e, p);
                    assert(after.out[after.source(e)] == before.out[before.source(e)]);
                    assert(after.stands_at(e, p));
                }
            }
            index
        },
    }
}

proof fn lemma_add_edge(old: GraphView, new: GraphView, a: usize, b: usize, weight: Edge)
    requires
        old.wf(),
        newest_first(old),
        a < old.nodes.len(),
        b < old.nodes.len(),
        old.links.len() < usize::MAX,
        new.nodes == old.nodes,
        new.links == old.links.push((a, b, weight)),
        new.out == old.out.update(a as int, seq![old.links.len() as usize] + old.out[a as int]),
    ensures
        new.wf(),
        newest_first(new),
{
    let e = old.links.len() as int;
    let grown = seq![e as usize] + old.out[a as int];
    assert forall|n: int, p: int| 0 <= n < new.out.len() && 0 <= p < new.out[n].len() implies (
    #[trigger] new.out[n][p]) < new.links.len() && new.links[new.out[n][p] as int].0 == n by {
        if n == a {
            if p > 0 {
                assert(grown[p] == old.out[n][p - 1]);
                assert(old.out[n][p - 1] < old.links.len());
            }
        } else {
            assert(old.out[n][p] < old.links.len());
        }
    }
    assert forall|n: int, p: int, q: int|
        0 <= n < new.out.len() && 0 <= p < q < new.out[n].len() implies #[trigger] new.out[n][p]
        > #[trigger] new.out[n][q] by {
        if n == a {
            assert(grown[q] == old.out[n][q - 1]);
            assert(old.out[n][q - 1] < old.links.len());
            if p > 0 {
                assert(grown[p] == old.out[n][p - 1]);
                assert(old.out[n][p - 1] > old.out[n][q - 1]);
            }
        } else {
            assert(old.out[n][p] > old.out[n][q]);
        }
    }
    assert forall|x: int| 0 <= x < new.links.len() implies new.listed(
        #[trigger] new.links[x],
        x,
    ) by {
        if x == e {
            assert(grown[0] == e);
            assert(new.stands_at(x, 0));
        } else {
            assert(old.listed(old.links[x], x));
            let p = choose|p: int| #[trigger] old.stands_at(x, p);
            if old.source(x) == a {
                assert(grown[p + 1] == old.out[a as int][p]);
                assert(new.stands_at(x, p + 1));
            } else {
                assert(new.stands_at(x, p));
            }
        }
    }
    assert forall|x: int| 0 <= x < new.links.len() implies (#[trigger] new.links[x]).0
        < new.nodes.len() && new.links[x].1 < new.nodes.len() by {
        if x < e {
            assert(old.links[x].0 < old.nodes.len());
        }
    }
}

/// The outgoing edges among the first edges do not change when edges are
/// added behind them.
proof fn lemma_outs_grow(
    before: Seq<(usize, usize, Edge)>,
    after: Seq<(usize, usize, Edge)>,
    n: int,
    edges: int,
)
    requires
        0 <= edges <= before.len(),
        before.len() <= after.len(),
        forall|e: int| 0 <= e < before.len() ==> #[trigger] after[e] == before[e],
    ensures
        outs_upto(after, n, edges) == outs_upto(before, n, edges),
    decreases edges,
{
    if edges > 0 {
        lemma_outs_grow(before, after, n, edges - 1);
        assert(after[edges - 1] == before[edges - 1]);
    }
}

/// No edge starts at a node that the graph does not have yet.
proof fn lemma_outs_of_new_node(g: GraphView, n: int)
    requires
        g.wf(),
        n >= g.nodes.len(),
    ensures
        forall|edges: int|
            0 <= edges <= g.links.len() ==> #[trigger] outs_upto(g.links, n, edges)
                == Seq::<usize>::empty(),
{
    assert forall|edges: int| 0 <= edges <= g.links.len() implies #[trigger] outs_upto(
        g.links,
        n,
        edges,
    ) == Seq::<usize>::empty() by {
        lemma_no_outs(g, n, edges);
    }
}

proof fn lemma_no_outs(g: GraphView, n: int, edges: int)
    requires
        g.wf(),
        n >= g.nodes.len(),
        0 <= edges <= g.links.len(),
    ensures
        outs_upto(g.links, n, edges) == Seq::<usize>::empty(),
    decreases edges,
{
    if edges > 0 {
        lemma_no_outs(g, n, edges - 1);
        assert(g.links[edges - 1].0 < g.nodes.len());
    }
}

proof fn lemma_edge_number(t: int, b: int, k: int, trips: int, modes: int)
    requires
        0 <= t < trips,
        0 <= b < 48,
        0 <= k < modes,
    ensures
        0 <= (t * 48 + b) * modes + k < trips * 48 * modes,
        trip_of((t * 48 + b) * modes + k, modes) == t,
        bin_of((t * 48 + b) * modes + k, modes) == b,
        mode_of((t * 48 + b) * modes + k, modes) == k,
        (t * 48 + b) * modes + k + 1 == if k + 1 < modes {
            (t * 48 + b) * modes + (k + 1)
        } else if b + 1 < 48 {
            (t * 48 + (b + 1)) * modes + 0
        } else {
            ((t + 1) * 48 + 0) * modes + 0
        },
{
    let row = t * 48 + b;
    let e = row * modes + k;
    vstd::arithmetic::div_mod::lemma_fundamental_div_mod_converse(e, modes, row, k);
    vstd::arithmetic::div_mod::lemma_fundamental_div_mod_converse(row, 48, t, b);
    assert(0 <= row * modes && e < trips * 48 * modes) by (nonlinear_arith)
        requires
            0 <= row <= trips * 48 - 1,
            0 <= k < modes,
            e == row * modes + k,
    ;
    assert((row + 1) * modes == row * modes + modes) by (nonlinear_arith);
}

impl StateGraph {
    /// Builds the graph of the reference data: one edge for every trip,
    /// time bin and mode, between the states computed from them. A state
    /// that several edges touch is one node.
    pub fn new(data: &ReferenceData) -> (graph: StateGraph)
        requires
            data.wf(),
            data.trips.len() * 48 * data.modes.len() < u32::MAX,
        ensures
            built_from(graph@, *data),
    {
        let mut g = pg_new();
        let mut registry: HashMap<u64, usize> = HashMap::new();
        let bins = time_bins::time_bins();
        let trip_count = data.trips.len();
        let mode_count = data.modes.len();
        let mut t: usize = 0;
        let mut b: usize = 0;
        let mut k: usize = 0;
        proof {
            assert((0 * 48 + 0) * mode_count + 0 == 0) by (nonlinear_arith);
        }
        while t < trip_count
            invariant
                data.wf(),
                trip_count == data.trips.len(),
                mode_count == data.modes.len(),
                trip_count * 48 * mode_count < u32::MAX,
                bins.len() == 48,
                forall|i: int| 0 <= i < 48 ==> (#[trigger] bins[i])@ == i,
                t <= trip_count,
                b < 48,
                k < mode_count,
                t == trip_count ==> b == 0 && k == 0,
                view_of(g).wf(),
                newest_first(view_of(g)),
                registry_matches(registry@, view_of(g).nodes),
                view_of(g).links.len() == (t * 48 + b) * mode_count + k,
                forall|e: int|
                    0 <= e < view_of(g).links.len() ==> {
                        &&& 0 <= trip_of(e, mode_count as int) < data.trips.len()
                        &&& (#[trigger] view_of(g).links[e]).2 == (Edge {
                            trip: trip_of(e, mode_count as int) as usize,
                            category: data.trips[trip_of(e, mode_count as int)].category,
                            mode: mode_of(e, mode_count as int) as usize,
                        })
                        &&& view_of(g).nodes[view_of(g).source(e)] == source_node(
                            *data,
                            trip_of(e, mode_count as int),
                            bin_of(e, mode_count as int),
                        )
                        &&& view_of(g).nodes[view_of(g).target(e)] == target_node(
                            *data,
                            trip_of(e, mode_count as int),
                            bin_of(e, mode_count as int),
                        )
                    },
                forall|n: int| 0 <= n < view_of(g).nodes.len() ==> #[trigger] in_use(view_of(g), n),
                view_of(g).nodes == states_upto(*data, view_of(g).links.len() as int),
                forall|n: int|
                    0 <= n < view_of(g).nodes.len() ==> #[trigger] view_of(g).out[n] == outs_upto(
                        view_of(g).links,
                        n,
                        view_of(g).links.len() as int,
                    ),
            decreases trip_count - t, 48 - b, mode_count - k,
        {
            let ghost before = view_of(g);
            let ghost e = before.links.len() as int;
            proof {
                lemma_edge_number(t as int, b as int, k as int, trip_count as int, mode_count as int);
            }
            let trip = &data.trips[t];
            let category = &data.categories[trip.category];
            let source = Node {
                district_id: data.districts[trip.origin].id,
                purpose: category.origin,
                time_bin: bins[b],
            };
            let target = Node {
                district_id: data.districts[trip.destination].id,
                purpose: category.destination,
                time_bin: bins[b] + category.origin.duration(),
            };
            proof {
                TimeBin::lemma_at_view(b as nat);
                TimeBin::lemma_view_injective(bins[b as int], TimeBin::at(b as nat));
                assert(source == source_node(*data, t as int, b as int));
                assert(target == target_node(*data, t as int, b as int));
            }
            let source_index = ensure_node(&mut g, &mut registry, source);
            let ghost between = view_of(g);
            let target_index = ensure_node(&mut g, &mut registry, target);
            let ghost ready = view_of(g);
            let weight = Edge { trip: t, category: trip.category, mode: k };
            proof {
                assert(newest_first(ready)) by {
                    assert forall|n: int, p: int, q: int|
                        0 <= n < ready.out.len() && 0 <= p < q < ready.out[n].len() implies
                        #[trigger] ready.out[n][p] > #[trigger] ready.out[n][q] by {
                        if n < before.out.len() {
                            assert(ready.out[n] == before.out[n]);
                            assert(before.out[n][p] > before.out[n][q]);
                        }
                    }
                }
                assert(ready.nodes[source_index as int] == source);
            }
            let edge_index = pg_add_edge(&mut g, source_index, target_index, weight);
            proof {
                let after = view_of(g);
                lemma_add_edge(ready, after, source_index, target_index, weight);
                assert forall|x: int| 0 <= x < after.links.len() implies {
                    &&& 0 <= trip_of(x, mode_count as int) < data.trips.len()
                    &&& (#[trigger] after.links[x]).2 == (Edge {
                        trip: trip_of(x, mode_count as int) as usize,
                        category: data.trips[trip_of(x, mode_count as int)].category,
                        mode: mode_of(x, mode_count as int) as usize,
                    })
                    &&& after.nodes[after.source(x)] == source_node(
                        *data,
                        trip_of(x, mode_count as int),
                        bin_of(x, mode_count as int),
                    )
                    &&& after.nodes[after.target(x)] == target_node(
                        *data,
                        trip_of(x, mode_count as int),
                        bin_of(x, mode_count as int),
                    )
                } by {
                    if x < e {
                        assert(after.links[x] == before.links[x]);
                        assert(before.links[x].0 < before.nodes.len());
                        assert(before.links[x].1 < before.nodes.len());
                        assert(after.nodes[before.source(x)] == before.nodes[before.source(x)]);
                        assert(after.nodes[before.target(x)] == before.nodes[before.target(x)]);
                    }
                }
                assert forall|n: int| 0 <= n < after.nodes.len() implies #[trigger] after.out[n]
                    == outs_upto(after.links, n, after.links.len() as int) by {
                    lemma_outs_grow(before.links, after.links, n, e);
                    if n < before.nodes.len() {
                        assert(ready.out[n] == before.out[n]);
                    } else {
                        lemma_outs_of_new_node(before, n);
                        assert(ready.out[n] =~= Seq::<usize>::empty());
                    }
                }
                assert forall|n: int| 0 <= n < after.nodes.len() implies #[trigger] in_use(
                    after,
                    n,
                ) by {
                    if n < before.nodes.len() {
                        assert(in_use(before, n));
                        let x = choose|x: int|
                            0 <= x < before.links.len() && (#[trigger] before.links[x].0 == n
                                || before.links[x].1 == n);
                        assert(after.links[x] == before.links[x]);
                    } else {
                        assert(after.links[e].0 == source_index);
                        assert(after.links[e].1 == target_index);
                        assert(n == source_index || n == target_index);
                    }
                }
            }
            k = k + 1;
            if k == mode_count {
                k = 0;
                b = b + 1;
                if b == 48 {
                    b = 0;
                    t = t + 1;
                }
            }
        }
        pg_shrink_to_fit(&mut g);
        proof {
            lemma_registered_nodes(registry@, view_of(g));
            assert(view_of(g).links.len() == data.trips.len() * 48 * data.modes.len())
                by (nonlinear_arith)
                requires
                    view_of(g).links.len() == (t * 48 + b) * mode_count + k,
                    t == data.trips.len(),
                    b == 0,
                    k == 0,
                    mode_count == data.modes.len(),
            ;
        }
        StateGraph(g)
    }
}

/// An edge that leaves `source` is live while the ledger has capacity left
/// for its trip record, for its category in the time bin of `source`, and
/// for its mode. An edge that names something the ledger does not have is
/// not live.
pub open spec fn edge_live(ledger: Ledger, source: Node, edge: Edge) -> bool {
    &&& edge.trip < ledger.trips.len()
    &&& ledger.trips[edge.trip as int] > 0
    &&& edge.category < ledger.categories()
    &&& ledger.level(edge.category as int, source.time_bin@ as int) > 0
    &&& edge.mode < ledger.modes.len()
    &&& ledger.modes[edge.mode as int] > 0
}

/// Whether an edge that leaves `source` is live.
pub fn edge_is_live(ledger: &Capacities, source: &Node, edge: &Edge) -> (live: bool)
    ensures
        live == edge_live(ledger@, *source, *edge),
{
    edge.trip < ledger.trip_count() && ledger.get_trip(edge.trip) > 0 && edge.category
        < ledger.category_count() && ledger.get_level(edge.category, source.time_bin) > 0
        && edge.mode < ledger.mode_count() && ledger.get_mode(edge.mode) > 0
}

impl GraphView {
    /// Where the outgoing edges of node `n` lead and what they carry, in
    /// the order in which they are walked.
    pub open spec fn arcs(self, n: int) -> Seq<(usize, Edge)> {
        Seq::new(
            self.out[n].len(),
            |p: int| (self.links[self.out[n][p] as int].1, self.links[self.out[n][p] as int].2),
        )
    }

    /// The arcs of every node.
    pub open spec fn adjacency(self) -> Seq<Seq<(usize, Edge)>> {
        Seq::new(self.nodes.len(), |n: int| self.arcs(n))
    }
}

/// The arcs of `arcs` that are live when they leave `source`, in order.
pub open spec fn live_arcs(arcs: Seq<(usize, Edge)>, ledger: Ledger, source: Node) -> Seq<
    (usize, Edge),
> {
    arcs.filter(|arc: (usize, Edge)| edge_live(ledger, source, arc.1))
}

/// `petgraph::graph::Graph::retain_edges`, keeping the live edges: the
/// nodes stay, and of each node's outgoing edges those that are live stay,
/// in their order. The indices of the edges that stay may change.
#[verifier::external_body]
fn pg_retain_edges(g: &mut petgraph::graph::Graph<Node, Edge>, ledger: &Capacities)
    requires
        view_of(*old(g)).wf(),
    ensures
        view_of(*final(g)).wf(),
        node_weights(*final(g)) == node_weights(*old(g)),
        forall|n: int|
            0 <= n < node_weights(*old(g)).len() ==> #[trigger] view_of(*final(g)).arcs(n)
                == live_arcs(view_of(*old(g)).arcs(n), ledger@, node_weights(*old(g))[n]),
{
    g.retain_edges(
        |frozen, e|
            {
                let (a, _) = frozen.edge_endpoints(e).unwrap();
                edge_is_live(ledger, &frozen[a], &frozen[e])
            },
    )
}

impl StateGraph {
    /// Removes the edges that are no longer live. The nodes stay, and each
    /// keeps its live outgoing edges in their order; the indices of edges
    /// may change.
    pub fn filter_edges(&mut self, ledger: &Capacities)
        ensures
            final(self)@.wf(),
            final(self)@.nodes == old(self)@.nodes,
            forall|n: int|
                0 <= n < old(self)@.nodes.len() ==> #[trigger] final(self)@.arcs(n) == live_arcs(
                    old(self)@.arcs(n),
                    ledger@,
                    old(self)@.nodes[n],
                ),
    {
        let mut taken = StateGraph(pg_new());
        core::mem::swap(self, &mut taken);
        proof {
            use_type_invariant(&taken);
        }
        let StateGraph(mut inner) = taken;
        pg_retain_edges(&mut inner, ledger);
        *self = StateGraph(inner);
    }
}

impl GraphView {
    /// The edges as they look from outside, by edge index: the state at
    /// which each starts, the state to which it leads, and what it carries.
    pub open spec fn described(self) -> Seq<(Node, Node, Edge)> {
        Seq::new(
            self.links.len(),
            |e: int| (self.nodes[self.source(e)], self.nodes[self.target(e)], self.weight(e)),
        )
    }
}

/// Building the graph twice from the same reference data gives the same
/// graph: the same states are nodes under the same numbers, the same edges
/// join them under the same numbers, and the outgoing edges of each node
/// are listed in the same order.
pub proof fn lemma_build_is_repeatable(first: GraphView, second: GraphView, data: ReferenceData)
    requires
        built_from(first, data),
        built_from(second, data),
    ensures
        first == second,
        first.nodes.to_set() == second.nodes.to_set(),
        first.described().to_multiset() == second.described().to_multiset(),
{
    assert(first.nodes == second.nodes);
    assert(first.links =~= second.links) by {
        assert forall|e: int| 0 <= e < first.links.len() implies first.links[e]
            == second.links[e] by {
            let a = first.links[e];
            let b = second.links[e];
            assert(a.2 == b.2);
            assert(first.nodes[first.source(e)] == second.nodes[second.source(e)]);
            assert(first.nodes[first.target(e)] == second.nodes[second.target(e)]);
            assert(a.0 < first.nodes.len() && b.0 < first.nodes.len());
            assert(a.1 < first.nodes.len() && b.1 < first.nodes.len());
            if a.0 < b.0 {
                assert(first.nodes[a.0 as int] != first.nodes[b.0 as int]);
            }
            if b.0 < a.0 {
                assert(first.nodes[b.0 as int] != first.nodes[a.0 as int]);
            }
            if a.1 < b.1 {
                assert(first.nodes[a.1 as int] != first.nodes[b.1 as int]);
            }
            if b.1 < a.1 {
                assert(first.nodes[b.1 as int] != first.nodes[a.1 as int]);
            }
        }
    }
    assert(first.out =~= second.out) by {
        assert forall|n: int| 0 <= n < first.out.len() implies first.out[n] == second.out[n] by {
            assert(first.out[n] == outs_upto(first.links, n, first.links.len() as int));
            assert(second.out[n] == outs_upto(second.links, n, second.links.len() as int));
        }
    }
}

/// Every edge of the graph of valid reference data comes from a trip
/// record that counts at least one trip, in its category, and is made by a
/// mode of the mode table.
pub proof fn lemma_edges_come_from_trips(graph: GraphView, data: ReferenceData, e: int)
    requires
        data.wf(),
        built_from(graph, data),
        0 <= e < graph.links.len(),
    ensures
        graph.weight(e).trip < data.trips.len(),
        data.trips[graph.weight(e).trip as int].count >= 1,
        graph.weight(e).category == data.trips[graph.weight(e).trip as int].category,
        graph.weight(e).category < data.categories.len(),
        graph.weight(e).mode < data.modes.len(),
        graph.nodes[graph.source(e)].purpose
            == data.categories[graph.weight(e).category as int].origin,
        graph.nodes[graph.target(e)].purpose
            == data.categories[graph.weight(e).category as int].destination,
{
    let modes = data.modes.len() as int;
    let t = trip_of(e, modes);
    assert(graph.links[e].2.trip == t as usize);
    assert(data.trips[t].index == t);
    vstd::arithmetic::div_mod::lemma_mod_pos_bound(e, modes);
}

} // verus!
