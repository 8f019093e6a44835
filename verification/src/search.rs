//! The search: a depth-first walk from a start state along the edges of the
//! graph, asking the filters at every step, and the commit of what it finds
//! against the ledger.

use vstd::prelude::*;

use crate::capacities::initial_ledger;
use crate::capacities::lemma_initial_ledger_unique;
use crate::capacities::Capacities;
use crate::capacities::Ledger;
use crate::extraction::extract_all;
use crate::extraction::left_of;
use crate::extraction::lemma_commits_conserve;
use crate::extraction::lemma_plans_use_add;
use crate::extraction::plans_use;
use crate::extraction::Resource;
use crate::extraction::ledger_after;
use crate::extraction::plan_views;
use crate::extraction::plans_after;
use crate::filters::duration_of;
use crate::filters::lemma_duration_bounds;
use crate::filters::path_verdict;
use crate::filters::Filter;
use crate::filters::FilterParams;
use crate::filters::Path;
use crate::filters::PotentialPath;
use crate::filters::Verdict;
use crate::graph::built_from;
use crate::graph::lemma_build_is_repeatable;
use crate::graph::live_arcs;
use crate::graph::Edge;
use crate::graph::GraphView;
use crate::graph::Node;
use crate::graph::StateGraph;
use crate::reference::ReferenceData;
use crate::usage::ints;

verus! {

/// What a search sees of a graph: the state of each node, and for each node
/// where its outgoing edges lead and what they carry, in the order in which
/// they are walked.
pub struct Terrain {
    pub nodes: Seq<Node>,
    pub arcs: Seq<Seq<(usize, Edge)>>,
}

impl GraphView {
    /// What a search sees of the graph.
    pub open spec fn terrain(self) -> Terrain {
        Terrain { nodes: self.nodes, arcs: self.adjacency() }
    }
}

/// A step of a search: the path that it reached and what the filters said
/// of it.
pub struct Visit {
    pub path: Path,
    pub verdict: Verdict,
}

/// The longest path that a search continues has 48 edges, because every
/// edge takes at least one time bin and a path may not take more than 48.
pub open spec fn depth_limit() -> nat {
    49
}

/// The steps of a depth-first search below `path`, which ends at node
/// `at`, through the outgoing edges of `at` from position `from` on: each
/// edge in turn continues the path, the filters are asked, and unless they
/// reject the continued path the search goes on below it before it turns
/// to the next edge.
pub open spec fn trace_from(
    terrain: Terrain,
    params: FilterParams,
    ledger: Ledger,
    path: Path,
    at: int,
    from: int,
) -> Seq<Visit>
    decreases depth_limit() - path.edges.len(), terrain.arcs[at].len() - from,
{
    if path.edges.len() >= depth_limit() || from < 0 || from >= terrain.arcs[at].len() {
        Seq::empty()
    } else {
        let arc = terrain.arcs[at][from];
        let child = path.extended(terrain.nodes[arc.0 as int], arc.1);
        let verdict = path_verdict(params, ledger, child);
        let below = if verdict == Verdict::Reject {
            Seq::empty()
        } else {
            trace_from(terrain, params, ledger, child, arc.0 as int, 0)
        };
        seq![Visit { path: child, verdict }] + below + trace_from(
            terrain,
            params,
            ledger,
            path,
            at,
            from + 1,
        )
    }
}

/// The path that a search starts with at node `root`.
pub open spec fn root_path(terrain: Terrain, root: int) -> Path {
    Path { nodes: seq![terrain.nodes[root]], edges: Seq::empty() }
}

/// All steps of the depth-first search from node `root`.
pub open spec fn trace_of(terrain: Terrain, params: FilterParams, ledger: Ledger, root: int) -> Seq<
    Visit,
> {
    trace_from(terrain, params, ledger, root_path(terrain, root), root, 0)
}

/// The paths that the filters were satisfied with, in the order of the
/// steps.
pub open spec fn accepted(trace: Seq<Visit>) -> Seq<Path>
    decreases trace.len(),
{
    if trace.len() == 0 {
        Seq::empty()
    } else if trace.last().verdict == Verdict::Satisfied {
        accepted(trace.drop_last()).push(trace.last().path)
    } else {
        accepted(trace.drop_last())
    }
}

/// The number of steps that the filters did not reject.
pub open spec fn continued(trace: Seq<Visit>) -> nat
    decreases trace.len(),
{
    if trace.len() == 0 {
        0
    } else if trace.last().verdict != Verdict::Reject {
        continued(trace.drop_last()) + 1
    } else {
        continued(trace.drop_last())
    }
}

/// The candidates of the search from node `root`: nothing if a plan may
/// not start with the purpose of the root, and else every path from the
/// root that satisfies the filters and none of whose prefixes they reject,
/// in depth-first order.
pub open spec fn candidates_of(
    terrain: Terrain,
    params: FilterParams,
    ledger: Ledger,
    root: int,
) -> Seq<Path> {
    if params.first_activity@.contains(terrain.nodes[root].purpose) {
        accepted(trace_of(terrain, params, ledger, root))
    } else {
        Seq::empty()
    }
}

/// The number of moves that the search from node `root` makes: one for
/// every state from which it tries to go on, and one for every time it
/// turns to the next edge or steps back.
pub open spec fn moves_of(terrain: Terrain, params: FilterParams, ledger: Ledger, root: int) -> nat {
    if params.first_activity@.contains(terrain.nodes[root].purpose) {
        2 + trace_of(terrain, params, ledger, root).len() + continued(
            trace_of(terrain, params, ledger, root),
        )
    } else {
        0
    }
}

/// The paths of a list of candidates.
pub open spec fn paths_of(found: Seq<PotentialPath>) -> Seq<Path> {
    Seq::new(found.len(), |i: int| found[i]@)
}

/// What is left to do for a search that stands at the end of `path`, after
/// everything below `path` is done: for each edge of the path, from the
/// last to the first, the edges that follow it among the outgoing edges of
/// the state in which it starts. `stops` are the nodes that the path
/// passes, and `positions` the places of its edges among the outgoing
/// edges.
spec fn rest_of(
    terrain: Terrain,
    params: FilterParams,
    ledger: Ledger,
    path: Path,
    stops: Seq<int>,
    positions: Seq<int>,
) -> Seq<Visit>
    decreases positions.len(),
{
    if positions.len() == 0 {
        Seq::empty()
    } else {
        trace_from(
            terrain,
            params,
            ledger,
            path.shortened(),
            stops[stops.len() - 2],
            positions.last() + 1,
        ) + rest_of(
            terrain,
            params,
            ledger,
            path.shortened(),
            stops.drop_last(),
            positions.drop_last(),
        )
    }
}

proof fn lemma_accepted_push(trace: Seq<Visit>, visit: Visit)
    ensures
        accepted(trace.push(visit)) == if visit.verdict == Verdict::Satisfied {
            accepted(trace).push(visit.path)
        } else {
            accepted(trace)
        },
        continued(trace.push(visit)) == continued(trace) + if visit.verdict != Verdict::Reject {
            1nat
        } else {
            0nat
        },
{
    assert(trace.push(visit).drop_last() =~= trace);
}

/// A path that the filters do not reject has at most 48 edges.
pub proof fn lemma_depth(params: FilterParams, ledger: Ledger, path: Path)
    requires
        path.wf(),
        path_verdict(params, ledger, path) != Verdict::Reject,
    ensures
        path.edges.len() <= 48,
{
    lemma_duration_bounds(path.nodes);
}

/// Every step of a search holds what the filters say of its path, and the
/// path of a step below `path` continues `path`.
pub proof fn lemma_trace_verdicts(
    terrain: Terrain,
    params: FilterParams,
    ledger: Ledger,
    path: Path,
    at: int,
    from: int,
)
    ensures
        forall|i: int|
            0 <= i < trace_from(terrain, params, ledger, path, at, from).len() ==> (
            #[trigger] trace_from(terrain, params, ledger, path, at, from)[i]).verdict
                == path_verdict(
                params,
                ledger,
                trace_from(terrain, params, ledger, path, at, from)[i].path,
            ),
    decreases depth_limit() - path.edges.len(), terrain.arcs[at].len() - from,
{
    let trace = trace_from(terrain, params, ledger, path, at, from);
    if !(path.edges.len() >= depth_limit() || from < 0 || from >= terrain.arcs[at].len()) {
        let arc = terrain.arcs[at][from];
        let child = path.extended(terrain.nodes[arc.0 as int], arc.1);
        let verdict = path_verdict(params, ledger, child);
        let below = if verdict == Verdict::Reject {
            Seq::<Visit>::empty()
        } else {
            trace_from(terrain, params, ledger, child, arc.0 as int, 0)
        };
        let beside = trace_from(terrain, params, ledger, path, at, from + 1);
        if verdict != Verdict::Reject {
            lemma_trace_verdicts(terrain, params, ledger, child, arc.0 as int, 0);
        }
        lemma_trace_verdicts(terrain, params, ledger, path, at, from + 1);
        assert forall|i: int| 0 <= i < trace.len() implies (#[trigger] trace[i]).verdict
            == path_verdict(params, ledger, trace[i].path) by {
            if i == 0 {
            } else if i < 1 + below.len() {
                assert(trace[i] == below[i - 1]);
            } else {
                assert(trace[i] == beside[i - 1 - below.len()]);
            }
        }
    }
}

/// The paths accepted of a trace are paths of steps of the trace with which
/// the filters were satisfied.
pub proof fn lemma_accepted_are_steps(trace: Seq<Visit>, k: int) -> (i: int)
    requires
        0 <= k < accepted(trace).len(),
    ensures
        0 <= i < trace.len(),
        trace[i].verdict == Verdict::Satisfied,
        trace[i].path == accepted(trace)[k],
    decreases trace.len(),
{
    let front = trace.drop_last();
    if trace.last().verdict == Verdict::Satisfied && k == accepted(front).len() {
        trace.len() - 1
    } else {
        lemma_accepted_are_steps(front, k)
    }
}

/// Every candidate of a search satisfies every filter: it is not too long
/// nor too short, takes no more than a day and no less than the least
/// duration, ends where it started if that is asked for, leaves no purpose
/// twice, and the ledger that the search read can pay for its last edge.
pub proof fn lemma_candidates_satisfy(
    terrain: Terrain,
    params: FilterParams,
    ledger: Ledger,
    root: int,
    k: int,
)
    requires
        0 <= k < candidates_of(terrain, params, ledger, root).len(),
    ensures
        path_verdict(params, ledger, candidates_of(terrain, params, ledger, root)[k])
            == Verdict::Satisfied,
{
    let trace = trace_of(terrain, params, ledger, root);
    let i = lemma_accepted_are_steps(trace, k);
    lemma_trace_verdicts(terrain, params, ledger, root_path(terrain, root), root, 0);
}

/// The number of moves that a search has made when it has taken the steps
/// `done`, stands `depth` edges from its root, and is or is not about to
/// try to go on from where it stands.
spec fn moves_made(done: Seq<Visit>, fresh: bool, depth: int) -> int {
    1 + continued(done) + done.len() - depth - if fresh {
        1int
    } else {
        0int
    }
}

/// A counter that stops at the largest number it can hold.
pub open spec fn counted(moves: int) -> int {
    if moves < u64::MAX {
        moves
    } else {
        u64::MAX as int
    }
}

/// The state of a search: the nodes and edges of the path on which it
/// stands, the filters along that path, what it has found, and the number
/// of moves it has made.
struct Walk<'a> {
    node_indices: Vec<usize>,
    edge_indices: Vec<usize>,
    filter: Filter<'a>,
    plans: Vec<PotentialPath>,
    search_steps: u64,
    positions: Ghost<Seq<int>>,
    done: Ghost<Seq<Visit>>,
}

impl<'a> Walk<'a> {
    spec fn stops(&self) -> Seq<int> {
        Seq::new(self.node_indices@.len(), |i: int| self.node_indices[i] as int)
    }

    /// The walk stands on a path of the graph that the filters know, and
    /// the steps taken together with those that are left are the steps of
    /// the whole search. `fresh` says that nothing below the path has been
    /// looked at yet; `owed` is a move that is counted but not yet made.
    spec fn inv(
        &self,
        graph: GraphView,
        params: FilterParams,
        ledger: Ledger,
        root: int,
        fresh: bool,
        owed: int,
    ) -> bool {
        let terrain = graph.terrain();
        let path = self.filter.path();
        &&& graph.wf()
        &&& self.filter.wf()
        &&& self.filter.params() == params
        &&& self.filter.ledger() == ledger
        &&& self.node_indices.len() == self.edge_indices.len() + 1
        &&& self.positions@.len() == self.edge_indices.len()
        &&& path.nodes.len() == self.node_indices.len()
        &&& path.edges.len() == self.edge_indices.len()
        &&& self.node_indices[0] == root
        &&& forall|i: int|
            0 <= i < self.node_indices.len() ==> (#[trigger] self.node_indices[i])
                < graph.nodes.len() && path.nodes[i] == graph.nodes[self.node_indices[i] as int]
        &&& forall|i: int|
            0 <= i < self.edge_indices.len() ==> {
                &&& (#[trigger] self.edge_indices[i]) < graph.links.len()
                &&& graph.target(self.edge_indices[i] as int) == self.node_indices[i + 1]
                &&& 0 <= self.positions@[i] < graph.out[self.node_indices[i] as int].len()
                &&& graph.out[self.node_indices[i] as int][self.positions@[i]]
                    == self.edge_indices[i]
                &&& path.edges[i] == graph.weight(self.edge_indices[i] as int)
            }
        &&& self.edge_indices.len() <= 49
        &&& fresh ==> self.edge_indices.len() <= 48
        &&& self.done@ + (if fresh {
            trace_from(terrain, params, ledger, path, self.node_indices@.last() as int, 0)
        } else {
            Seq::empty()
        }) + rest_of(terrain, params, ledger, path, self.stops(), self.positions@) == trace_of(
            terrain,
            params,
            ledger,
            root,
        )
        &&& paths_of(self.plans@) == accepted(self.done@)
        &&& self.search_steps == counted(
            moves_made(self.done@, fresh, self.edge_indices.len() as int) + owed,
        )
    }

    fn count_move(&mut self)
        ensures
            final(self).search_steps == counted(old(self).search_steps + 1),
            final(self).node_indices == old(self).node_indices,
            final(self).edge_indices == old(self).edge_indices,
            final(self).filter == old(self).filter,
            final(self).plans == old(self).plans,
            final(self).positions == old(self).positions,
            final(self).done == old(self).done,
    {
        if self.search_steps < u64::MAX {
            self.search_steps = self.search_steps + 1;
        }
    }

    /// Continues the path by the edge with index `edge_index`, which
    /// stands at `position` among the outgoing edges of the last node of
    /// the path, asks the filters, and keeps the path if it is a candidate.
    /// Says whether the filters let the search go on below the path.
    fn enter(&mut self, graph: &StateGraph, edge_index: usize, Ghost(position): Ghost<int>) -> (open:
        bool)
        requires
            graph@.wf(),
            old(self).filter.wf(),
            old(self).node_indices.len() == old(self).edge_indices.len() + 1,
            old(self).positions@.len() == old(self).edge_indices.len(),
            old(self).filter.path().nodes.len() == old(self).node_indices.len(),
            edge_index < graph@.links.len(),
            paths_of(old(self).plans@) == accepted(old(self).done@),
        ensures
            final(self).filter.wf(),
            final(self).filter.params() == old(self).filter.params(),
            final(self).filter.ledger() == old(self).filter.ledger(),
            final(self).filter.path() == old(self).filter.path().extended(
                graph@.nodes[graph@.target(edge_index as int)],
                graph@.weight(edge_index as int),
            ),
            final(self).node_indices@ == old(self).node_indices@.push(
                graph@.target(edge_index as int) as usize,
            ),
            final(self).edge_indices@ == old(self).edge_indices@.push(edge_index),
            final(self).positions@ == old(self).positions@.push(position),
            final(self).done@ == old(self).done@.push(
                Visit {
                    path: final(self).filter.path(),
                    verdict: path_verdict(
                        final(self).filter.params(),
                        final(self).filter.ledger(),
                        final(self).filter.path(),
                    ),
                },
            ),
            open == (path_verdict(
                final(self).filter.params(),
                final(self).filter.ledger(),
                final(self).filter.path(),
            ) != Verdict::Reject),
            paths_of(final(self).plans@) == accepted(final(self).done@),
            final(self).search_steps == old(self).search_steps,
    {
        let target_index = graph.target_index(edge_index);
        self.edge_indices.push(edge_index);
        self.node_indices.push(target_index);
        let found = self.filter.to_child(graph.node(target_index), graph.edge(edge_index));
        let ghost visit = Visit {
            path: self.filter.path(),
            verdict: path_verdict(self.filter.params(), self.filter.ledger(), self.filter.path()),
        };
        proof {
            self.positions@ = self.positions@.push(position);
            lemma_accepted_push(self.done@, visit);
            self.done@ = self.done@.push(visit);
        }
        match found {
            Err(()) => false,
            Ok(option) => {
                if option.is_some() {
                    let ghost before = self.plans@;
                    self.plans.push(option.unwrap());
                    proof {
                        assert(paths_of(self.plans@) =~= paths_of(before).push(visit.path));
                    }
                }
                true
            },
        }
    }
}

/// What is left to do after a path continued by an edge is what follows
/// that edge and what was left to do after the path.
proof fn lemma_rest_push(
    terrain: Terrain,
    params: FilterParams,
    ledger: Ledger,
    path: Path,
    stops: Seq<int>,
    positions: Seq<int>,
    node: Node,
    stop: int,
    edge: Edge,
    position: int,
)
    requires
        stops.len() >= 1,
    ensures
        rest_of(
            terrain,
            params,
            ledger,
            path.extended(node, edge),
            stops.push(stop),
            positions.push(position),
        ) == trace_from(terrain, params, ledger, path, stops.last(), position + 1) + rest_of(
            terrain,
            params,
            ledger,
            path,
            stops,
            positions,
        ),
{
    let child = path.extended(node, edge);
    assert(child.shortened().nodes =~= path.nodes);
    assert(child.shortened().edges =~= path.edges);
    assert(child.shortened() == path);
    assert(stops.push(stop).drop_last() =~= stops);
    assert(positions.push(position).drop_last() =~= positions);
    assert(stops.push(stop)[stops.push(stop).len() - 2] == stops.last());
}

/// The steps through the outgoing edges of a node from an edge on are the
/// step to that edge, the steps below it unless it is rejected, and the
/// steps through the edges that follow.
proof fn lemma_trace_unfold(
    graph: GraphView,
    params: FilterParams,
    ledger: Ledger,
    path: Path,
    at: int,
    from: int,
)
    requires
        graph.wf(),
        0 <= at < graph.nodes.len(),
        0 <= from,
        path.edges.len() < depth_limit(),
    ensures
        from >= graph.out[at].len() ==> trace_from(graph.terrain(), params, ledger, path, at, from)
            == Seq::<Visit>::empty(),
        from < graph.out[at].len() ==> {
            let e = graph.out[at][from] as int;
            let child = path.extended(graph.nodes[graph.target(e)], graph.weight(e));
            let verdict = path_verdict(params, ledger, child);
            trace_from(graph.terrain(), params, ledger, path, at, from) == seq![
                Visit { path: child, verdict },
            ] + (if verdict == Verdict::Reject {
                Seq::<Visit>::empty()
            } else {
                trace_from(graph.terrain(), params, ledger, child, graph.target(e), 0)
            }) + trace_from(graph.terrain(), params, ledger, path, at, from + 1)
        },
{
    let terrain = graph.terrain();
    assert(terrain.arcs[at] == graph.arcs(at));
    assert(terrain.arcs[at].len() == graph.out[at].len());
    if from < graph.out[at].len() {
        assert(terrain.arcs[at][from] == (
            graph.links[graph.out[at][from] as int].1,
            graph.links[graph.out[at][from] as int].2,
        ));
    }
}

/// Taking a step: the steps done grow by the step, and what is left is
/// what lies below the step, unless it is rejected, and what was left
/// beside it.
proof fn lemma_take_step(
    done: Seq<Visit>,
    visit: Visit,
    below: Seq<Visit>,
    beside: Seq<Visit>,
    rest: Seq<Visit>,
)
    ensures
        done.push(visit) + below + (beside + rest) == done + (seq![visit] + below + beside) + rest,
{
    assert(done.push(visit) + below + (beside + rest) =~= done + (seq![visit] + below + beside)
        + rest);
}

impl<'a> Walk<'a> {
    /// Nothing follows the last edge of the path among the outgoing edges
    /// of the state in which it starts.
    spec fn exhausted(&self, graph: GraphView) -> bool {
        self.edge_indices.len() > 0 ==> self.positions@.last() + 1
            >= graph.out[self.node_indices[self.node_indices.len() - 2] as int].len()
    }

    /// Tries to go on from the end of the path by the first outgoing edge.
    /// Says whether the search can go on below the continued path.
    fn to_child(
        &mut self,
        graph: &StateGraph,
        Ghost(params): Ghost<FilterParams>,
        Ghost(ledger): Ghost<Ledger>,
        Ghost(root): Ghost<int>,
    ) -> (went: bool)
        requires
            old(self).inv(graph@, params, ledger, root, true, 0),
        ensures
            final(self).inv(graph@, params, ledger, root, went, 0),
            final(self).done@.len() == old(self).done@.len() + 1 || (!went && final(self).done@
                == old(self).done@),
    {
        self.count_move();
        let depth = self.node_indices.len() - 1;
        let at = self.node_indices[depth];
        let ghost path = self.filter.path();
        let ghost before = *self;
        proof {
            lemma_trace_unfold(graph@, params, ledger, path, at as int, 0);
        }
        match graph.first_edge(at) {
            None => {
                proof {
                    assert(self.done@ + Seq::<Visit>::empty() =~= self.done@);
                }
                false
            },
            Some(edge_index) => {
                let open = self.enter(graph, edge_index, Ghost(0));
                proof {
                    let view = graph@;
                    let terrain = view.terrain();
                    let child = self.filter.path();
                    let verdict = path_verdict(params, ledger, child);
                    let visit = Visit { path: child, verdict };
                    let target = view.target(edge_index as int);
                    let below = if verdict == Verdict::Reject {
                        Seq::<Visit>::empty()
                    } else {
                        trace_from(terrain, params, ledger, child, target, 0)
                    };
                    let beside = trace_from(terrain, params, ledger, path, at as int, 1);
                    let rest = rest_of(terrain, params, ledger, path, before.stops(), before.positions@);
                    assert(self.stops() =~= before.stops().push(target));
                    lemma_rest_push(
                        terrain,
                        params,
                        ledger,
                        path,
                        before.stops(),
                        before.positions@,
                        view.nodes[target],
                        target,
                        view.weight(edge_index as int),
                        0,
                    );
                    lemma_take_step(before.done@, visit, below, beside, rest);
                    self.filter.lemma_wf();
                    if open {
                        lemma_depth(params, ledger, child);
                    }
                    lemma_accepted_push(before.done@, visit);
                    assert forall|i: int| 0 <= i < self.node_indices.len() implies (
                    #[trigger] self.node_indices[i]) < view.nodes.len() && child.nodes[i]
                        == view.nodes[self.node_indices[i] as int] by {
                        if i <= depth {
                            assert(self.node_indices[i] == before.node_indices[i]);
                        }
                    }
                    assert forall|i: int| 0 <= i < self.edge_indices.len() implies {
                        &&& (#[trigger] self.edge_indices[i]) < view.links.len()
                        &&& view.target(self.edge_indices[i] as int) == self.node_indices[i + 1]
                        &&& 0 <= self.positions@[i] < view.out[self.node_indices[i] as int].len()
                        &&& view.out[self.node_indices[i] as int][self.positions@[i]]
                            == self.edge_indices[i]
                        &&& child.edges[i] == view.weight(self.edge_indices[i] as int)
                    } by {
                        if i < depth {
                            assert(self.edge_indices[i] == before.edge_indices[i]);
                            assert(self.node_indices[i] == before.node_indices[i]);
                            assert(self.node_indices[i + 1] == before.node_indices[i + 1]);
                        }
                    }
                }
                open
            },
        }
    }
}

impl<'a> Walk<'a> {
    /// Turns from the last edge of the path to the edge that follows it
    /// among the outgoing edges of the state in which it starts. `Err`
    /// means that there is no such edge, and then nothing has changed; else
    /// the result says whether the search can go on below the new path.
    fn to_sibling(
        &mut self,
        graph: &StateGraph,
        Ghost(params): Ghost<FilterParams>,
        Ghost(ledger): Ghost<Ledger>,
        Ghost(root): Ghost<int>,
    ) -> (turned: Result<bool, ()>)
        requires
            old(self).inv(graph@, params, ledger, root, false, 0),
        ensures
            match turned {
                Ok(open) => final(self).inv(graph@, params, ledger, root, open, 0) && final(self).done@.len() == old(self).done@.len() + 1,
                Err(_) => final(self).inv(graph@, params, ledger, root, false, 1) && final(self).exhausted(graph@) && final(self).done@ == old(self).done@ && final(self).edge_indices@ == old(self).edge_indices@,
            },
    {
        self.count_move();
        let depth = self.edge_indices.len();
        if depth == 0 {
            return Err(());
        }
        let prev_edge_index = self.edge_indices[depth - 1];
        let from = self.node_indices[depth - 1];
        let ghost view = graph@;
        let ghost position = self.positions@[depth - 1];
        let ghost before = *self;
        proof {
            assert(view.out[from as int][position] == prev_edge_index);
            assert(view.links[view.out[from as int][position] as int].0 == from);
            assert(view.stands_at(prev_edge_index as int, position));
        }
        let sibling_edge_index = match graph.next_edge(prev_edge_index) {
            Some(sibling) => sibling,
            None => {
                return Err(());
            },
        };
        self.edge_indices.pop();
        self.node_indices.pop();
        self.filter.to_parent();
        proof {
            self.positions@ = self.positions@.drop_last();
        }
        let ghost parent = self.filter.path();
        let ghost between = *self;
        let open = self.enter(graph, sibling_edge_index, Ghost(position + 1));
        proof {
            let terrain = view.terrain();
            let child = self.filter.path();
            let verdict = path_verdict(params, ledger, child);
            let visit = Visit { path: child, verdict };
            let target = view.target(sibling_edge_index as int);
            let below = if verdict == Verdict::Reject {
                Seq::<Visit>::empty()
            } else {
                trace_from(terrain, params, ledger, child, target, 0)
            };
            let beside = trace_from(terrain, params, ledger, parent, from as int, position + 2);
            let rest = rest_of(terrain, params, ledger, parent, between.stops(), between.positions@);
            assert(between.stops() =~= before.stops().drop_last());
            assert(before.stops()[before.stops().len() - 2] == from);
            assert(between.stops().last() == from);
            assert(self.stops() =~= between.stops().push(target));
            lemma_trace_unfold(view, params, ledger, parent, from as int, position + 1);
            lemma_rest_push(
                terrain,
                params,
                ledger,
                parent,
                between.stops(),
                between.positions@,
                view.nodes[target],
                target,
                view.weight(sibling_edge_index as int),
                position + 1,
            );
            lemma_take_step(before.done@, visit, below, beside, rest);
            assert(before.done@ + Seq::<Visit>::empty() =~= before.done@);
            assert(before.filter.path().shortened() == parent);
            assert(rest_of(
                terrain,
                params,
                ledger,
                before.filter.path(),
                before.stops(),
                before.positions@,
            ) == trace_from(terrain, params, ledger, parent, from as int, position + 1) + rest);
            assert(view.out[from as int][position + 1] == sibling_edge_index);
            assert(trace_from(terrain, params, ledger, parent, from as int, position + 1) == seq![
                visit,
            ] + below + beside);
            assert(self.done@ == before.done@.push(visit));
            assert(rest_of(terrain, params, ledger, child, self.stops(), self.positions@) == beside
                + rest);
            assert(self.done@ + below + rest_of(
                terrain,
                params,
                ledger,
                child,
                self.stops(),
                self.positions@,
            ) == trace_of(terrain, params, ledger, root));
            self.filter.lemma_wf();
            if open {
                lemma_depth(params, ledger, child);
            }
            lemma_accepted_push(before.done@, visit);
            assert forall|i: int| 0 <= i < self.node_indices.len() implies (
            #[trigger] self.node_indices[i]) < view.nodes.len() && child.nodes[i]
                == view.nodes[self.node_indices[i] as int] by {
                if i < depth {
                    assert(self.node_indices[i] == before.node_indices[i]);
                    assert(child.nodes[i] == before.filter.path().nodes[i]);
                }
            }
            assert forall|i: int| 0 <= i < self.edge_indices.len() implies {
                &&& (#[trigger] self.edge_indices[i]) < view.links.len()
                &&& view.target(self.edge_indices[i] as int) == self.node_indices[i + 1]
                &&& 0 <= self.positions@[i] < view.out[self.node_indices[i] as int].len()
                &&& view.out[self.node_indices[i] as int][self.positions@[i]]
                    == self.edge_indices[i]
                &&& child.edges[i] == view.weight(self.edge_indices[i] as int)
            } by {
                if i < depth - 1 {
                    assert(self.edge_indices[i] == before.edge_indices[i]);
                    assert(self.node_indices[i] == before.node_indices[i]);
                    assert(self.node_indices[i + 1] == before.node_indices[i + 1]);
                    assert(self.positions@[i] == before.positions@[i]);
                    assert(child.edges[i] == before.filter.path().edges[i]);
                } else {
                    assert(self.node_indices[i] == before.node_indices[i]);
                }
            }
        }
        Ok(open)
    }

    /// Steps back by one edge, after nothing was found to follow it. Says
    /// whether there was an edge to step back by.
    fn to_parent(
        &mut self,
        graph: &StateGraph,
        Ghost(params): Ghost<FilterParams>,
        Ghost(ledger): Ghost<Ledger>,
        Ghost(root): Ghost<int>,
    ) -> (stepped: bool)
        requires
            old(self).inv(graph@, params, ledger, root, false, 1),
            old(self).exhausted(graph@),
        ensures
            stepped == (old(self).edge_indices.len() > 0),
            stepped ==> final(self).inv(graph@, params, ledger, root, false, 0) && final(self).edge_indices.len() + 1 == old(self).edge_indices.len() && final(self).done@ == old(self).done@,
            !stepped ==> *final(self) == *old(self),
    {
        if self.edge_indices.len() == 0 {
            return false;
        }
        let ghost before = *self;
        let ghost view = graph@;
        self.edge_indices.pop();
        self.node_indices.pop();
        self.filter.to_parent();
        proof {
            self.positions@ = self.positions@.drop_last();
            let depth = before.edge_indices.len() as int;
            let from = before.node_indices[depth - 1] as int;
            let parent = self.filter.path();
            assert(self.stops() =~= before.stops().drop_last());
            assert(before.stops()[before.stops().len() - 2] == from);
            lemma_trace_unfold(view, params, ledger, parent, from, before.positions@.last() + 1);
            let rest = rest_of(view.terrain(), params, ledger, parent, self.stops(), self.positions@);
            assert(Seq::<Visit>::empty() + rest =~= rest);
            assert forall|i: int| 0 <= i < self.node_indices.len() implies (
            #[trigger] self.node_indices[i]) < view.nodes.len() && parent.nodes[i]
                == view.nodes[self.node_indices[i] as int] by {
                assert(self.node_indices[i] == before.node_indices[i]);
                assert(parent.nodes[i] == before.filter.path().nodes[i]);
            }
            assert forall|i: int| 0 <= i < self.edge_indices.len() implies {
                &&& (#[trigger] self.edge_indices[i]) < view.links.len()
                &&& view.target(self.edge_indices[i] as int) == self.node_indices[i + 1]
                &&& 0 <= self.positions@[i] < view.out[self.node_indices[i] as int].len()
                &&& view.out[self.node_indices[i] as int][self.positions@[i]]
                    == self.edge_indices[i]
                &&& parent.edges[i] == view.weight(self.edge_indices[i] as int)
            } by {
                assert(self.edge_indices[i] == before.edge_indices[i]);
                assert(self.node_indices[i] == before.node_indices[i]);
                assert(self.node_indices[i + 1] == before.node_indices[i + 1]);
                assert(self.positions@[i] == before.positions@[i]);
                assert(parent.edges[i] == before.filter.path().edges[i]);
            }
        }
        true
    }
}

/// Searches the graph depth first from the node with index `node_index`
/// and returns the candidates in the order in which it finds them,
/// together with the number of moves it made, which stops counting at the
/// largest number it can hold. The ledger is read and not changed.
pub fn execute(
    graph: &StateGraph,
    node_index: usize,
    capacities: &Capacities,
    filter_params: &FilterParams,
) -> (found: (Vec<PotentialPath>, u64))
    requires
        node_index < graph@.nodes.len(),
    ensures
        paths_of(found.0@) == candidates_of(
            graph@.terrain(),
            *filter_params,
            capacities@,
            node_index as int,
        ),
        found.1 == counted(
            moves_of(graph@.terrain(), *filter_params, capacities@, node_index as int) as int,
        ),
{
    let plans: Vec<PotentialPath> = Vec::new();
    let node_count = graph.node_count();
    let ghost view = graph@;
    let ghost terrain = view.terrain();
    let ghost params = *filter_params;
    let ghost ledger = capacities@;
    let ghost root = node_index as int;
    let ghost whole = trace_of(terrain, params, ledger, root);
    let filter = match Filter::new(*filter_params, *graph.node(node_index), capacities) {
        Ok(filter) => filter,
        Err(()) => {
            proof {
                assert(paths_of(plans@) =~= Seq::<Path>::empty());
            }
            return (plans, 0);
        },
    };
    let mut walk = Walk {
        node_indices: vec![node_index],
        edge_indices: Vec::new(),
        filter,
        plans,
        search_steps: 0,
        positions: Ghost(Seq::empty()),
        done: Ghost(Seq::empty()),
    };
    proof {
        assert(paths_of(walk.plans@) =~= accepted(walk.done@));
        assert(walk.filter.path() == root_path(terrain, root));
        let first = trace_from(terrain, params, ledger, walk.filter.path(), root, 0);
        assert(walk.done@ + first + rest_of(
            terrain,
            params,
            ledger,
            walk.filter.path(),
            walk.stops(),
            walk.positions@,
        ) =~= first);
    }
    loop
        invariant
            walk.inv(view, params, ledger, root, true, 0),
            view == graph@,
            terrain == view.terrain(),
            whole == trace_of(terrain, params, ledger, root),
            params == *filter_params,
            ledger == capacities@,
            root == node_index,
            params.first_activity@.contains(terrain.nodes[root].purpose),
        decreases whole.len() - walk.done@.len(),
    {
        let ghost start = walk.done@.len();
        if walk.to_child(graph, Ghost(params), Ghost(ledger), Ghost(root)) {
            continue ;
        }
        loop
            invariant_except_break
                walk.inv(view, params, ledger, root, false, 0),
            invariant
                view == graph@,
                terrain == view.terrain(),
                whole == trace_of(terrain, params, ledger, root),
                params == *filter_params,
                ledger == capacities@,
                root == node_index,
                params.first_activity@.contains(terrain.nodes[root].purpose),
                walk.done@.len() >= start,
                walk.done@.len() <= whole.len(),
            ensures
                walk.inv(view, params, ledger, root, true, 0),
                walk.done@.len() > start,
            decreases whole.len() - walk.done@.len(), walk.edge_indices.len(),
        {
            match walk.to_sibling(graph, Ghost(params), Ghost(ledger), Ghost(root)) {
                Ok(true) => {
                    break ;
                },
                Ok(false) => {
                    continue ;
                },
                Err(()) => {
                    let to_parent = walk.to_parent(graph, Ghost(params), Ghost(ledger), Ghost(root));
                    if !to_parent {
                        proof {
                            let rest = rest_of(
                                terrain,
                                params,
                                ledger,
                                walk.filter.path(),
                                walk.stops(),
                                walk.positions@,
                            );
                            assert(walk.done@ + Seq::<Visit>::empty() + rest =~= walk.done@);
                        }
                        return (walk.plans, walk.search_steps);
                    }
                },
            }
        }
    }
}

/// The number of chunks into which the start nodes of a stage are divided
/// where nothing else is asked for.
pub const NUMBER_OF_CHUNKS: usize = 100;

/// How far a search has come: what is left of the graph, what is left in
/// the ledger, the plans made, and the moves counted.
pub struct Progress {
    pub terrain: Terrain,
    pub ledger: Ledger,
    pub plans: Seq<Seq<(Node, Edge)>>,
    pub steps: int,
}

/// The indices of the first `upto` nodes with whose purpose a plan may
/// start, in order.
pub open spec fn starts_upto(nodes: Seq<Node>, params: FilterParams, upto: int) -> Seq<int>
    decreases upto,
{
    if upto <= 0 {
        Seq::empty()
    } else if params.first_activity@.contains(nodes[upto - 1].purpose) {
        starts_upto(nodes, params, upto - 1).push(upto - 1)
    } else {
        starts_upto(nodes, params, upto - 1)
    }
}

/// The indices of the nodes with whose purpose a plan may start, in order.
pub open spec fn starts_of(nodes: Seq<Node>, params: FilterParams) -> Seq<int> {
    starts_upto(nodes, params, nodes.len() as int)
}

/// The length of the chunks when `count` start nodes are divided into
/// `chunks` chunks: the quotient, rounded up. All start nodes make one
/// chunk when no chunks are asked for.
pub open spec fn chunk_length(count: int, chunks: int) -> int {
    if chunks <= 0 {
        count
    } else {
        count / chunks + if count % chunks == 0 {
            0int
        } else {
            1int
        }
    }
}

/// The candidates of the searches from each of the roots, in order.
pub open spec fn chunk_candidates(
    terrain: Terrain,
    params: FilterParams,
    ledger: Ledger,
    roots: Seq<int>,
) -> Seq<Path>
    decreases roots.len(),
{
    if roots.len() == 0 {
        Seq::empty()
    } else {
        chunk_candidates(terrain, params, ledger, roots.drop_last()) + candidates_of(
            terrain,
            params,
            ledger,
            roots.last(),
        )
    }
}

/// The moves of the searches from each of the roots, together.
pub open spec fn chunk_moves(
    terrain: Terrain,
    params: FilterParams,
    ledger: Ledger,
    roots: Seq<int>,
) -> nat
    decreases roots.len(),
{
    if roots.len() == 0 {
        0
    } else {
        chunk_moves(terrain, params, ledger, roots.drop_last()) + moves_of(
            terrain,
            params,
            ledger,
            roots.last(),
        )
    }
}

/// The terrain without the arcs that are no longer live.
pub open spec fn pruned(terrain: Terrain, ledger: Ledger) -> Terrain {
    Terrain {
        nodes: terrain.nodes,
        arcs: Seq::new(
            terrain.nodes.len(),
            |n: int| live_arcs(terrain.arcs[n], ledger, terrain.nodes[n]),
        ),
    }
}

/// The progress after the candidates `found`, which took `moves` moves to
/// find, are committed in order: each as often as the ledger can then pay
/// for it. If that made a plan, the arcs that are no longer live are
/// removed.
pub open spec fn committed(state: Progress, found: Seq<Path>, moves: int) -> Progress {
    let ledger = ledger_after(state.ledger, found);
    let made = plans_after(state.ledger, found);
    Progress {
        terrain: if made.len() > 0 {
            pruned(state.terrain, ledger)
        } else {
            state.terrain
        },
        ledger,
        plans: state.plans + made,
        steps: counted(state.steps + moves),
    }
}

/// The progress after a chunk: the searches from its roots all read the
/// ledger as it is before the chunk, and what they find is then committed.
pub open spec fn after_chunk(state: Progress, params: FilterParams, roots: Seq<int>) -> Progress {
    committed(
        state,
        chunk_candidates(state.terrain, params, state.ledger, roots),
        chunk_moves(state.terrain, params, state.ledger, roots) as int,
    )
}

/// The progress after the chunks of `roots` from position `from` on, each
/// `size` roots long but for the last.
pub open spec fn after_chunks(
    state: Progress,
    params: FilterParams,
    roots: Seq<int>,
    size: int,
    from: int,
) -> Progress
    decreases roots.len() - from,
{
    if from < 0 || from >= roots.len() || size <= 0 {
        state
    } else {
        let until = if from + size < roots.len() {
            from + size
        } else {
            roots.len() as int
        };
        after_chunks(
            after_chunk(state, params, roots.subrange(from, until)),
            params,
            roots,
            size,
            until,
        )
    }
}

/// The progress after a stage: the nodes with whose purpose a plan may
/// start are divided into chunks, and the chunks are worked through in
/// order.
pub open spec fn after_stage(state: Progress, params: FilterParams, chunks: int) -> Progress {
    let roots = starts_of(state.terrain.nodes, params);
    after_chunks(state, params, roots, chunk_length(roots.len() as int, chunks), 0)
}

/// The progress after the stages, in order.
pub open spec fn after_stages(state: Progress, stages: Seq<FilterParams>, chunks: int) -> Progress
    decreases stages.len(),
{
    if stages.len() == 0 {
        state
    } else {
        after_stage(after_stages(state, stages.drop_last(), chunks), stages.last(), chunks)
    }
}

/// The length of the chunks when `count` start nodes are divided into
/// `chunk_count` chunks.
pub fn chunk_size(count: usize, chunk_count: usize) -> (size: usize)
    ensures
        size == chunk_length(count as int, chunk_count as int),
        count > 0 ==> 0 < size <= count,
{
    if chunk_count == 0 {
        count
    } else {
        let whole = count / chunk_count;
        proof {
            vstd::arithmetic::div_mod::lemma_fundamental_div_mod(count as int, chunk_count as int);
            assert(whole * chunk_count <= count ==> whole <= count) by (nonlinear_arith)
                requires
                    chunk_count >= 1,
                    whole >= 0,
            ;
            assert(chunk_count * whole == whole * chunk_count) by (nonlinear_arith);
            if count % chunk_count != 0 {
                assert(whole < count) by (nonlinear_arith)
                    requires
                        count == chunk_count * whole + count % chunk_count,
                        count % chunk_count > 0,
                        chunk_count >= 1,
                        whole >= 0,
                ;
            }
            if whole == 0 && count > 0 {
                assert(chunk_count * 0 == 0) by (nonlinear_arith);
            }
        }
        if count % chunk_count == 0 {
            whole
        } else {
            whole + 1
        }
    }
}

fn add_moves(a: u64, b: u64) -> (sum: u64)
    ensures
        sum == counted(a + b),
{
    if a > u64::MAX - b {
        u64::MAX
    } else {
        a + b
    }
}

/// A search in progress: the graph, the ledger, the plans made so far and
/// the number of moves counted so far.
pub struct Search {
    graph: StateGraph,
    capacities: Capacities,
    plans: Vec<Vec<(Node, Edge)>>,
    total_steps: u64,
}

impl View for Search {
    type V = Progress;

    closed spec fn view(&self) -> Progress {
        Progress {
            terrain: self.graph@.terrain(),
            ledger: self.capacities@,
            plans: plan_views(self.plans@),
            steps: self.total_steps as int,
        }
    }
}

impl Search {
    /// The graph as it stands.
    pub closed spec fn graph_view(&self) -> GraphView {
        self.graph@
    }

    /// Builds the graph and the ledger of the reference data, with no plan
    /// made yet.
    pub fn new(data: &ReferenceData) -> (search: Search)
        requires
            data.wf(),
            data.trips.len() * 48 * data.modes.len() < u32::MAX,
        ensures
            built_from(search.graph_view(), *data),
            initial_ledger(search@.ledger, *data),
            search@.terrain == search.graph_view().terrain(),
            search@.plans == Seq::<Seq<(Node, Edge)>>::empty(),
            search@.steps == 0,
    {
        let search = Search {
            graph: StateGraph::new(data),
            capacities: Capacities::new(data),
            plans: Vec::new(),
            total_steps: 0,
        };
        proof {
            assert(search@.plans =~= Seq::<Seq<(Node, Edge)>>::empty());
        }
        search
    }

    /// The graph as it stands.
    pub fn graph(&self) -> (graph: &StateGraph)
        ensures
            graph@ == self.graph_view(),
            graph@.terrain() == self@.terrain,
    {
        &self.graph
    }

    /// The ledger as it stands.
    pub fn capacities(&self) -> (capacities: &Capacities)
        ensures
            capacities@ == self@.ledger,
    {
        &self.capacities
    }

    /// The plans made so far.
    pub fn plans(&self) -> (plans: &Vec<Vec<(Node, Edge)>>)
        ensures
            plan_views(plans@) == self@.plans,
    {
        &self.plans
    }

    /// The number of moves counted so far.
    pub fn total_steps(&self) -> (steps: u64)
        ensures
            steps == self@.steps,
    {
        self.total_steps
    }

    /// Ends the search and hands out the plans.
    pub fn into_plans(self) -> (plans: Vec<Vec<(Node, Edge)>>)
        ensures
            plan_views(plans@) == self@.plans,
    {
        self.plans
    }

    /// The indices of the nodes with whose purpose a plan may start.
    pub fn start_nodes(&self, params: &FilterParams) -> (roots: Vec<usize>)
        ensures
            ints(roots@) == starts_of(self@.terrain.nodes, *params),
            forall|i: int| 0 <= i < roots.len() ==> #[trigger] roots[i] < self@.terrain.nodes.len(),
    {
        let count = self.graph.node_count();
        let ghost nodes = self.graph@.nodes;
        let mut roots: Vec<usize> = Vec::new();
        let mut n: usize = 0;
        while n < count
            invariant
                n <= count,
                count == nodes.len(),
                nodes == self.graph@.nodes,
                ints(roots@) == starts_upto(nodes, *params, n as int),
                forall|i: int| 0 <= i < roots.len() ==> #[trigger] roots[i] < nodes.len(),
            decreases count - n,
        {
            let purpose = self.graph.node(n).purpose;
            let mut allowed = false;
            let mut i: usize = 0;
            while i < params.first_activity.len()
                invariant
                    i <= params.first_activity.len(),
                    allowed == params.first_activity@.take(i as int).contains(purpose),
                decreases params.first_activity.len() - i,
            {
                proof {
                    let now = params.first_activity@.take(i as int);
                    let next = params.first_activity@.take(i + 1);
                    assert(next =~= now.push(params.first_activity@[i as int]));
                    if now.contains(purpose) {
                        let k = choose|k: int| 0 <= k < now.len() && now[k] == purpose;
                        assert(next[k] == purpose);
                    }
                    if next.contains(purpose) {
                        let k = choose|k: int| 0 <= k < next.len() && next[k] == purpose;
                        if k < i {
                            assert(now[k] == purpose);
                        }
                    }
                    assert(next[i as int] == params.first_activity@[i as int]);
                }
                if params.first_activity[i] == purpose {
                    allowed = true;
                }
                i = i + 1;
            }
            proof {
                assert(params.first_activity@.take(i as int) =~= params.first_activity@);
            }
            if allowed {
                let ghost before = ints(roots@);
                roots.push(n);
                proof {
                    assert(ints(roots@) =~= before.push(n as int));
                }
            }
            n = n + 1;
        }
        roots
    }

    /// Commits the candidates in order, each as often as the ledger can
    /// then pay for it, counts the moves that it took to find them, and
    /// removes the edges that are no longer live if a plan was made.
    pub fn commit(&mut self, candidates: &Vec<PotentialPath>, steps: u64)
        ensures
            final(self)@ == committed(old(self)@, paths_of(candidates@), steps as int),
            final(self).graph_view().nodes == old(self).graph_view().nodes,
    {
        let ghost before = self@;
        let ghost view = self.graph@;
        self.total_steps = add_moves(self.total_steps, steps);
        let prev_plan_count = self.plans.len();
        extract_all(candidates, &mut self.capacities, &mut self.plans);
        if self.plans.len() > prev_plan_count {
            let node_count = self.graph.node_count();
            self.graph.filter_edges(&self.capacities);
            proof {
                let after = self.graph@;
                let goal = pruned(before.terrain, self.capacities@);
                assert(after.terrain().arcs =~= goal.arcs) by {
                    assert forall|n: int| 0 <= n < after.nodes.len() implies after.terrain().arcs[n]
                        == goal.arcs[n] by {
                        assert(after.arcs(n) == live_arcs(
                            view.arcs(n),
                            self.capacities@,
                            view.nodes[n],
                        ));
                        assert(before.terrain.arcs[n] == view.arcs(n));
                    }
                }
                assert(after.terrain() == goal);
            }
        }
        proof {
            let goal = committed(before, paths_of(candidates@), steps as int);
            assert(self@.ledger == goal.ledger);
            assert(self@.plans == goal.plans);
            assert(self@.steps == goal.steps);
            assert(self@.terrain == goal.terrain);
        }
    }
}

proof fn lemma_chunk_step(
    terrain: Terrain,
    params: FilterParams,
    ledger: Ledger,
    roots: Seq<int>,
    from: int,
    i: int,
)
    requires
        0 <= from <= i < roots.len(),
    ensures
        chunk_candidates(terrain, params, ledger, roots.subrange(from, i + 1)) == chunk_candidates(
            terrain,
            params,
            ledger,
            roots.subrange(from, i),
        ) + candidates_of(terrain, params, ledger, roots[i]),
        chunk_moves(terrain, params, ledger, roots.subrange(from, i + 1)) == chunk_moves(
            terrain,
            params,
            ledger,
            roots.subrange(from, i),
        ) + moves_of(terrain, params, ledger, roots[i]),
{
    assert(roots.subrange(from, i + 1).drop_last() =~= roots.subrange(from, i));
}

impl Search {
    /// Works through a chunk: searches from each of the roots from
    /// position `from` up to position `until`, all reading the ledger as
    /// it is now, and commits what they find.
    pub fn run_chunk(&mut self, params: &FilterParams, roots: &Vec<usize>, from: usize, until: usize)
        requires
            from <= until <= roots.len(),
            forall|i: int|
                0 <= i < roots.len() ==> #[trigger] roots[i] < old(self)@.terrain.nodes.len(),
        ensures
            final(self)@ == after_chunk(
                old(self)@,
                *params,
                ints(roots@).subrange(from as int, until as int),
            ),
            final(self)@.terrain.nodes == old(self)@.terrain.nodes,
    {
        let ghost state = self@;
        let ghost all = ints(roots@);
        let mut candidates: Vec<PotentialPath> = Vec::new();
        let mut steps: u64 = 0;
        let mut i: usize = from;
        proof {
            assert(all.subrange(from as int, from as int) =~= Seq::<int>::empty());
            assert(paths_of(candidates@) =~= Seq::<Path>::empty());
        }
        while i < until
            invariant
                from <= i <= until <= roots.len(),
                state == self@,
                all == ints(roots@),
                forall|k: int| 0 <= k < roots.len() ==> #[trigger] roots[k] < state.terrain.nodes.len(),
                paths_of(candidates@) == chunk_candidates(
                    state.terrain,
                    *params,
                    state.ledger,
                    all.subrange(from as int, i as int),
                ),
                steps == counted(
                    chunk_moves(
                        state.terrain,
                        *params,
                        state.ledger,
                        all.subrange(from as int, i as int),
                    ) as int,
                ),
            decreases until - i,
        {
            let (mut paths, moves) = execute(&self.graph, roots[i], &self.capacities, params);
            let ghost earlier = candidates@;
            let ghost fresh = paths@;
            proof {
                lemma_chunk_step(
                    state.terrain,
                    *params,
                    state.ledger,
                    all,
                    from as int,
                    i as int,
                );
            }
            candidates.append(&mut paths);
            steps = add_moves(steps, moves);
            proof {
                assert(paths_of(candidates@) =~= paths_of(earlier) + paths_of(fresh));
            }
            i = i + 1;
        }
        self.commit(&candidates, steps);
    }

    /// Works through a stage: divides the nodes with whose purpose a plan
    /// may start into `chunk_count` chunks and works through the chunks in
    /// order.
    pub fn run_stage(&mut self, params: &FilterParams, chunk_count: usize)
        ensures
            final(self)@ == after_stage(old(self)@, *params, chunk_count as int),
            final(self)@.terrain.nodes == old(self)@.terrain.nodes,
    {
        let roots = self.start_nodes(params);
        let size = chunk_size(roots.len(), chunk_count);
        let ghost start = self@;
        let ghost all = ints(roots@);
        let ghost goal = after_stage(start, *params, chunk_count as int);
        let mut from: usize = 0;
        while from < roots.len()
            invariant
                from <= roots.len(),
                all == ints(roots@),
                roots.len() > 0 ==> 0 < size,
                self@.terrain.nodes == start.terrain.nodes,
                forall|i: int| 0 <= i < roots.len() ==> #[trigger] roots[i] < self@.terrain.nodes.len(),
                after_chunks(self@, *params, all, size as int, from as int) == goal,
            decreases roots.len() - from,
        {
            let until = if size >= roots.len() - from {
                roots.len()
            } else {
                from + size
            };
            self.run_chunk(params, &roots, from, until);
            from = until;
        }
    }

    /// Works through the stages in order.
    pub fn run(&mut self, stages: &Vec<FilterParams>, chunk_count: usize)
        ensures
            final(self)@ == after_stages(old(self)@, stages@, chunk_count as int),
            final(self)@.terrain.nodes == old(self)@.terrain.nodes,
    {
        let ghost start = self@;
        let mut i: usize = 0;
        proof {
            assert(stages@.take(0) =~= Seq::<FilterParams>::empty());
        }
        while i < stages.len()
            invariant
                i <= stages.len(),
                self@.terrain.nodes == start.terrain.nodes,
                self@ == after_stages(start, stages@.take(i as int), chunk_count as int),
            decreases stages.len() - i,
        {
            proof {
                assert(stages@.take(i + 1).drop_last() =~= stages@.take(i as int));
            }
            self.run_stage(&stages[i], chunk_count);
            i = i + 1;
        }
        proof {
            assert(stages@.take(i as int) =~= stages@);
        }
    }
}

/// The plans are those of a search through the stages that starts with a
/// graph and a ledger of the reference data.
pub open spec fn searched(
    plans: Seq<Seq<(Node, Edge)>>,
    data: ReferenceData,
    stages: Seq<FilterParams>,
    chunks: int,
) -> bool {
    exists|graph: GraphView, ledger: Ledger|
        #![trigger built_from(graph, data), initial_ledger(ledger, data)]
        built_from(graph, data) && initial_ledger(ledger, data) && plans == after_stages(
            Progress { terrain: graph.terrain(), ledger, plans: Seq::empty(), steps: 0 },
            stages,
            chunks,
        ).plans
}

/// The reference data, the stages and the number of chunks determine the
/// plans of a search.
pub proof fn lemma_search_is_repeatable(
    first: Seq<Seq<(Node, Edge)>>,
    second: Seq<Seq<(Node, Edge)>>,
    data: ReferenceData,
    stages: Seq<FilterParams>,
    chunks: int,
)
    requires
        searched(first, data, stages, chunks),
        searched(second, data, stages, chunks),
    ensures
        first == second,
{
    let (graph_a, ledger_a) = choose|graph: GraphView, ledger: Ledger|
        #![trigger built_from(graph, data), initial_ledger(ledger, data)]
        built_from(graph, data) && initial_ledger(ledger, data) && first == after_stages(
            Progress { terrain: graph.terrain(), ledger, plans: Seq::empty(), steps: 0 },
            stages,
            chunks,
        ).plans;
    let (graph_b, ledger_b) = choose|graph: GraphView, ledger: Ledger|
        #![trigger built_from(graph, data), initial_ledger(ledger, data)]
        built_from(graph, data) && initial_ledger(ledger, data) && second == after_stages(
            Progress { terrain: graph.terrain(), ledger, plans: Seq::empty(), steps: 0 },
            stages,
            chunks,
        ).plans;
    lemma_build_is_repeatable(graph_a, graph_b, data);
    lemma_initial_ledger_unique(ledger_a, ledger_b, data);
}

/// Builds the graph and the ledger of the reference data, works through
/// the stages, and returns the plans made.
pub fn search(data: &ReferenceData, stages: &Vec<FilterParams>, chunk_count: usize) -> (plans: Vec<
    Vec<(Node, Edge)>,
>)
    requires
        data.wf(),
        data.trips.len() * 48 * data.modes.len() < u32::MAX,
    ensures
        searched(plan_views(plans@), *data, stages@, chunk_count as int),
{
    let mut search = Search::new(data);
    let ghost start = search@;
    let ghost graph = search.graph_view();
    search.run(stages, chunk_count);
    proof {
        assert(start == Progress {
            terrain: graph.terrain(),
            ledger: start.ledger,
            plans: Seq::empty(),
            steps: 0,
        });
        assert(built_from(graph, *data) && initial_ledger(start.ledger, *data));
    }
    search.into_plans()
}

/// The path of every step of a search has a state before and after each
/// edge, if the path from which the search sets out has.
pub proof fn lemma_trace_paths(
    terrain: Terrain,
    params: FilterParams,
    ledger: Ledger,
    path: Path,
    at: int,
    from: int,
)
    requires
        path.nodes.len() == path.edges.len() + 1,
    ensures
        forall|i: int|
            0 <= i < trace_from(terrain, params, ledger, path, at, from).len() ==> (
            #[trigger] trace_from(terrain, params, ledger, path, at, from)[i]).path.nodes.len()
                == trace_from(terrain, params, ledger, path, at, from)[i].path.edges.len() + 1,
    decreases depth_limit() - path.edges.len(), terrain.arcs[at].len() - from,
{
    let trace = trace_from(terrain, params, ledger, path, at, from);
    if !(path.edges.len() >= depth_limit() || from < 0 || from >= terrain.arcs[at].len()) {
        let arc = terrain.arcs[at][from];
        let child = path.extended(terrain.nodes[arc.0 as int], arc.1);
        let verdict = path_verdict(params, ledger, child);
        let below = if verdict == Verdict::Reject {
            Seq::<Visit>::empty()
        } else {
            trace_from(terrain, params, ledger, child, arc.0 as int, 0)
        };
        let beside = trace_from(terrain, params, ledger, path, at, from + 1);
        if verdict != Verdict::Reject {
            lemma_trace_paths(terrain, params, ledger, child, arc.0 as int, 0);
        }
        lemma_trace_paths(terrain, params, ledger, path, at, from + 1);
        assert forall|i: int| 0 <= i < trace.len() implies (#[trigger] trace[i]).path.nodes.len()
            == trace[i].path.edges.len() + 1 by {
            if i == 0 {
            } else if i < 1 + below.len() {
                assert(trace[i] == below[i - 1]);
            } else {
                assert(trace[i] == beside[i - 1 - below.len()]);
            }
        }
    }
}

/// Every candidate of a chunk has a state before and after each edge.
pub proof fn lemma_chunk_candidates_are_paths(
    terrain: Terrain,
    params: FilterParams,
    ledger: Ledger,
    roots: Seq<int>,
)
    ensures
        forall|k: int|
            0 <= k < chunk_candidates(terrain, params, ledger, roots).len() ==> (
            #[trigger] chunk_candidates(terrain, params, ledger, roots)[k]).nodes.len()
                == chunk_candidates(terrain, params, ledger, roots)[k].edges.len() + 1,
    decreases roots.len(),
{
    if roots.len() > 0 {
        let front = chunk_candidates(terrain, params, ledger, roots.drop_last());
        let last = candidates_of(terrain, params, ledger, roots.last());
        let all = chunk_candidates(terrain, params, ledger, roots);
        lemma_chunk_candidates_are_paths(terrain, params, ledger, roots.drop_last());
        assert forall|k: int| 0 <= k < all.len() implies (#[trigger] all[k]).nodes.len()
            == all[k].edges.len() + 1 by {
            if k < front.len() {
                assert(all[k] == front[k]);
            } else {
                let j = k - front.len();
                assert(all[k] == last[j]);
                let trace = trace_of(terrain, params, ledger, roots.last());
                let i = lemma_accepted_are_steps(trace, j);
                lemma_trace_paths(
                    terrain,
                    params,
                    ledger,
                    root_path(terrain, roots.last()),
                    roots.last(),
                    0,
                );
            }
        }
    }
}

/// Whatever candidates are handed in to be committed, by one search or by
/// many at a time: what is then left of a resource and what all plans use
/// of it are together what was left of it and what the plans used of it
/// before.
pub proof fn lemma_committed_conserves(
    state: Progress,
    found: Seq<Path>,
    moves: int,
    resource: Resource,
)
    requires
        forall|i: int|
            0 <= i < found.len() ==> (#[trigger] found[i]).nodes.len() == found[i].edges.len() + 1,
    ensures
        left_of(committed(state, found, moves).ledger, resource) + plans_use(
            committed(state, found, moves).plans,
            resource,
        ) == left_of(state.ledger, resource) + plans_use(state.plans, resource),
        left_of(committed(state, found, moves).ledger, resource) <= left_of(
            state.ledger,
            resource,
        ),
{
    lemma_commits_conserve(state.ledger, found, resource);
    lemma_plans_use_add(state.plans, plans_after(state.ledger, found), resource);
}

/// A chunk neither makes nor loses capacity.
pub proof fn lemma_chunks_conserve(
    state: Progress,
    params: FilterParams,
    roots: Seq<int>,
    size: int,
    from: int,
    resource: Resource,
)
    ensures
        left_of(after_chunks(state, params, roots, size, from).ledger, resource) + plans_use(
            after_chunks(state, params, roots, size, from).plans,
            resource,
        ) == left_of(state.ledger, resource) + plans_use(state.plans, resource),
        left_of(after_chunks(state, params, roots, size, from).ledger, resource) <= left_of(
            state.ledger,
            resource,
        ),
    decreases roots.len() - from,
{
    if !(from < 0 || from >= roots.len() || size <= 0) {
        let until = if from + size < roots.len() {
            from + size
        } else {
            roots.len() as int
        };
        let chunk = roots.subrange(from, until);
        lemma_chunk_candidates_are_paths(state.terrain, params, state.ledger, chunk);
        lemma_committed_conserves(
            state,
            chunk_candidates(state.terrain, params, state.ledger, chunk),
            chunk_moves(state.terrain, params, state.ledger, chunk) as int,
            resource,
        );
        lemma_chunks_conserve(
            after_chunk(state, params, chunk),
            params,
            roots,
            size,
            until,
            resource,
        );
    }
}

/// The ledger of a search is never oversubscribed: after any number of
/// stages, what is left of a resource and what the plans use of it are
/// together what was left of it and what the plans used of it at the start.
/// What is left never grows, and the plans of a search that starts without
/// plans never use more of a resource than the ledger had.
pub proof fn lemma_search_conserves(
    state: Progress,
    stages: Seq<FilterParams>,
    chunks: int,
    resource: Resource,
)
    ensures
        left_of(after_stages(state, stages, chunks).ledger, resource) + plans_use(
            after_stages(state, stages, chunks).plans,
            resource,
        ) == left_of(state.ledger, resource) + plans_use(state.plans, resource),
        left_of(after_stages(state, stages, chunks).ledger, resource) <= left_of(
            state.ledger,
            resource,
        ),
        state.plans.len() == 0 ==> plans_use(after_stages(state, stages, chunks).plans, resource)
            <= left_of(state.ledger, resource),
    decreases stages.len(),
{
    if stages.len() > 0 {
        lemma_search_conserves(state, stages.drop_last(), chunks, resource);
        let before = after_stages(state, stages.drop_last(), chunks);
        let roots = starts_of(before.terrain.nodes, stages.last());
        lemma_chunks_conserve(
            before,
            stages.last(),
            roots,
            chunk_length(roots.len() as int, chunks),
            0,
            resource,
        );
    }
}

} // verus!
