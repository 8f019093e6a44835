//! What a search finds, said without the search: the candidates are the
//! walks from the start node that satisfy the filters and none of whose
//! beginnings the filters reject.

use vstd::prelude::*;

use crate::capacities::Ledger;
use crate::filters::lemma_duration_bounds;
use crate::filters::path_verdict;
use crate::filters::FilterParams;
use crate::filters::Path;
use crate::filters::Verdict;
use crate::graph::GraphView;
use crate::search::accepted;
use crate::search::candidates_of;
use crate::search::depth_limit;
use crate::search::root_path;
use crate::search::trace_from;
use crate::search::trace_of;
use crate::search::Terrain;
use crate::search::Visit;

verus! {

impl Terrain {
    /// Every node has its arcs, every arc leads to a node, and every node
    /// has a time bin of the day.
    pub open spec fn wf(self) -> bool {
        &&& self.arcs.len() == self.nodes.len()
        &&& forall|n: int, p: int|
            0 <= n < self.arcs.len() && 0 <= p < self.arcs[n].len() ==> (#[trigger] self.arcs[n][p]).0
                < self.nodes.len()
        &&& forall|n: int| 0 <= n < self.nodes.len() ==> (#[trigger] self.nodes[n]).time_bin@ < 48
    }
}

/// The terrain of a well-formed graph is well formed.
pub proof fn lemma_terrain_wf(graph: GraphView)
    requires
        graph.wf(),
    ensures
        graph.terrain().wf(),
{
    let terrain = graph.terrain();
    assert forall|n: int, p: int|
        0 <= n < terrain.arcs.len() && 0 <= p < terrain.arcs[n].len() implies (
    #[trigger] terrain.arcs[n][p]).0 < terrain.nodes.len() by {
        assert(terrain.arcs[n] == graph.arcs(n));
        assert(graph.out[n][p] < graph.links.len());
        assert(graph.links[graph.out[n][p] as int].1 < graph.nodes.len());
    }
}

/// The beginning of a path: its first `edges` edges.
pub open spec fn beginning(path: Path, edges: int) -> Path {
    Path { nodes: path.nodes.take(edges + 1), edges: path.edges.take(edges) }
}

/// `path` is a walk on the terrain from node `root`: it passes the nodes
/// `stops`, and its edge after `i` edges is the arc at place `choices[i]`
/// among the arcs of the node that it has then reached.
pub open spec fn is_walk(
    terrain: Terrain,
    root: int,
    path: Path,
    stops: Seq<int>,
    choices: Seq<int>,
) -> bool {
    &&& path.nodes.len() == path.edges.len() + 1
    &&& stops.len() == path.nodes.len()
    &&& choices.len() == path.edges.len()
    &&& stops[0] == root
    &&& forall|i: int|
        0 <= i < stops.len() ==> 0 <= #[trigger] stops[i] < terrain.nodes.len() && path.nodes[i]
            == terrain.nodes[stops[i]]
    &&& forall|i: int|
        0 <= i < choices.len() ==> 0 <= #[trigger] choices[i] < terrain.arcs[stops[i]].len()
            && terrain.arcs[stops[i]][choices[i]].0 == stops[i + 1]
            && terrain.arcs[stops[i]][choices[i]].1 == path.edges[i]
}

/// The filters reject no beginning of the path that is shorter than the
/// path and has an edge.
pub open spec fn beginnings_continue(params: FilterParams, ledger: Ledger, path: Path) -> bool {
    forall|k: int|
        1 <= k < path.edges.len() ==> path_verdict(params, ledger, #[trigger] beginning(path, k))
            != Verdict::Reject
}

/// `path` can be reached by a search from node `root`: it is a walk from
/// the root with at least one edge, and the filters reject none of its
/// shorter beginnings.
pub open spec fn reachable(
    terrain: Terrain,
    params: FilterParams,
    ledger: Ledger,
    root: int,
    path: Path,
) -> bool {
    &&& path.edges.len() >= 1
    &&& beginnings_continue(params, ledger, path)
    &&& exists|stops: Seq<int>, choices: Seq<int>| #[trigger]
        is_walk(terrain, root, path, stops, choices)
}

/// A step through the arcs of a node from some place on is one of the
/// steps through its arcs from an earlier place on.
proof fn lemma_later_steps(
    terrain: Terrain,
    params: FilterParams,
    ledger: Ledger,
    path: Path,
    at: int,
    from: int,
    later: int,
    visit: Visit,
)
    requires
        0 <= from <= later,
        trace_from(terrain, params, ledger, path, at, later).contains(visit),
    ensures
        trace_from(terrain, params, ledger, path, at, from).contains(visit),
    decreases later - from,
{
    if from < later {
        lemma_later_steps(terrain, params, ledger, path, at, from + 1, later, visit);
        let beside = trace_from(terrain, params, ledger, path, at, from + 1);
        let all = trace_from(terrain, params, ledger, path, at, from);
        let i = choose|i: int| 0 <= i < beside.len() && beside[i] == visit;
        assert(from < terrain.arcs[at].len() && path.edges.len() < depth_limit()) by {
            if !(from < terrain.arcs[at].len() && path.edges.len() < depth_limit()) {
                assert(trace_from(terrain, params, ledger, path, at, later).len() == 0);
            }
        }
        assert(all[all.len() - beside.len() + i] == visit);
    }
}

/// The steps of a search hold the step to each arc of the node at which
/// the path ends, and unless that step is rejected, every step below it.
proof fn lemma_steps_of_arc(
    terrain: Terrain,
    params: FilterParams,
    ledger: Ledger,
    path: Path,
    at: int,
    place: int,
)
    requires
        path.edges.len() < depth_limit(),
        0 <= place < terrain.arcs[at].len(),
    ensures
        ({
            let arc = terrain.arcs[at][place];
            let child = path.extended(terrain.nodes[arc.0 as int], arc.1);
            let verdict = path_verdict(params, ledger, child);
            &&& trace_from(terrain, params, ledger, path, at, 0).contains(
                Visit { path: child, verdict },
            )
            &&& verdict != Verdict::Reject ==> forall|visit: Visit|
                trace_from(terrain, params, ledger, child, arc.0 as int, 0).contains(visit)
                    ==> #[trigger] trace_from(terrain, params, ledger, path, at, 0).contains(visit)
        }),
{
    let arc = terrain.arcs[at][place];
    let child = path.extended(terrain.nodes[arc.0 as int], arc.1);
    let verdict = path_verdict(params, ledger, child);
    let here = trace_from(terrain, params, ledger, path, at, place);
    let below = if verdict == Verdict::Reject {
        Seq::<Visit>::empty()
    } else {
        trace_from(terrain, params, ledger, child, arc.0 as int, 0)
    };
    assert(here[0] == Visit { path: child, verdict });
    lemma_later_steps(terrain, params, ledger, path, at, 0, place, Visit { path: child, verdict });
    if verdict != Verdict::Reject {
        assert forall|visit: Visit| below.contains(visit) implies #[trigger] trace_from(
            terrain,
            params,
            ledger,
            path,
            at,
            0,
        ).contains(visit) by {
            let i = choose|i: int| 0 <= i < below.len() && below[i] == visit;
            assert(here[1 + i] == visit);
            lemma_later_steps(terrain, params, ledger, path, at, 0, place, visit);
        }
    }
}

/// Every beginning of a reachable path is a step of the search, and so is
/// every step below a beginning that is not rejected.
proof fn lemma_beginnings_are_steps(
    terrain: Terrain,
    params: FilterParams,
    ledger: Ledger,
    root: int,
    path: Path,
    stops: Seq<int>,
    choices: Seq<int>,
    k: int,
)
    requires
        terrain.wf(),
        is_walk(terrain, root, path, stops, choices),
        beginnings_continue(params, ledger, path),
        1 <= k <= path.edges.len(),
    ensures
        trace_of(terrain, params, ledger, root).contains(
            Visit {
                path: beginning(path, k),
                verdict: path_verdict(params, ledger, beginning(path, k)),
            },
        ),
        path_verdict(params, ledger, beginning(path, k)) != Verdict::Reject ==> forall|visit: Visit|
            trace_from(terrain, params, ledger, beginning(path, k), stops[k], 0).contains(visit)
                ==> #[trigger] trace_of(terrain, params, ledger, root).contains(visit),
    decreases k,
{
    let whole = trace_of(terrain, params, ledger, root);
    let shorter = beginning(path, k - 1);
    let this = beginning(path, k);
    let arc = terrain.arcs[stops[k - 1]][choices[k - 1]];
    assert(arc.0 == stops[k] && arc.1 == path.edges[k - 1]);
    assert(this.nodes =~= shorter.nodes.push(terrain.nodes[stops[k]]));
    assert(this.edges =~= shorter.edges.push(path.edges[k - 1]));
    assert(this == shorter.extended(terrain.nodes[arc.0 as int], arc.1));
    if k == 1 {
        assert(shorter.nodes =~= seq![terrain.nodes[root]]);
        assert(shorter.edges =~= Seq::empty());
        assert(shorter == root_path(terrain, root));
        lemma_steps_of_arc(terrain, params, ledger, shorter, root, choices[0]);
    } else {
        lemma_beginnings_are_steps(terrain, params, ledger, root, path, stops, choices, k - 1);
        assert(path_verdict(params, ledger, shorter) != Verdict::Reject);
        assert forall|i: int| 0 <= i < shorter.nodes.len() implies (
        #[trigger] shorter.nodes[i]).time_bin@ < 48 by {
            assert(shorter.nodes[i] == terrain.nodes[stops[i]]);
        }
        lemma_duration_bounds(shorter.nodes);
        lemma_steps_of_arc(terrain, params, ledger, shorter, stops[k - 1], choices[k - 1]);
        let visit = Visit { path: this, verdict: path_verdict(params, ledger, this) };
        assert(trace_from(terrain, params, ledger, shorter, stops[k - 1], 0).contains(visit));
        assert(whole.contains(visit));
        if path_verdict(params, ledger, this) != Verdict::Reject {
            assert forall|below: Visit|
                trace_from(terrain, params, ledger, this, stops[k], 0).contains(
                    below,
                ) implies #[trigger] whole.contains(below) by {
                assert(trace_from(terrain, params, ledger, shorter, stops[k - 1], 0).contains(
                    below,
                ));
            }
        }
    }
}

/// The path of a step with which the filters were satisfied is accepted.
proof fn lemma_satisfied_is_accepted(trace: Seq<Visit>, visit: Visit)
    requires
        trace.contains(visit),
        visit.verdict == Verdict::Satisfied,
    ensures
        accepted(trace).contains(visit.path),
    decreases trace.len(),
{
    let front = trace.drop_last();
    let i = choose|i: int| 0 <= i < trace.len() && trace[i] == visit;
    if i == trace.len() - 1 {
        let found = accepted(trace);
        assert(found[found.len() - 1] == visit.path);
    } else {
        assert(front[i] == visit);
        lemma_satisfied_is_accepted(front, visit);
        let k = choose|k: int| 0 <= k < accepted(front).len() && accepted(front)[k] == visit.path;
        assert(accepted(trace)[k] == visit.path);
    }
}

/// Every step of a search below a walk is itself a walk that continues
/// it, and the filters reject none of its shorter beginnings.
proof fn lemma_steps_are_reachable(
    terrain: Terrain,
    params: FilterParams,
    ledger: Ledger,
    root: int,
    path: Path,
    stops: Seq<int>,
    choices: Seq<int>,
    from: int,
)
    requires
        terrain.wf(),
        is_walk(terrain, root, path, stops, choices),
        beginnings_continue(params, ledger, path),
        path.edges.len() >= 1 ==> path_verdict(params, ledger, path) != Verdict::Reject,
        0 <= from,
    ensures
        forall|i: int|
            0 <= i < trace_from(terrain, params, ledger, path, stops.last(), from).len()
                ==> reachable(
                terrain,
                params,
                ledger,
                root,
                (#[trigger] trace_from(terrain, params, ledger, path, stops.last(), from)[i]).path,
            ),
    decreases depth_limit() - path.edges.len(), terrain.arcs[stops.last()].len() - from,
{
    let at = stops.last();
    let trace = trace_from(terrain, params, ledger, path, at, from);
    if !(path.edges.len() >= depth_limit() || from >= terrain.arcs[at].len()) {
        let arc = terrain.arcs[at][from];
        let child = path.extended(terrain.nodes[arc.0 as int], arc.1);
        let verdict = path_verdict(params, ledger, child);
        let child_stops = stops.push(arc.0 as int);
        let child_choices = choices.push(from);
        let below = if verdict == Verdict::Reject {
            Seq::<Visit>::empty()
        } else {
            trace_from(terrain, params, ledger, child, arc.0 as int, 0)
        };
        let beside = trace_from(terrain, params, ledger, path, at, from + 1);
        assert(is_walk(terrain, root, child, child_stops, child_choices)) by {
            assert forall|i: int| 0 <= i < child_stops.len() implies 0 <= #[trigger] child_stops[i]
                < terrain.nodes.len() && child.nodes[i] == terrain.nodes[child_stops[i]] by {
                if i < stops.len() {
                    assert(child_stops[i] == stops[i]);
                }
            }
            assert forall|i: int| 0 <= i < child_choices.len() implies 0
                <= #[trigger] child_choices[i] < terrain.arcs[child_stops[i]].len()
                && terrain.arcs[child_stops[i]][child_choices[i]].0 == child_stops[i + 1]
                && terrain.arcs[child_stops[i]][child_choices[i]].1 == child.edges[i] by {
                if i < choices.len() {
                    assert(child_choices[i] == choices[i]);
                    assert(child_stops[i] == stops[i]);
                    assert(child_stops[i + 1] == stops[i + 1]);
                }
            }
        }
        assert(beginnings_continue(params, ledger, child)) by {
            assert forall|k: int| 1 <= k < child.edges.len() implies path_verdict(
                params,
                ledger,
                #[trigger] beginning(child, k),
            ) != Verdict::Reject by {
                if k < path.edges.len() {
                    assert(beginning(child, k).nodes =~= beginning(path, k).nodes);
                    assert(beginning(child, k).edges =~= beginning(path, k).edges);
                    assert(beginning(child, k) == beginning(path, k));
                } else {
                    assert(beginning(child, k).nodes =~= path.nodes);
                    assert(beginning(child, k).edges =~= path.edges);
                    assert(beginning(child, k) == path);
                }
            }
        }
        assert(reachable(terrain, params, ledger, root, child));
        if verdict != Verdict::Reject {
            assert(child_stops.last() == arc.0);
            lemma_steps_are_reachable(
                terrain,
                params,
                ledger,
                root,
                child,
                child_stops,
                child_choices,
                0,
            );
        }
        lemma_steps_are_reachable(terrain, params, ledger, root, path, stops, choices, from + 1);
        assert forall|i: int| 0 <= i < trace.len() implies reachable(
            terrain,
            params,
            ledger,
            root,
            (#[trigger] trace[i]).path,
        ) by {
            if i == 0 {
            } else if i < 1 + below.len() {
                assert(trace[i] == below[i - 1]);
            } else {
                assert(trace[i] == beside[i - 1 - below.len()]);
            }
        }
    }
}

/// The candidates of a search are the paths that it can reach and that
/// satisfy the filters, and no others.
pub proof fn lemma_candidates_are_the_admissible_walks(
    terrain: Terrain,
    params: FilterParams,
    ledger: Ledger,
    root: int,
    path: Path,
)
    requires
        terrain.wf(),
        0 <= root < terrain.nodes.len(),
    ensures
        candidates_of(terrain, params, ledger, root).contains(path) <==> {
            &&& params.first_activity@.contains(terrain.nodes[root].purpose)
            &&& reachable(terrain, params, ledger, root, path)
            &&& path_verdict(params, ledger, path) == Verdict::Satisfied
        },
{
    let whole = trace_of(terrain, params, ledger, root);
    if params.first_activity@.contains(terrain.nodes[root].purpose) {
        if candidates_of(terrain, params, ledger, root).contains(path) {
            let k = choose|k: int| 0 <= k < accepted(whole).len() && accepted(whole)[k] == path;
            let i = crate::search::lemma_accepted_are_steps(whole, k);
            crate::search::lemma_trace_verdicts(
                terrain,
                params,
                ledger,
                root_path(terrain, root),
                root,
                0,
            );
            let start = root_path(terrain, root);
            assert(is_walk(terrain, root, start, seq![root], Seq::empty()));
            assert(seq![root].last() == root);
            lemma_steps_are_reachable(
                terrain,
                params,
                ledger,
                root,
                start,
                seq![root],
                Seq::empty(),
                0,
            );
            assert(reachable(terrain, params, ledger, root, whole[i].path));
        }
        if reachable(terrain, params, ledger, root, path) && path_verdict(params, ledger, path)
            == Verdict::Satisfied {
            let (stops, choices) = choose|stops: Seq<int>, choices: Seq<int>| #[trigger]
                is_walk(terrain, root, path, stops, choices);
            let k = path.edges.len() as int;
            lemma_beginnings_are_steps(terrain, params, ledger, root, path, stops, choices, k);
            assert(beginning(path, k).nodes =~= path.nodes);
            assert(beginning(path, k).edges =~= path.edges);
            assert(beginning(path, k) == path);
            lemma_satisfied_is_accepted(
                whole,
                Visit { path, verdict: path_verdict(params, ledger, path) },
            );
        }
    } else {
        assert(candidates_of(terrain, params, ledger, root) =~= Seq::<Path>::empty());
    }
}

} // verus!
