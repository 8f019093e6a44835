//! Removing edges that are no longer live changes nothing that a search
//! finds.

use vstd::prelude::*;

use crate::capacities::Ledger;
use crate::extraction::left_of;
use crate::extraction::Resource;
use crate::filters::capacity_verdict;
use crate::filters::level_keys;
use crate::filters::level_slot;
use crate::filters::mode_keys;
use crate::filters::path_verdict;
use crate::filters::trip_keys;
use crate::filters::FilterParams;
use crate::filters::Path;
use crate::filters::Verdict;
use crate::graph::edge_live;
use crate::graph::live_arcs;
use crate::graph::Edge;
use crate::graph::Node;
use crate::search::accepted;
use crate::search::candidates_of;
use crate::search::depth_limit;
use crate::search::pruned;
use crate::search::root_path;
use crate::search::trace_from;
use crate::search::Terrain;
use crate::search::Visit;
use crate::usage::lemma_occurrences_bounds;

verus! {

/// An edge is live when the ledger has something left of its trip record,
/// of its level slot and of its mode.
pub proof fn lemma_live_has_capacity(ledger: Ledger, source: Node, edge: Edge)
    requires
        source.time_bin@ < 48,
    ensures
        edge_live(ledger, source, edge) <==> {
            &&& left_of(ledger, Resource::Trip(edge.trip as int)) > 0
            &&& left_of(
                ledger,
                Resource::Level(level_slot(edge.category as int, source.time_bin@ as int)),
            ) > 0
            &&& left_of(ledger, Resource::Mode(edge.mode as int)) > 0
        },
{
}

/// A path that ends with an edge that is not live is rejected, also by any
/// ledger that has no more of anything left than the one for which the
/// edge is not live.
pub proof fn lemma_dead_end_is_rejected(
    params: FilterParams,
    pruner: Ledger,
    ledger: Ledger,
    path: Path,
)
    requires
        path.wf(),
        path.edges.len() > 0,
        !edge_live(pruner, path.nodes[path.nodes.len() - 2], path.edges.last()),
        forall|resource: Resource| #[trigger]
            left_of(ledger, resource) <= left_of(pruner, resource),
    ensures
        path_verdict(params, ledger, path) == Verdict::Reject,
{
    let edge = path.edges.last();
    let source = path.nodes[path.nodes.len() - 2];
    let slot = level_slot(edge.category as int, source.time_bin@ as int);
    lemma_live_has_capacity(pruner, source, edge);
    assert(left_of(ledger, Resource::Trip(edge.trip as int)) <= left_of(
        pruner,
        Resource::Trip(edge.trip as int),
    ));
    assert(left_of(ledger, Resource::Level(slot)) <= left_of(pruner, Resource::Level(slot)));
    assert(left_of(ledger, Resource::Mode(edge.mode as int)) <= left_of(
        pruner,
        Resource::Mode(edge.mode as int),
    ));
    let last = path.edges.len() - 1;
    assert(trip_keys(path.edges)[last] == edge.trip);
    assert(level_keys(path)[last] == slot);
    assert(mode_keys(path.edges)[last] == edge.mode);
    lemma_occurrences_bounds(trip_keys(path.edges), edge.trip as int);
    lemma_occurrences_bounds(level_keys(path), slot);
    lemma_occurrences_bounds(mode_keys(path.edges), edge.mode as int);
    assert(capacity_verdict(ledger, path) == Verdict::Reject);
}

/// Paths accepted of steps put together are the paths accepted of each
/// part.
pub proof fn lemma_accepted_add(a: Seq<Visit>, b: Seq<Visit>)
    ensures
        accepted(a + b) == accepted(a) + accepted(b),
    decreases b.len(),
{
    if b.len() == 0 {
        assert(a + b =~= a);
        assert(accepted(a) + accepted(b) =~= accepted(a));
    } else {
        lemma_accepted_add(a, b.drop_last());
        assert((a + b).drop_last() =~= a + b.drop_last());
        assert((a + b).last() == b.last());
        if b.last().verdict == Verdict::Satisfied {
            assert(accepted(a + b) =~= accepted(a) + accepted(b));
        }
    }
}

/// The live arcs from a place on are the first of them, if it is live, and
/// the live arcs behind it.
proof fn lemma_live_arcs_step(arcs: Seq<(usize, Edge)>, ledger: Ledger, source: Node, from: int)
    requires
        0 <= from < arcs.len(),
    ensures
        live_arcs(arcs.skip(from), ledger, source) == if edge_live(ledger, source, arcs[from].1) {
            seq![arcs[from]] + live_arcs(arcs.skip(from + 1), ledger, source)
        } else {
            live_arcs(arcs.skip(from + 1), ledger, source)
        },
{
    let pred = |arc: (usize, Edge)| edge_live(ledger, source, arc.1);
    let head = seq![arcs[from]];
    let tail = arcs.skip(from + 1);
    assert(arcs.skip(from) =~= head + tail);
    Seq::filter_distributes_over_add(head, tail, pred);
    reveal(Seq::filter);
    assert(head.drop_last() =~= Seq::<(usize, Edge)>::empty());
    assert(head.drop_last().filter(pred) =~= Seq::<(usize, Edge)>::empty());
    assert(head.filter(pred) =~= if pred(arcs[from]) {
        head
    } else {
        Seq::<(usize, Edge)>::empty()
    });
    if !pred(arcs[from]) {
        assert(Seq::<(usize, Edge)>::empty() + tail.filter(pred) =~= tail.filter(pred));
    }
}

/// A search on the pruned terrain accepts, from the live arcs that follow
/// place `kept` of a node, what a search on the whole terrain accepts from
/// the arcs that follow place `from`, if the arcs from `kept` on are the
/// live ones of the arcs from `from` on.
proof fn lemma_pruned_trace(
    terrain: Terrain,
    params: FilterParams,
    pruner: Ledger,
    ledger: Ledger,
    path: Path,
    at: int,
    from: int,
    kept: int,
)
    requires
        terrain.wf(),
        path.wf(),
        0 <= at < terrain.nodes.len(),
        path.nodes.last() == terrain.nodes[at],
        forall|resource: Resource| #[trigger]
            left_of(ledger, resource) <= left_of(pruner, resource),
        0 <= from <= terrain.arcs[at].len(),
        0 <= kept <= pruned(terrain, pruner).arcs[at].len(),
        pruned(terrain, pruner).arcs[at].skip(kept) == live_arcs(
            terrain.arcs[at].skip(from),
            pruner,
            terrain.nodes[at],
        ),
    ensures
        accepted(trace_from(pruned(terrain, pruner), params, ledger, path, at, kept)) == accepted(
            trace_from(terrain, params, ledger, path, at, from),
        ),
    decreases depth_limit() - path.edges.len(), terrain.arcs[at].len() - from,
{
    let less = pruned(terrain, pruner);
    let arcs = terrain.arcs[at];
    let live = less.arcs[at];
    let source = terrain.nodes[at];
    if path.edges.len() >= depth_limit() {
    } else if from >= arcs.len() {
        assert(arcs.skip(from) =~= Seq::<(usize, Edge)>::empty());
        reveal(Seq::filter);
        assert(live.skip(kept).len() == 0);
    } else {
        let arc = arcs[from];
        let child = path.extended(terrain.nodes[arc.0 as int], arc.1);
        let verdict = path_verdict(params, ledger, child);
        lemma_live_arcs_step(arcs, pruner, source, from);
        assert(child.wf()) by {
            assert forall|i: int| 0 <= i < child.nodes.len() implies (
            #[trigger] child.nodes[i]).time_bin@ < 48 by {
                if i < path.nodes.len() {
                    assert(child.nodes[i] == path.nodes[i]);
                }
            }
        }
        assert(child.nodes[child.nodes.len() - 2] == source);
        let beside = trace_from(terrain, params, ledger, path, at, from + 1);
        if edge_live(pruner, source, arc.1) {
            assert(live.skip(kept)[0] == arc);
            assert(live[kept] == arc);
            assert(live.skip(kept + 1) =~= live.skip(kept).skip(1));
            assert((seq![arc] + live_arcs(arcs.skip(from + 1), pruner, source)).skip(1)
                =~= live_arcs(arcs.skip(from + 1), pruner, source));
            lemma_pruned_trace(terrain, params, pruner, ledger, path, at, from + 1, kept + 1);
            let below = if verdict == Verdict::Reject {
                Seq::<Visit>::empty()
            } else {
                trace_from(terrain, params, ledger, child, arc.0 as int, 0)
            };
            let below_less = if verdict == Verdict::Reject {
                Seq::<Visit>::empty()
            } else {
                trace_from(less, params, ledger, child, arc.0 as int, 0)
            };
            if verdict != Verdict::Reject {
                assert(less.arcs[arc.0 as int].skip(0) =~= less.arcs[arc.0 as int]);
                assert(terrain.arcs[arc.0 as int].skip(0) =~= terrain.arcs[arc.0 as int]);
                lemma_pruned_trace(terrain, params, pruner, ledger, child, arc.0 as int, 0, 0);
            }
            let visit = seq![Visit { path: child, verdict }];
            let beside_less = trace_from(less, params, ledger, path, at, kept + 1);
            lemma_accepted_add(visit, below);
            lemma_accepted_add(visit + below, beside);
            lemma_accepted_add(visit, below_less);
            lemma_accepted_add(visit + below_less, beside_less);
        } else {
            lemma_dead_end_is_rejected(params, pruner, ledger, child);
            lemma_pruned_trace(terrain, params, pruner, ledger, path, at, from + 1, kept);
            let visit = seq![Visit { path: child, verdict }];
            lemma_accepted_add(visit + Seq::<Visit>::empty(), beside);
            assert(visit + Seq::<Visit>::empty() =~= visit);
            assert(accepted(visit) =~= Seq::<Path>::empty()) by {
                assert(visit.drop_last() =~= Seq::<Visit>::empty());
            }
            assert(Seq::<Path>::empty() + accepted(beside) =~= accepted(beside));
        }
    }
}

/// Pruning is no more than a shortcut: a search finds on the pruned
/// terrain what it finds on the whole terrain, in the same order, as long
/// as the ledger that it reads has no more of anything left than the
/// ledger by which the terrain was pruned.
pub proof fn lemma_pruning_keeps_candidates(
    terrain: Terrain,
    params: FilterParams,
    pruner: Ledger,
    ledger: Ledger,
    root: int,
)
    requires
        terrain.wf(),
        0 <= root < terrain.nodes.len(),
        forall|resource: Resource| #[trigger]
            left_of(ledger, resource) <= left_of(pruner, resource),
    ensures
        candidates_of(pruned(terrain, pruner), params, ledger, root) == candidates_of(
            terrain,
            params,
            ledger,
            root,
        ),
{
    let less = pruned(terrain, pruner);
    let start = root_path(terrain, root);
    assert(root_path(less, root) == start);
    assert(less.arcs[root].skip(0) =~= less.arcs[root]);
    assert(terrain.arcs[root].skip(0) =~= terrain.arcs[root]);
    lemma_pruned_trace(terrain, params, pruner, ledger, start, root, 0, 0);
}

} // verus!
