//! Committing candidates: a candidate is committed as often as the ledger
//! can pay for it, and each commit adds its plan to the plans.

use vstd::prelude::*;

use crate::capacities::Capacities;
use crate::capacities::Ledger;
use crate::filters::affordable;
use crate::filters::debit;
use crate::filters::level_keys;
use crate::filters::level_slot;
use crate::filters::mode_keys;
use crate::filters::trip_keys;
use crate::filters::Path;
use crate::filters::PotentialPath;
use crate::graph::Edge;
use crate::graph::Node;
use crate::usage::lemma_occurrences_bounds;
use crate::usage::occurrences;

verus! {

/// A commit of a path with an edge uses up capacity of the trip record of
/// its first edge.
pub proof fn lemma_commit_uses_up(ledger: Ledger, path: Path)
    requires
        path.edges.len() > 0,
        affordable(ledger, path),
    ensures
        debit(ledger, path).trip_left(path.edges[0].trip as int) < ledger.trip_left(
            path.edges[0].trip as int,
        ),
{
    let trip = path.edges[0].trip as int;
    assert(trip_keys(path.edges)[0] == trip);
    lemma_occurrences_bounds(trip_keys(path.edges), trip);
    assert(occurrences(trip_keys(path.edges), trip) <= ledger.trip_left(trip));
}

/// How often a path can be committed in a row, each commit paid from what
/// the commits before it left.
pub open spec fn commit_count(ledger: Ledger, path: Path) -> nat
    decreases ledger.trip_left(path.edges[0].trip as int),
{
    if path.edges.len() > 0 && affordable(ledger, path) {
        proof {
            lemma_commit_uses_up(ledger, path);
        }
        1 + commit_count(debit(ledger, path), path)
    } else {
        0
    }
}

/// The ledger after a path was committed as often as it could pay for it.
pub open spec fn drained(ledger: Ledger, path: Path) -> Ledger
    decreases ledger.trip_left(path.edges[0].trip as int),
{
    if path.edges.len() > 0 && affordable(ledger, path) {
        proof {
            lemma_commit_uses_up(ledger, path);
        }
        drained(debit(ledger, path), path)
    } else {
        ledger
    }
}

/// The ledger after each of the paths, in order, was committed as often as
/// the ledger could then pay for it.
pub open spec fn ledger_after(ledger: Ledger, paths: Seq<Path>) -> Ledger
    decreases paths.len(),
{
    if paths.len() == 0 {
        ledger
    } else {
        drained(ledger_after(ledger, paths.drop_last()), paths.last())
    }
}

/// `count` copies of a plan.
pub open spec fn copies(plan: Seq<(Node, Edge)>, count: nat) -> Seq<Seq<(Node, Edge)>> {
    Seq::new(count, |i: int| plan)
}

/// The plans that committing the paths in order gives: the plan of each
/// path as often as the path was committed.
pub open spec fn plans_after(ledger: Ledger, paths: Seq<Path>) -> Seq<Seq<(Node, Edge)>>
    decreases paths.len(),
{
    if paths.len() == 0 {
        Seq::empty()
    } else {
        plans_after(ledger, paths.drop_last()) + copies(
            paths.last().plan(),
            commit_count(ledger_after(ledger, paths.drop_last()), paths.last()),
        )
    }
}

/// What a list of plans holds.
pub open spec fn plan_views(plans: Seq<Vec<(Node, Edge)>>) -> Seq<Seq<(Node, Edge)>> {
    Seq::new(plans.len(), |i: int| plans[i]@)
}

/// Commits a candidate as often as the ledger can pay for it.
pub fn extract(
    path: &PotentialPath,
    capacities: &mut Capacities,
    plans: &mut Vec<Vec<(Node, Edge)>>,
)
    ensures
        final(capacities)@ == drained(old(capacities)@, path@),
        plan_views(final(plans)@) == plan_views(old(plans)@) + copies(
            path@.plan(),
            commit_count(old(capacities)@, path@),
        ),
{
    let ghost start = capacities@;
    let ghost before = plan_views(plans@);
    let ghost made: nat = 0;
    let edges = path.len();
    proof {
        assert(before + copies(path@.plan(), 0) =~= before);
    }
    loop
        invariant
            path@.edges.len() > 0,
            drained(capacities@, path@) == drained(start, path@),
            commit_count(capacities@, path@) + made == commit_count(start, path@),
            plan_views(plans@) == before + copies(path@.plan(), made),
        ensures
            capacities@ == drained(start, path@),
            plan_views(plans@) == before + copies(path@.plan(), commit_count(start, path@)),
        decreases capacities@.trip_left(path@.edges[0].trip as int),
    {
        let ghost ledger = capacities@;
        let ghost earlier = plan_views(plans@);
        proof {
            if affordable(ledger, path@) {
                lemma_commit_uses_up(ledger, path@);
            }
        }
        if path.try_extracting(capacities, plans).is_err() {
            break ;
        }
        proof {
            assert(plan_views(plans@) =~= earlier.push(path@.plan())) by {
                assert forall|i: int| 0 <= i < plans@.len() - 1 implies plan_views(plans@)[i]
                    == earlier[i] by {
                    assert(plans@.drop_last()[i] == plans@[i]);
                }
            }
            assert(earlier.push(path@.plan()) =~= before + copies(path@.plan(), made + 1));
            made = made + 1;
        }
    }
}

/// Commits each of the candidates, in order, as often as the ledger can
/// then pay for it.
pub fn extract_all(
    paths: &Vec<PotentialPath>,
    capacities: &mut Capacities,
    plans: &mut Vec<Vec<(Node, Edge)>>,
)
    ensures
        final(capacities)@ == ledger_after(old(capacities)@, crate::search::paths_of(paths@)),
        plan_views(final(plans)@) == plan_views(old(plans)@) + plans_after(
            old(capacities)@,
            crate::search::paths_of(paths@),
        ),
{
    let ghost start = capacities@;
    let ghost before = plan_views(plans@);
    let ghost all = crate::search::paths_of(paths@);
    let mut i: usize = 0;
    proof {
        assert(all.take(0) =~= Seq::<Path>::empty());
        assert(before + plans_after(start, all.take(0)) =~= before);
    }
    while i < paths.len()
        invariant
            i <= paths.len(),
            all == crate::search::paths_of(paths@),
            capacities@ == ledger_after(start, all.take(i as int)),
            plan_views(plans@) == before + plans_after(start, all.take(i as int)),
        decreases paths.len() - i,
    {
        let ghost earlier = plan_views(plans@);
        let ghost ledger = capacities@;
        extract(&paths[i], capacities, plans);
        proof {
            let part = all.take(i + 1);
            assert(part.drop_last() =~= all.take(i as int));
            assert(part.last() == paths[i as int]@);
            assert(plan_views(plans@) =~= before + plans_after(start, part));
        }
        i = i + 1;
    }
    proof {
        assert(all.take(i as int) =~= all);
    }
}

/// Something that the ledger has a capacity of: a trip record, a level
/// slot (48 times a category plus a time bin), or a mode.
pub enum Resource {
    Trip(int),
    Level(int),
    Mode(int),
}

/// What the ledger has left of a resource.
pub open spec fn left_of(ledger: Ledger, resource: Resource) -> nat {
    match resource {
        Resource::Trip(trip) => ledger.trip_left(trip),
        Resource::Level(slot) => ledger.slot_left(slot),
        Resource::Mode(mode) => ledger.mode_left(mode),
    }
}

/// How often a path uses a resource.
pub open spec fn path_uses(path: Path, resource: Resource) -> nat {
    match resource {
        Resource::Trip(trip) => occurrences(trip_keys(path.edges), trip),
        Resource::Level(slot) => occurrences(level_keys(path), slot),
        Resource::Mode(mode) => occurrences(mode_keys(path.edges), mode),
    }
}

/// How often a plan uses a resource: each of its trips uses its trip
/// record, its mode, and the level of its category in the time bin in which
/// it starts.
pub open spec fn plan_uses(plan: Seq<(Node, Edge)>, resource: Resource) -> nat {
    match resource {
        Resource::Trip(trip) => occurrences(
            Seq::new(plan.len(), |i: int| plan[i].1.trip as int),
            trip,
        ),
        Resource::Level(slot) => occurrences(
            Seq::new(
                plan.len(),
                |i: int| level_slot(plan[i].1.category as int, plan[i].0.time_bin@ as int),
            ),
            slot,
        ),
        Resource::Mode(mode) => occurrences(
            Seq::new(plan.len(), |i: int| plan[i].1.mode as int),
            mode,
        ),
    }
}

/// How often the plans use a resource, together.
pub open spec fn plans_use(plans: Seq<Seq<(Node, Edge)>>, resource: Resource) -> nat
    decreases plans.len(),
{
    if plans.len() == 0 {
        0
    } else {
        plans_use(plans.drop_last(), resource) + plan_uses(plans.last(), resource)
    }
}

/// The plan of a path uses what the path uses.
pub proof fn lemma_plan_uses(path: Path, resource: Resource)
    requires
        path.nodes.len() == path.edges.len() + 1,
    ensures
        plan_uses(path.plan(), resource) == path_uses(path, resource),
{
    let plan = path.plan();
    assert(Seq::new(plan.len(), |i: int| plan[i].1.trip as int) =~= trip_keys(path.edges));
    assert(Seq::new(
        plan.len(),
        |i: int| level_slot(plan[i].1.category as int, plan[i].0.time_bin@ as int),
    ) =~= level_keys(path));
    assert(Seq::new(plan.len(), |i: int| plan[i].1.mode as int) =~= mode_keys(path.edges));
}

/// Plans put together use what they use each for itself.
pub proof fn lemma_plans_use_add(
    a: Seq<Seq<(Node, Edge)>>,
    b: Seq<Seq<(Node, Edge)>>,
    resource: Resource,
)
    ensures
        plans_use(a + b, resource) == plans_use(a, resource) + plans_use(b, resource),
    decreases b.len(),
{
    if b.len() == 0 {
        assert(a + b =~= a);
    } else {
        lemma_plans_use_add(a, b.drop_last(), resource);
        assert((a + b).drop_last() =~= a + b.drop_last());
        assert((a + b).last() == b.last());
    }
}

/// Copies of a plan use what the plan uses, as often as there are copies.
pub proof fn lemma_copies_use(plan: Seq<(Node, Edge)>, count: nat, resource: Resource)
    ensures
        plans_use(copies(plan, count), resource) == count * plan_uses(plan, resource),
    decreases count,
{
    if count == 0 {
        assert(0 * plan_uses(plan, resource) == 0) by (nonlinear_arith);
    } else {
        lemma_copies_use(plan, (count - 1) as nat, resource);
        assert(copies(plan, count).drop_last() =~= copies(plan, (count - 1) as nat));
        assert(count * plan_uses(plan, resource) == (count - 1) * plan_uses(plan, resource)
            + plan_uses(plan, resource)) by (nonlinear_arith);
    }
}

/// A commit takes from the ledger exactly what the path uses of every
/// resource, and leaves in the ledger what it does not use.
pub proof fn lemma_commit_conserves(ledger: Ledger, path: Path, resource: Resource)
    requires
        affordable(ledger, path),
    ensures
        left_of(debit(ledger, path), resource) + path_uses(path, resource) == left_of(
            ledger,
            resource,
        ),
{
    match resource {
        Resource::Trip(trip) => {
            assert(occurrences(trip_keys(path.edges), trip) <= ledger.trip_left(trip));
        },
        Resource::Level(slot) => {
            assert(occurrences(level_keys(path), slot) <= ledger.slot_left(slot));
        },
        Resource::Mode(mode) => {
            assert(occurrences(mode_keys(path.edges), mode) <= ledger.mode_left(mode));
        },
    }
}

/// Committing a path as often as the ledger can pay for it takes from the
/// ledger what the path uses, as often as it is committed.
pub proof fn lemma_drained_conserves(ledger: Ledger, path: Path, resource: Resource)
    ensures
        left_of(drained(ledger, path), resource) + commit_count(ledger, path) * path_uses(
            path,
            resource,
        ) == left_of(ledger, resource),
    decreases ledger.trip_left(path.edges[0].trip as int),
{
    let uses = path_uses(path, resource);
    if path.edges.len() > 0 && affordable(ledger, path) {
        lemma_commit_uses_up(ledger, path);
        lemma_commit_conserves(ledger, path, resource);
        let next = debit(ledger, path);
        lemma_drained_conserves(next, path, resource);
        let count = commit_count(next, path);
        assert((1 + count) * uses == uses + count * uses) by (nonlinear_arith);
    } else {
        assert(0 * uses == 0) by (nonlinear_arith);
    }
}

/// Whatever candidates are committed, in whatever order they were found:
/// what is left of a resource and what the plans made use of it are
/// together what the ledger had. So no resource is ever used beyond its
/// capacity, and what is left of it never grows.
pub proof fn lemma_commits_conserve(ledger: Ledger, paths: Seq<Path>, resource: Resource)
    requires
        forall|i: int|
            0 <= i < paths.len() ==> (#[trigger] paths[i]).nodes.len() == paths[i].edges.len() + 1,
    ensures
        left_of(ledger_after(ledger, paths), resource) + plans_use(
            plans_after(ledger, paths),
            resource,
        ) == left_of(ledger, resource),
        left_of(ledger_after(ledger, paths), resource) <= left_of(ledger, resource),
        plans_use(plans_after(ledger, paths), resource) <= left_of(ledger, resource),
    decreases paths.len(),
{
    if paths.len() > 0 {
        let front = paths.drop_last();
        let last = paths.last();
        assert forall|i: int| 0 <= i < front.len() implies (#[trigger] front[i]).nodes.len()
            == front[i].edges.len() + 1 by {
            assert(front[i] == paths[i]);
        }
        lemma_commits_conserve(ledger, front, resource);
        let between = ledger_after(ledger, front);
        lemma_drained_conserves(between, last, resource);
        let count = commit_count(between, last);
        lemma_copies_use(last.plan(), count, resource);
        assert(paths[paths.len() - 1] == last);
        lemma_plan_uses(last, resource);
        lemma_plans_use_add(plans_after(ledger, front), copies(last.plan(), count), resource);
    }
}

/// The ledger can pay for a path when it has left of every resource what
/// the path uses of it.
pub proof fn lemma_affordable(ledger: Ledger, path: Path)
    ensures
        affordable(ledger, path) <==> forall|resource: Resource| #[trigger]
            path_uses(path, resource) <= left_of(ledger, resource),
{
    if affordable(ledger, path) {
        assert forall|resource: Resource| #[trigger]
            path_uses(path, resource) <= left_of(ledger, resource) by {
            match resource {
                Resource::Trip(trip) => {
                    assert(occurrences(trip_keys(path.edges), trip) <= ledger.trip_left(trip));
                },
                Resource::Level(slot) => {
                    assert(occurrences(level_keys(path), slot) <= ledger.slot_left(slot));
                },
                Resource::Mode(mode) => {
                    assert(occurrences(mode_keys(path.edges), mode) <= ledger.mode_left(mode));
                },
            }
        }
    }
    if forall|resource: Resource| #[trigger]
        path_uses(path, resource) <= left_of(ledger, resource) {
        assert forall|key: int| #[trigger]
            occurrences(trip_keys(path.edges), key) <= ledger.trip_left(key) by {
            assert(path_uses(path, Resource::Trip(key)) <= left_of(ledger, Resource::Trip(key)));
        }
        assert forall|key: int| #[trigger]
            occurrences(level_keys(path), key) <= ledger.slot_left(key) by {
            assert(path_uses(path, Resource::Level(key)) <= left_of(ledger, Resource::Level(key)));
        }
        assert forall|key: int| #[trigger]
            occurrences(mode_keys(path.edges), key) <= ledger.mode_left(key) by {
            assert(path_uses(path, Resource::Mode(key)) <= left_of(ledger, Resource::Mode(key)));
        }
    }
}

/// A path is committed as often as the ledger can pay for it: it can be
/// committed `times` times in a row just when the ledger has left of every
/// resource `times` times what the path uses of it.
pub proof fn lemma_commit_count_is_most(ledger: Ledger, path: Path, times: nat)
    requires
        path.edges.len() > 0,
    ensures
        times <= commit_count(ledger, path) <==> forall|resource: Resource|
            times * #[trigger] path_uses(path, resource) <= left_of(ledger, resource),
    decreases times,
{
    if times == 0 {
        assert forall|resource: Resource|
            times * #[trigger] path_uses(path, resource) <= left_of(ledger, resource) by {
            assert(0 * path_uses(path, resource) == 0) by (nonlinear_arith);
        }
    } else {
        let fewer = (times - 1) as nat;
        lemma_affordable(ledger, path);
        if affordable(ledger, path) {
            let next = debit(ledger, path);
            lemma_commit_count_is_most(next, path, fewer);
            if fewer <= commit_count(next, path) {
                assert forall|resource: Resource|
                    times * #[trigger] path_uses(path, resource) <= left_of(ledger, resource) by {
                    let uses = path_uses(path, resource);
                    lemma_commit_conserves(ledger, path, resource);
                    assert(fewer * uses <= left_of(next, resource));
                    assert(times * uses == fewer * uses + uses) by (nonlinear_arith)
                        requires
                            times == fewer + 1,
                    ;
                }
            }
            if forall|resource: Resource|
                times * #[trigger] path_uses(path, resource) <= left_of(ledger, resource) {
                assert forall|resource: Resource|
                    fewer * #[trigger] path_uses(path, resource) <= left_of(next, resource) by {
                    let uses = path_uses(path, resource);
                    lemma_commit_conserves(ledger, path, resource);
                    assert(times * uses <= left_of(ledger, resource));
                    assert(times * uses == fewer * uses + uses) by (nonlinear_arith)
                        requires
                            times == fewer + 1,
                    ;
                }
            }
        } else {
            if forall|resource: Resource|
                times * #[trigger] path_uses(path, resource) <= left_of(ledger, resource) {
                assert forall|resource: Resource| #[trigger]
                    path_uses(path, resource) <= left_of(ledger, resource) by {
                    let uses = path_uses(path, resource);
                    assert(times * uses <= left_of(ledger, resource));
                    assert(uses <= times * uses) by (nonlinear_arith)
                        requires
                            times >= 1,
                            uses >= 0,
                    ;
                }
            }
        }
    }
}

} // verus!
