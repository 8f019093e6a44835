//! The admission filters. Each one judges a path as it grows by an edge:
//! it rejects the path for good, or finds it incomplete, or is satisfied. A
//! path is a candidate when no filter objects.

use vstd::prelude::*;

use crate::capacities::Capacities;
use crate::capacities::Ledger;
use crate::graph::Edge;
use crate::graph::Node;
use crate::purposes::Purpose;
use crate::time_bins::forward_distance;
use crate::capacities::asked;
use crate::usage::ints;
use crate::usage::lemma_occurrences_bounds;
use crate::usage::lemma_tally_asks;
use crate::usage::tally;
use crate::usage::lemma_occurrences_take;
use crate::usage::occurrences;

verus! {

/// What a filter says of a path.
#[derive(Clone, Copy, Debug, PartialEq, Eq, Structural)]
pub enum Verdict {
    /// The path is invalid, and so is every path that continues it.
    Reject,
    /// The path is not complete yet; a continuation may be.
    Pending,
    /// The condition holds of the path as it stands.
    Satisfied,
}

/// What the structural filters ask of a plan: the least and the greatest
/// number of trips, the purposes with which it may start, the least
/// duration in time bins, and whether it has to end with the purpose with
/// which it started.
#[derive(Clone, Copy, Debug)]
pub struct FilterParams {
    pub length_range: (usize, usize),
    pub first_activity: &'static [Purpose],
    pub duration_min: u8,
    pub cycle: bool,
}

/// A path through the graph: the states passed, and the edges taken from
/// each state to the next.
pub struct Path {
    pub nodes: Seq<Node>,
    pub edges: Seq<Edge>,
}

impl Path {
    /// There is a state before and after each edge, and every state has a
    /// time bin of the day.
    pub open spec fn wf(self) -> bool {
        &&& self.nodes.len() == self.edges.len() + 1
        &&& forall|i: int| 0 <= i < self.nodes.len() ==> (#[trigger] self.nodes[i]).time_bin@ < 48
    }

    /// The path continued by an edge to a state.
    pub open spec fn extended(self, target: Node, edge: Edge) -> Path {
        Path { nodes: self.nodes.push(target), edges: self.edges.push(edge) }
    }

    /// The path without its last edge.
    pub open spec fn shortened(self) -> Path {
        Path { nodes: self.nodes.drop_last(), edges: self.edges.drop_last() }
    }

    /// The plan that the path stands for: each edge with the state in which
    /// it starts.
    pub open spec fn plan(self) -> Seq<(Node, Edge)> {
        Seq::new(self.edges.len(), |i: int| (self.nodes[i], self.edges[i]))
    }
}

/// The time bins that a path takes from its first state to its last, a
/// step to the same bin counting as a whole day.
pub open spec fn duration_of(nodes: Seq<Node>) -> nat
    decreases nodes.len(),
{
    if nodes.len() <= 1 {
        0
    } else {
        duration_of(nodes.drop_last()) + forward_distance(
            nodes.last().time_bin@,
            nodes[nodes.len() - 2].time_bin@,
        )
    }
}

/// The purpose that the last edge of the path leaves was left before by an
/// earlier edge.
pub open spec fn leaves_again(nodes: Seq<Node>) -> bool {
    exists|i: int|
        0 <= i < nodes.len() - 2 && (#[trigger] nodes[i]).purpose == nodes[nodes.len() - 2].purpose
}

/// The trip records that the edges use, in order.
pub open spec fn trip_keys(edges: Seq<Edge>) -> Seq<int> {
    Seq::new(edges.len(), |i: int| edges[i].trip as int)
}

/// The modes that the edges use, in order.
pub open spec fn mode_keys(edges: Seq<Edge>) -> Seq<int> {
    Seq::new(edges.len(), |i: int| edges[i].mode as int)
}

/// The level slot of a category in a time bin.
pub open spec fn level_slot(category: int, bin: int) -> int {
    category * 48 + bin
}

/// The level slots that the edges use, in order: each edge uses the level
/// of its category in the time bin of the state in which it starts.
pub open spec fn level_keys(path: Path) -> Seq<int> {
    Seq::new(
        path.edges.len(),
        |i: int| level_slot(path.edges[i].category as int, path.nodes[i].time_bin@ as int),
    )
}

/// Length: the number of edges may not exceed the greatest number and has
/// to reach the least.
pub open spec fn length_verdict(params: FilterParams, path: Path) -> Verdict {
    if path.edges.len() > params.length_range.1 {
        Verdict::Reject
    } else if path.edges.len() < params.length_range.0 {
        Verdict::Pending
    } else {
        Verdict::Satisfied
    }
}

/// Duration: the path may not take more than a day and has to take the
/// least duration.
pub open spec fn duration_verdict(params: FilterParams, path: Path) -> Verdict {
    if duration_of(path.nodes) > 48 {
        Verdict::Reject
    } else if duration_of(path.nodes) < params.duration_min {
        Verdict::Pending
    } else {
        Verdict::Satisfied
    }
}

/// Activity cycle: where it is asked for, the path has to end with the
/// purpose with which it started.
pub open spec fn cycle_verdict(params: FilterParams, path: Path) -> Verdict {
    if !params.cycle || path.nodes.last().purpose == path.nodes[0].purpose {
        Verdict::Satisfied
    } else {
        Verdict::Pending
    }
}

/// Distinct activities: no purpose is left twice. The purpose at which
/// the path arrives is not looked at, so a path may end where it started.
pub open spec fn distinct_verdict(path: Path) -> Verdict {
    if leaves_again(path.nodes) {
        Verdict::Reject
    } else {
        Verdict::Satisfied
    }
}

/// Capacity: the path may not use the trip record, the level slot or the
/// mode of its last edge more often than the ledger has left of it.
pub open spec fn capacity_verdict(ledger: Ledger, path: Path) -> Verdict {
    let edge = path.edges.last();
    let slot = level_slot(
        edge.category as int,
        path.nodes[path.nodes.len() - 2].time_bin@ as int,
    );
    if occurrences(trip_keys(path.edges), edge.trip as int) > ledger.trip_left(edge.trip as int)
        || occurrences(level_keys(path), slot) > ledger.slot_left(slot) || occurrences(
        mode_keys(path.edges),
        edge.mode as int,
    ) > ledger.mode_left(edge.mode as int) {
        Verdict::Reject
    } else {
        Verdict::Satisfied
    }
}

/// Two verdicts taken together: a rejection prevails, and else a pending
/// condition.
pub open spec fn both(a: Verdict, b: Verdict) -> Verdict {
    if a == Verdict::Reject || b == Verdict::Reject {
        Verdict::Reject
    } else if a == Verdict::Pending || b == Verdict::Pending {
        Verdict::Pending
    } else {
        Verdict::Satisfied
    }
}

/// What the filters say of a path with at least one edge, taken together.
pub open spec fn path_verdict(params: FilterParams, ledger: Ledger, path: Path) -> Verdict {
    both(
        length_verdict(params, path),
        both(
            duration_verdict(params, path),
            both(
                cycle_verdict(params, path),
                both(distinct_verdict(path), capacity_verdict(ledger, path)),
            ),
        ),
    )
}

/// The ledger has left what the path uses of every trip record, level slot
/// and mode.
pub open spec fn affordable(ledger: Ledger, path: Path) -> bool {
    &&& forall|key: int| #[trigger]
        occurrences(trip_keys(path.edges), key) <= ledger.trip_left(key)
    &&& forall|key: int| #[trigger] occurrences(level_keys(path), key) <= ledger.slot_left(key)
    &&& forall|key: int| #[trigger]
        occurrences(mode_keys(path.edges), key) <= ledger.mode_left(key)
}

/// The ledger after it has paid for one use of the path.
pub open spec fn debit(ledger: Ledger, path: Path) -> Ledger {
    Ledger {
        trips: Seq::new(
            ledger.trips.len(),
            |key: int| (ledger.trips[key] - occurrences(trip_keys(path.edges), key)) as nat,
        ),
        levels: Seq::new(
            ledger.levels.len(),
            |key: int|
                if key < ledger.level_slots() {
                    (ledger.levels[key] - occurrences(level_keys(path), key)) as nat
                } else {
                    ledger.levels[key]
                },
        ),
        modes: Seq::new(
            ledger.modes.len(),
            |key: int| (ledger.modes[key] - occurrences(mode_keys(path.edges), key)) as nat,
        ),
    }
}

/// A path takes at least one time bin and at most a day for each edge.
pub proof fn lemma_duration_bounds(nodes: Seq<Node>)
    requires
        nodes.len() >= 1,
        forall|i: int| 0 <= i < nodes.len() ==> (#[trigger] nodes[i]).time_bin@ < 48,
    ensures
        nodes.len() - 1 <= duration_of(nodes) <= 48 * (nodes.len() - 1),
    decreases nodes.len(),
{
    if nodes.len() > 1 {
        let front = nodes.drop_last();
        assert forall|i: int| 0 <= i < front.len() implies (#[trigger] front[i]).time_bin@
            < 48 by {
            assert(front[i] == nodes[i]);
        }
        lemma_duration_bounds(front);
        assert(nodes.last() == nodes[nodes.len() - 1]);
    }
}

/// The duration of a path grows with every edge by the distance of the time
/// bins that the edge joins.
pub proof fn lemma_duration_push(nodes: Seq<Node>, target: Node)
    requires
        nodes.len() >= 1,
    ensures
        duration_of(nodes.push(target)) == duration_of(nodes) + forward_distance(
            target.time_bin@,
            nodes.last().time_bin@,
        ),
{
    assert(nodes.push(target).drop_last() =~= nodes);
}

/// A path with more edges than the greatest number is rejected, whatever
/// else holds of it.
pub proof fn lemma_too_long_is_rejected(params: FilterParams, ledger: Ledger, path: Path)
    requires
        path.edges.len() > params.length_range.1,
    ensures
        length_verdict(params, path) == Verdict::Reject,
        path_verdict(params, ledger, path) == Verdict::Reject,
{
}

/// A path with fewer edges than the least number, and no more than the
/// greatest, is pending for the length filter, which does not reject it,
/// and it is no candidate.
pub proof fn lemma_too_short_is_pending(params: FilterParams, ledger: Ledger, path: Path)
    requires
        path.edges.len() < params.length_range.0,
        path.edges.len() <= params.length_range.1,
    ensures
        length_verdict(params, path) == Verdict::Pending,
        path_verdict(params, ledger, path) != Verdict::Satisfied,
{
}

/// A path that takes more than 48 time bins is rejected.
pub proof fn lemma_more_than_a_day_is_rejected(params: FilterParams, ledger: Ledger, path: Path)
    requires
        duration_of(path.nodes) > 48,
    ensures
        duration_verdict(params, path) == Verdict::Reject,
        path_verdict(params, ledger, path) == Verdict::Reject,
{
}

/// Where a plan has to end with the purpose with which it started, a path
/// that ends with another purpose is pending for the cycle filter and is
/// no candidate.
pub proof fn lemma_open_cycle_is_pending(params: FilterParams, ledger: Ledger, path: Path)
    requires
        params.cycle,
        path.nodes.last().purpose != path.nodes[0].purpose,
    ensures
        cycle_verdict(params, path) == Verdict::Pending,
        path_verdict(params, ledger, path) != Verdict::Satisfied,
{
}

/// A path that leaves a purpose for the second time is rejected.
pub proof fn lemma_repeated_activity_is_rejected(params: FilterParams, ledger: Ledger, path: Path)
    requires
        leaves_again(path.nodes),
    ensures
        path_verdict(params, ledger, path) == Verdict::Reject,
{
}

/// The capacity filter is never pending, and it is satisfied with every
/// path that the ledger can pay for.
pub proof fn lemma_capacity_verdict(ledger: Ledger, path: Path)
    requires
        path.wf(),
        path.edges.len() > 0,
    ensures
        capacity_verdict(ledger, path) != Verdict::Pending,
        affordable(ledger, path) ==> capacity_verdict(ledger, path) == Verdict::Satisfied,
{
    if affordable(ledger, path) {
        let edge = path.edges.last();
        let slot = level_slot(
            edge.category as int,
            path.nodes[path.nodes.len() - 2].time_bin@ as int,
        );
        assert(occurrences(trip_keys(path.edges), edge.trip as int) <= ledger.trip_left(
            edge.trip as int,
        ));
        assert(occurrences(level_keys(path), slot) <= ledger.slot_left(slot));
        assert(occurrences(mode_keys(path.edges), edge.mode as int) <= ledger.mode_left(
            edge.mode as int,
        ));
    }
}

/// A set of purposes.
#[derive(Clone, Copy, Debug)]
struct PurposeSet {
    home: bool,
    leisure: bool,
    work: bool,
    school: bool,
    service: bool,
    shopping: bool,
}

impl PurposeSet {
    spec fn has(self, purpose: Purpose) -> bool {
        match purpose {
            Purpose::Home => self.home,
            Purpose::Leisure => self.leisure,
            Purpose::Work => self.work,
            Purpose::School => self.school,
            Purpose::Service => self.service,
            Purpose::Shopping => self.shopping,
        }
    }

    fn empty() -> (set: PurposeSet)
        ensures
            forall|purpose: Purpose| !set.has(purpose),
    {
        PurposeSet {
            home: false,
            leisure: false,
            work: false,
            school: false,
            service: false,
            shopping: false,
        }
    }

    fn contains(&self, purpose: Purpose) -> (found: bool)
        ensures
            found == self.has(purpose),
    {
        match purpose {
            Purpose::Home => self.home,
            Purpose::Leisure => self.leisure,
            Purpose::Work => self.work,
            Purpose::School => self.school,
            Purpose::Service => self.service,
            Purpose::Shopping => self.shopping,
        }
    }

    fn with(self, purpose: Purpose) -> (set: PurposeSet)
        ensures
            forall|other: Purpose| set.has(other) == (self.has(other) || other == purpose),
    {
        let mut set = self;
        match purpose {
            Purpose::Home => {
                set.home = true;
            },
            Purpose::Leisure => {
                set.leisure = true;
            },
            Purpose::Work => {
                set.work = true;
            },
            Purpose::School => {
                set.school = true;
            },
            Purpose::Service => {
                set.service = true;
            },
            Purpose::Shopping => {
                set.shopping = true;
            },
        }
        set
    }
}

/// What the incremental filters know of a path: how long it takes, and
/// which purposes an edge of it has left.
#[derive(Clone, Copy, Debug)]
struct Snapshot {
    duration: u128,
    departed: PurposeSet,
}

/// One of the first `count` states has the purpose.
pub open spec fn among_first(nodes: Seq<Node>, count: int, purpose: Purpose) -> bool {
    exists|j: int| 0 <= j < count && j < nodes.len() && (#[trigger] nodes[j]).purpose == purpose
}

/// A path that a search has found to satisfy every filter.
#[derive(Debug)]
pub struct PotentialPath {
    nodes: Vec<Node>,
    edges: Vec<Edge>,
}

impl View for PotentialPath {
    type V = Path;

    closed spec fn view(&self) -> Path {
        Path { nodes: self.nodes@, edges: self.edges@ }
    }
}

fn copy_nodes(nodes: &Vec<Node>) -> (copy: Vec<Node>)
    ensures
        copy@ == nodes@,
{
    let mut copy: Vec<Node> = Vec::new();
    let mut i: usize = 0;
    while i < nodes.len()
        invariant
            i <= nodes.len(),
            copy@ == nodes@.take(i as int),
        decreases nodes.len() - i,
    {
        copy.push(nodes[i]);
        proof {
            assert(copy@ =~= nodes@.take(i + 1));
        }
        i = i + 1;
    }
    proof {
        assert(nodes@.take(i as int) =~= nodes@);
    }
    copy
}

fn copy_edges(edges: &Vec<Edge>) -> (copy: Vec<Edge>)
    ensures
        copy@ == edges@,
{
    let mut copy: Vec<Edge> = Vec::new();
    let mut i: usize = 0;
    while i < edges.len()
        invariant
            i <= edges.len(),
            copy@ == edges@.take(i as int),
        decreases edges.len() - i,
    {
        copy.push(edges[i]);
        proof {
            assert(copy@ =~= edges@.take(i + 1));
        }
        i = i + 1;
    }
    proof {
        assert(edges@.take(i as int) =~= edges@);
    }
    copy
}

/// The state of the filters along one path of a search: the path walked so
/// far, what the incremental filters know of each of its prefixes, and the
/// ledger that the capacity filter reads.
pub struct Filter<'a> {
    params: FilterParams,
    nodes: Vec<Node>,
    edges: Vec<Edge>,
    snapshots: Vec<Snapshot>,
    capacities: &'a Capacities,
}

impl<'a> Filter<'a> {
    /// The path walked so far.
    pub closed spec fn path(&self) -> Path {
        Path { nodes: self.nodes@, edges: self.edges@ }
    }

    /// What the structural filters ask.
    pub closed spec fn params(&self) -> FilterParams {
        self.params
    }

    /// The ledger that the capacity filter reads.
    pub closed spec fn ledger(&self) -> Ledger {
        self.capacities@
    }

    /// The path is well formed and the filters know its prefixes.
    pub closed spec fn wf(&self) -> bool {
        &&& self.path().wf()
        &&& self.snapshots.len() == self.nodes.len()
        &&& forall|i: int|
            0 <= i < self.snapshots.len() ==> (#[trigger] self.snapshots[i]).duration
                == duration_of(self.nodes@.take(i + 1))
        &&& forall|i: int, purpose: Purpose|
            0 <= i < self.snapshots.len() ==> #[trigger] self.snapshots[i].departed.has(purpose)
                == among_first(self.nodes@, i, purpose)
    }

    /// A well-formed filter state holds a well-formed path.
    pub proof fn lemma_wf(&self)
        requires
            self.wf(),
        ensures
            self.path().wf(),
    {
    }

    /// Starts a path at `node`, unless the purpose of `node` is none of
    /// those with which a plan may start.
    pub fn new(params: FilterParams, node: Node, capacities: &'a Capacities) -> (started: Result<
        Filter<'a>,
        (),
    >)
        ensures
            started.is_ok() == params.first_activity@.contains(node.purpose),
            started.is_ok() ==> {
                &&& started.unwrap().wf()
                &&& started.unwrap().params() == params
                &&& started.unwrap().path() == (Path { nodes: seq![node], edges: Seq::empty() })
                &&& started.unwrap().ledger() == capacities@
            },
    {
        let mut allowed = false;
        let mut i: usize = 0;
        while i < params.first_activity.len()
            invariant
                i <= params.first_activity.len(),
                allowed == params.first_activity@.take(i as int).contains(node.purpose),
            decreases params.first_activity.len() - i,
        {
            proof {
                let now = params.first_activity@.take(i as int);
                let next = params.first_activity@.take(i + 1);
                assert(next =~= now.push(params.first_activity@[i as int]));
                if now.contains(node.purpose) {
                    let k = choose|k: int| 0 <= k < now.len() && now[k] == node.purpose;
                    assert(next[k] == node.purpose);
                }
                if next.contains(node.purpose) {
                    let k = choose|k: int| 0 <= k < next.len() && next[k] == node.purpose;
                    if k < i {
                        assert(now[k] == node.purpose);
                    }
                }
                assert(next[i as int] == params.first_activity@[i as int]);
            }
            if params.first_activity[i] == node.purpose {
                allowed = true;
            }
            i = i + 1;
        }
        proof {
            assert(params.first_activity@.take(i as int) =~= params.first_activity@);
        }
        if !allowed {
            return Err(());
        }
        let bin = node.time_bin.value();
        let mut nodes: Vec<Node> = Vec::new();
        nodes.push(node);
        let mut snapshots: Vec<Snapshot> = Vec::new();
        snapshots.push(Snapshot { duration: 0, departed: PurposeSet::empty() });
        let filter = Filter { params, nodes, edges: Vec::new(), snapshots, capacities };
        proof {
            assert(filter.nodes@ =~= seq![node]);
            assert(filter.nodes@.take(1) =~= filter.nodes@);
            assert(filter.edges@ =~= Seq::<Edge>::empty());
        }
        Ok(filter)
    }

    /// Steps back by one edge.
    pub fn to_parent(&mut self)
        requires
            old(self).wf(),
            old(self).path().edges.len() > 0,
        ensures
            final(self).wf(),
            final(self).params() == old(self).params(),
            final(self).ledger() == old(self).ledger(),
            final(self).path() == old(self).path().shortened(),
    {
        self.edges.pop();
        self.nodes.pop();
        self.snapshots.pop();
        proof {
            let before = old(self).nodes@;
            let after = self.nodes@;
            assert forall|i: int| 0 <= i < self.snapshots.len() implies (
            #[trigger] self.snapshots[i]).duration == duration_of(after.take(i + 1)) by {
                assert(old(self).snapshots[i] == self.snapshots[i]);
                assert(after.take(i + 1) =~= before.take(i + 1));
            }
            assert forall|i: int, purpose: Purpose|
                0 <= i < self.snapshots.len() implies #[trigger] self.snapshots[i].departed.has(
                purpose,
            ) == among_first(after, i, purpose) by {
                assert(old(self).snapshots[i] == self.snapshots[i]);
                if among_first(before, i, purpose) {
                    let j = choose|j: int|
                        0 <= j < i && j < before.len() && (#[trigger] before[j]).purpose == purpose;
                    assert(after[j].purpose == purpose);
                }
                if among_first(after, i, purpose) {
                    let j = choose|j: int|
                        0 <= j < i && j < after.len() && (#[trigger] after[j]).purpose == purpose;
                    assert(before[j].purpose == purpose);
                }
            }
        }
    }
}

fn join(a: Verdict, b: Verdict) -> (v: Verdict)
    ensures
        v == both(a, b),
{
    match (a, b) {
        (Verdict::Reject, _) => Verdict::Reject,
        (_, Verdict::Reject) => Verdict::Reject,
        (Verdict::Pending, _) => Verdict::Pending,
        (_, Verdict::Pending) => Verdict::Pending,
        _ => Verdict::Satisfied,
    }
}

impl<'a> Filter<'a> {
    fn check_length(&self) -> (v: Verdict)
        ensures
            v == length_verdict(self.params(), self.path()),
    {
        if self.edges.len() > self.params.length_range.1 {
            Verdict::Reject
        } else if self.edges.len() < self.params.length_range.0 {
            Verdict::Pending
        } else {
            Verdict::Satisfied
        }
    }

    fn check_duration(&self) -> (v: Verdict)
        requires
            self.wf(),
        ensures
            v == duration_verdict(self.params(), self.path()),
    {
        let last = self.snapshots.len() - 1;
        proof {
            assert(self.nodes@.take(last + 1) =~= self.nodes@);
        }
        let duration = self.snapshots[last].duration;
        if duration > 48 {
            Verdict::Reject
        } else if duration < self.params.duration_min as u128 {
            Verdict::Pending
        } else {
            Verdict::Satisfied
        }
    }

    fn check_activity_cycle(&self) -> (v: Verdict)
        requires
            self.wf(),
        ensures
            v == cycle_verdict(self.params(), self.path()),
    {
        let last = self.nodes.len() - 1;
        if !self.params.cycle || self.nodes[last].purpose == self.nodes[0].purpose {
            Verdict::Satisfied
        } else {
            Verdict::Pending
        }
    }

    fn check_distinct_activities(&self) -> (v: Verdict)
        requires
            self.wf(),
            self.path().edges.len() >= 1,
        ensures
            v == distinct_verdict(self.path()),
    {
        let from = self.nodes.len() - 2;
        let purpose = self.nodes[from].purpose;
        proof {
            let nodes = self.nodes@;
            assert(self.snapshots[from as int].departed.has(purpose) == among_first(
                nodes,
                from as int,
                purpose,
            ));
            if among_first(nodes, from as int, purpose) {
                let j = choose|j: int|
                    0 <= j < from && j < nodes.len() && (#[trigger] nodes[j]).purpose == purpose;
                assert(leaves_again(nodes));
            }
            if leaves_again(nodes) {
                let j = choose|j: int|
                    0 <= j < nodes.len() - 2 && (#[trigger] nodes[j]).purpose == nodes[nodes.len()
                        - 2].purpose;
                assert(among_first(nodes, from as int, purpose));
            }
        }
        if self.snapshots[from].departed.contains(purpose) {
            Verdict::Reject
        } else {
            Verdict::Satisfied
        }
    }

    fn check_trip_capacity(&self) -> (fits: bool)
        requires
            self.wf(),
            self.path().edges.len() >= 1,
        ensures
            fits == (occurrences(trip_keys(self.path().edges), self.path().edges.last().trip as int)
                <= self.ledger().trip_left(self.path().edges.last().trip as int)),
    {
        let trip = self.edges[self.edges.len() - 1].trip;
        let ghost keys = trip_keys(self.edges@);
        let mut uses: usize = 0;
        let mut i: usize = 0;
        proof {
            assert(keys.take(0) =~= Seq::<int>::empty());
        }
        while i < self.edges.len()
            invariant
                i <= self.edges.len(),
                keys == trip_keys(self.edges@),
                uses == occurrences(keys.take(i as int), trip as int),
                uses <= i,
            decreases self.edges.len() - i,
        {
            proof {
                lemma_occurrences_take(keys, i as int, trip as int);
            }
            if self.edges[i].trip == trip {
                uses = uses + 1;
            }
            i = i + 1;
        }
        proof {
            assert(keys.take(i as int) =~= keys);
            lemma_occurrences_bounds(keys, trip as int);
            assert(keys[keys.len() - 1] == trip);
        }
        trip < self.capacities.trip_count() && uses <= self.capacities.get_trip(trip)
    }

    fn check_level_capacity(&self) -> (fits: bool)
        requires
            self.wf(),
            self.path().edges.len() >= 1,
        ensures
            fits == (occurrences(
                level_keys(self.path()),
                level_slot(
                    self.path().edges.last().category as int,
                    self.path().nodes[self.path().nodes.len() - 2].time_bin@ as int,
                ),
            ) <= self.ledger().slot_left(
                level_slot(
                    self.path().edges.last().category as int,
                    self.path().nodes[self.path().nodes.len() - 2].time_bin@ as int,
                ),
            )),
    {
        let category = self.edges[self.edges.len() - 1].category;
        let time_bin = self.nodes[self.nodes.len() - 2].time_bin;
        let bin = time_bin.value();
        let ghost keys = level_keys(self.path());
        let ghost slot = level_slot(category as int, bin as int);
        let mut uses: usize = 0;
        let mut i: usize = 0;
        proof {
            assert(keys.take(0) =~= Seq::<int>::empty());
        }
        while i < self.edges.len()
            invariant
                i <= self.edges.len(),
                self.wf(),
                bin < 48,
                keys == level_keys(self.path()),
                slot == level_slot(category as int, bin as int),
                uses == occurrences(keys.take(i as int), slot),
                uses <= i,
            decreases self.edges.len() - i,
        {
            proof {
                lemma_occurrences_take(keys, i as int, slot);
                assert(self.nodes@[i as int].time_bin@ < 48);
            }
            if self.edges[i].category == category && self.nodes[i].time_bin.value() == bin {
                uses = uses + 1;
            }
            i = i + 1;
        }
        proof {
            assert(keys.take(i as int) =~= keys);
            lemma_occurrences_bounds(keys, slot);
            assert(keys[keys.len() - 1] == slot);
        }
        category < self.capacities.category_count() && uses <= self.capacities.get_level(
            category,
            time_bin,
        )
    }

    fn check_mode_capacity(&self) -> (fits: bool)
        requires
            self.wf(),
            self.path().edges.len() >= 1,
        ensures
            fits == (occurrences(mode_keys(self.path().edges), self.path().edges.last().mode as int)
                <= self.ledger().mode_left(self.path().edges.last().mode as int)),
    {
        let mode = self.edges[self.edges.len() - 1].mode;
        let ghost keys = mode_keys(self.edges@);
        let mut uses: usize = 0;
        let mut i: usize = 0;
        proof {
            assert(keys.take(0) =~= Seq::<int>::empty());
        }
        while i < self.edges.len()
            invariant
                i <= self.edges.len(),
                keys == mode_keys(self.edges@),
                uses == occurrences(keys.take(i as int), mode as int),
                uses <= i,
            decreases self.edges.len() - i,
        {
            proof {
                lemma_occurrences_take(keys, i as int, mode as int);
            }
            if self.edges[i].mode == mode {
                uses = uses + 1;
            }
            i = i + 1;
        }
        proof {
            assert(keys.take(i as int) =~= keys);
            lemma_occurrences_bounds(keys, mode as int);
            assert(keys[keys.len() - 1] == mode);
        }
        mode < self.capacities.mode_count() && uses <= self.capacities.get_mode(mode)
    }

    fn check(&self) -> (v: Verdict)
        requires
            self.wf(),
            self.path().edges.len() >= 1,
        ensures
            v == path_verdict(self.params(), self.ledger(), self.path()),
    {
        let length = self.check_length();
        if length == Verdict::Reject {
            return Verdict::Reject;
        }
        let duration = self.check_duration();
        if duration == Verdict::Reject {
            return Verdict::Reject;
        }
        let cycle = self.check_activity_cycle();
        let distinct = self.check_distinct_activities();
        if distinct == Verdict::Reject {
            return Verdict::Reject;
        }
        if !self.check_trip_capacity() {
            return Verdict::Reject;
        }
        if !self.check_level_capacity() {
            return Verdict::Reject;
        }
        if !self.check_mode_capacity() {
            return Verdict::Reject;
        }
        join(length, join(duration, cycle))
    }

    /// Continues the path by `edge` to `target` and asks the filters. The
    /// path stays continued whatever they say: `Err` means that it is
    /// rejected, `Ok(None)` that it is pending, and `Ok` of a path that it
    /// satisfies every filter and is a candidate.
    pub fn to_child(&mut self, target: &Node, edge: &Edge) -> (found: Result<
        Option<PotentialPath>,
        (),
    >)
        requires
            old(self).wf(),
        ensures
            final(self).wf(),
            final(self).params() == old(self).params(),
            final(self).ledger() == old(self).ledger(),
            final(self).path() == old(self).path().extended(*target, *edge),
            match path_verdict(final(self).params(), final(self).ledger(), final(self).path()) {
                Verdict::Reject => found.is_err(),
                Verdict::Pending => found == Ok::<Option<PotentialPath>, ()>(None),
                Verdict::Satisfied => found.is_ok() && found.unwrap().is_some()
                    && found.unwrap().unwrap()@ == final(self).path(),
            },
    {
        let last = self.nodes.len() - 1;
        let source = self.nodes[last];
        let known = self.snapshots[last];
        let bin = target.time_bin.value();
        let ghost before = self.nodes@;
        proof {
            assert(before.take(last + 1) =~= before);
            lemma_duration_bounds(before);
            lemma_duration_push(before, *target);
            crate::time_bins::lemma_forward_distance_bounds(target.time_bin@, source.time_bin@);
        }
        let step = (target.time_bin - source.time_bin) as u128;
        self.nodes.push(*target);
        self.edges.push(*edge);
        self.snapshots.push(
            Snapshot {
                duration: known.duration + step,
                departed: known.departed.with(source.purpose),
            },
        );
        proof {
            let after = self.nodes@;
            assert(after.take(last + 2) =~= after);
            assert forall|i: int| 0 <= i < self.snapshots.len() implies (
            #[trigger] self.snapshots[i]).duration == duration_of(after.take(i + 1)) by {
                if i <= last {
                    assert(old(self).snapshots[i] == self.snapshots[i]);
                    assert(after.take(i + 1) =~= before.take(i + 1));
                }
            }
            assert forall|i: int, purpose: Purpose|
                0 <= i < self.snapshots.len() implies #[trigger] self.snapshots[i].departed.has(
                purpose,
            ) == among_first(after, i, purpose) by {
                let upto = if i <= last {
                    i
                } else {
                    last as int
                };
                if i <= last {
                    assert(old(self).snapshots[i] == self.snapshots[i]);
                }
                if among_first(before, upto, purpose) {
                    let j = choose|j: int|
                        0 <= j < upto && j < before.len() && (#[trigger] before[j]).purpose
                            == purpose;
                    assert(after[j].purpose == purpose);
                }
                if among_first(after, i, purpose) {
                    let j = choose|j: int|
                        0 <= j < i && j < after.len() && (#[trigger] after[j]).purpose == purpose;
                    if j < last {
                        assert(before[j].purpose == purpose);
                    }
                }
                if i > last && purpose == source.purpose {
                    assert(after[last as int].purpose == purpose);
                }
            }
            assert forall|i: int| 0 <= i < after.len() implies (#[trigger] after[i]).time_bin@
                < 48 by {
                if i <= last {
                    assert(before[i].time_bin@ < 48);
                }
            }
        }
        match self.check() {
            Verdict::Reject => Err(()),
            Verdict::Pending => Ok(None),
            Verdict::Satisfied => Ok(
                Some(
                    PotentialPath { nodes: copy_nodes(&self.nodes), edges: copy_edges(&self.edges) },
                ),
            ),
        }
    }

    /// The number of edges of the path.
    pub fn depth(&self) -> (n: usize)
        ensures
            n == self.path().edges.len(),
    {
        self.edges.len()
    }
}

impl PotentialPath {
    #[verifier::type_invariant]
    spec fn well_formed(self) -> bool {
        self@.wf() && self@.edges.len() > 0
    }

    /// The path through the given states by the given edges, if there is an
    /// edge, and a state before and after each edge.
    pub fn new(nodes: Vec<Node>, edges: Vec<Edge>) -> (made: Option<PotentialPath>)
        ensures
            made.is_some() == (edges.len() > 0 && nodes.len() == edges.len() + 1),
            made.is_some() ==> made.unwrap()@ == (Path { nodes: nodes@, edges: edges@ }),
    {
        if edges.len() == 0 || edges.len() == usize::MAX || nodes.len() != edges.len() + 1 {
            return None;
        }
        let mut i: usize = 0;
        while i < nodes.len()
            invariant
                i <= nodes.len(),
                forall|k: int| 0 <= k < i ==> (#[trigger] nodes[k]).time_bin@ < 48,
            decreases nodes.len() - i,
        {
            let bin = nodes[i].time_bin.value();
            i = i + 1;
        }
        Some(PotentialPath { nodes, edges })
    }

    /// The number of edges of the path, which is at least one.
    pub fn len(&self) -> (n: usize)
        ensures
            n == self@.edges.len(),
            n > 0,
            self@.wf(),
    {
        proof {
            use_type_invariant(self);
        }
        self.edges.len()
    }

    /// The plan that the path stands for: each edge with the state in which
    /// it starts.
    pub fn plan(&self) -> (plan: Vec<(Node, Edge)>)
        ensures
            plan@ == self@.plan(),
    {
        proof {
            use_type_invariant(self);
        }
        let mut plan: Vec<(Node, Edge)> = Vec::new();
        let mut i: usize = 0;
        while i < self.edges.len()
            invariant
                i <= self.edges.len(),
                self.nodes.len() == self.edges.len() + 1,
                plan.len() == i,
                forall|k: int| 0 <= k < i ==> #[trigger] plan[k] == (self.nodes[k], self.edges[k]),
            decreases self.edges.len() - i,
        {
            plan.push((self.nodes[i], self.edges[i]));
            i = i + 1;
        }
        proof {
            assert(plan@ =~= self@.plan());
        }
        plan
    }

    /// Commits the path once, if the ledger can pay for it: every trip
    /// record, level slot and mode is debited by the number of edges that
    /// use it, and the plan of the path is added to the plans. If the
    /// ledger lacks anything, nothing changes.
    pub fn try_extracting(
        &self,
        capacities: &mut Capacities,
        plans: &mut Vec<Vec<(Node, Edge)>>,
    ) -> (done: Result<(), ()>)
        ensures
            done.is_ok() == affordable(old(capacities)@, self@),
            done.is_ok() ==> {
                &&& final(capacities)@ == debit(old(capacities)@, self@)
                &&& final(plans).len() == old(plans).len() + 1
                &&& final(plans)@.drop_last() == old(plans)@
                &&& final(plans)@.last()@ == self@.plan()
            },
            done.is_err() ==> final(capacities)@ == old(capacities)@ && final(plans)@ == old(plans)@,
    {
        proof {
            use_type_invariant(self);
        }
        let ghost ledger = capacities@;
        let ghost path = self@;
        let categories = capacities.category_count();
        let mut trip_uses: Vec<usize> = Vec::new();
        let mut slot_uses: Vec<usize> = Vec::new();
        let mut mode_uses: Vec<usize> = Vec::new();
        let mut i: usize = 0;
        while i < self.edges.len()
            invariant
                i <= self.edges.len(),
                path == self@,
                path.wf(),
                ledger == capacities@,
                categories == ledger.categories(),
                categories * 48 <= usize::MAX,
                trip_uses.len() == i,
                slot_uses.len() == i,
                mode_uses.len() == i,
                forall|k: int| 0 <= k < i ==> #[trigger] trip_uses[k] == trip_keys(path.edges)[k],
                forall|k: int| 0 <= k < i ==> #[trigger] slot_uses[k] == level_keys(path)[k],
                forall|k: int| 0 <= k < i ==> #[trigger] mode_uses[k] == mode_keys(path.edges)[k],
            decreases self.edges.len() - i,
        {
            let edge = self.edges[i];
            let bin = self.nodes[i].time_bin.value();
            if edge.category >= categories {
                proof {
                    let slot = level_slot(edge.category as int, bin as int);
                    assert(level_keys(path)[i as int] == slot);
                    lemma_occurrences_bounds(level_keys(path), slot);
                    assert(occurrences(level_keys(path), slot) > ledger.slot_left(slot));
                }
                return Err(());
            }
            trip_uses.push(edge.trip);
            slot_uses.push(edge.category * 48 + bin);
            mode_uses.push(edge.mode);
            i = i + 1;
        }
        let trips = tally(&trip_uses);
        let levels = tally(&slot_uses);
        let modes = tally(&mode_uses);
        proof {
            assert(ints(trip_uses@) =~= trip_keys(path.edges));
            assert(ints(slot_uses@) =~= level_keys(path));
            assert(ints(mode_uses@) =~= mode_keys(path.edges));
            lemma_tally_asks(trip_uses@, trips@);
            lemma_tally_asks(slot_uses@, levels@);
            lemma_tally_asks(mode_uses@, modes@);
            assert(ledger.affords(trips@, levels@, modes@) == affordable(ledger, path)) by {
                if ledger.affords(trips@, levels@, modes@) {
                    assert forall|key: int| #[trigger]
                        occurrences(trip_keys(path.edges), key) <= ledger.trip_left(key) by {
                        assert(asked(trips@, key) == occurrences(trip_keys(path.edges), key));
                    }
                    assert forall|key: int| #[trigger]
                        occurrences(level_keys(path), key) <= ledger.slot_left(key) by {
                        assert(asked(levels@, key) == occurrences(level_keys(path), key));
                    }
                    assert forall|key: int| #[trigger]
                        occurrences(mode_keys(path.edges), key) <= ledger.mode_left(key) by {
                        assert(asked(modes@, key) == occurrences(mode_keys(path.edges), key));
                    }
                }
                if affordable(ledger, path) {
                    assert forall|key: int| #[trigger]
                        asked(trips@, key) <= ledger.trip_left(key) by {
                        assert(occurrences(trip_keys(path.edges), key) <= ledger.trip_left(key));
                    }
                    assert forall|key: int| #[trigger]
                        asked(levels@, key) <= ledger.slot_left(key) by {
                        assert(occurrences(level_keys(path), key) <= ledger.slot_left(key));
                    }
                    assert forall|key: int| #[trigger]
                        asked(modes@, key) <= ledger.mode_left(key) by {
                        assert(occurrences(mode_keys(path.edges), key) <= ledger.mode_left(key));
                    }
                }
            }
        }
        if !capacities.try_commit(&trips, &levels, &modes) {
            return Err(());
        }
        proof {
            let paid = ledger.debited(trips@, levels@, modes@);
            let goal = debit(ledger, path);
            assert forall|key: int| 0 <= key < paid.trips.len() implies paid.trips[key]
                == goal.trips[key] by {
                assert(asked(trips@, key) == occurrences(trip_keys(path.edges), key));
            }
            assert forall|key: int| 0 <= key < paid.levels.len() implies paid.levels[key]
                == goal.levels[key] by {
                assert(asked(levels@, key) == occurrences(level_keys(path), key));
            }
            assert forall|key: int| 0 <= key < paid.modes.len() implies paid.modes[key]
                == goal.modes[key] by {
                assert(asked(modes@, key) == occurrences(mode_keys(path.edges), key));
            }
            assert(paid.trips =~= goal.trips);
            assert(paid.levels =~= goal.levels);
            assert(paid.modes =~= goal.modes);
        }
        let plan = self.plan();
        plans.push(plan);
        proof {
            assert(plans@.drop_last() =~= old(plans)@);
        }
        Ok(())
    }
}

} // verus!
