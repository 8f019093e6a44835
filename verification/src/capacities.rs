//! The capacity ledger: how many trips may still be planned of each trip
//! record, in each category and time bin, and by each mode.

use std::collections::HashMap;

use vstd::prelude::*;
use vstd::std_specs::iter::IteratorSpec;

use crate::apportion::counts;
use crate::apportion::is_apportionment;
use crate::apportion::sum_safe_round;
use crate::apportion::weights_of;
use crate::modes;
use crate::modes::Mode;
use crate::reference::ReferenceData;
use crate::time_bins::TimeBin;
use crate::trips;
use crate::trips::Trip;

verus! {

/// A number of trips.
pub type Count = usize;

/// What the ledger holds, as numbers: the remaining capacity of each trip
/// record, of each category in each time bin (48 entries for each category,
/// one category after the other), and of each mode.
pub struct Ledger {
    pub trips: Seq<nat>,
    pub levels: Seq<nat>,
    pub modes: Seq<nat>,
}

impl Ledger {
    /// The number of categories that the ledger has levels for.
    pub open spec fn categories(self) -> nat {
        self.levels.len() / 48
    }

    /// The level entries come in whole days.
    pub open spec fn wf(self) -> bool {
        self.levels.len() == 48 * self.categories()
    }

    /// Remaining capacity of a category in a time bin.
    pub open spec fn level(self, category: int, bin: int) -> nat {
        self.levels[category * 48 + bin]
    }

    /// The number of level slots: 48 for each category.
    pub open spec fn level_slots(self) -> int {
        48 * (self.levels.len() / 48) as int
    }

    /// Remaining capacity of a trip record; none for a trip record that
    /// the ledger does not have.
    pub open spec fn trip_left(self, trip: int) -> nat {
        pool_left(self.trips, self.trips.len() as int, trip)
    }

    /// Remaining capacity of a level slot, which is 48 times a category
    /// plus a time bin; none for a slot that the ledger does not have.
    pub open spec fn slot_left(self, slot: int) -> nat {
        pool_left(self.levels, self.level_slots(), slot)
    }

    /// Remaining capacity of a mode; none for a mode that the ledger does
    /// not have.
    pub open spec fn mode_left(self, mode: int) -> nat {
        pool_left(self.modes, self.modes.len() as int, mode)
    }

    /// The ledger can pay what the usages ask of its trip records, level
    /// slots and modes.
    pub open spec fn affords(
        self,
        trips: Map<usize, usize>,
        levels: Map<usize, usize>,
        modes: Map<usize, usize>,
    ) -> bool {
        &&& pool_affords(self.trips, self.trips.len() as int, trips)
        &&& pool_affords(self.levels, self.level_slots(), levels)
        &&& pool_affords(self.modes, self.modes.len() as int, modes)
    }

    /// The ledger after it has paid what the usages ask.
    pub open spec fn debited(
        self,
        trips: Map<usize, usize>,
        levels: Map<usize, usize>,
        modes: Map<usize, usize>,
    ) -> Ledger {
        Ledger {
            trips: pool_debited(self.trips, self.trips.len() as int, trips),
            levels: pool_debited(self.levels, self.level_slots(), levels),
            modes: pool_debited(self.modes, self.modes.len() as int, modes),
        }
    }

    /// Remaining capacities of a category over the day.
    pub open spec fn curve(self, category: int) -> Seq<nat> {
        self.levels.subrange(category * 48, category * 48 + 48)
    }
}

/// What is left of entry `key` of a pool whose first `limit` entries count;
/// nothing of an entry beyond them.
pub open spec fn pool_left(pool: Seq<nat>, limit: int, key: int) -> nat {
    if 0 <= key < limit {
        pool[key]
    } else {
        0
    }
}

/// What a usage asks of `key`: the amount that it holds for the key, and
/// nothing where it holds none.
pub open spec fn asked(usage: Map<usize, usize>, key: int) -> nat {
    if 0 <= key <= usize::MAX && usage.contains_key(key as usize) {
        usage[key as usize] as nat
    } else {
        0
    }
}

/// The pool has at least what the usage asks of each key.
pub open spec fn pool_affords(pool: Seq<nat>, limit: int, usage: Map<usize, usize>) -> bool {
    forall|key: int| #[trigger] asked(usage, key) <= pool_left(pool, limit, key)
}

/// The pool after each key has paid what the usage asks of it.
pub open spec fn pool_debited(pool: Seq<nat>, limit: int, usage: Map<usize, usize>) -> Seq<nat> {
    Seq::new(
        pool.len(),
        |key: int|
            if key < limit {
                (pool[key] - asked(usage, key)) as nat
            } else {
                pool[key]
            },
    )
}

fn pool_check(pool: &Vec<Count>, limit: usize, usage: &HashMap<usize, Count>) -> (ok: bool)
    requires
        limit <= pool.len(),
    ensures
        ok == pool_affords(counts(pool@), limit as int, usage@),
{
    broadcast use vstd::std_specs::hash::group_hash_axioms;

    let ghost entries = usage.iter().remaining();
    for entry in it: usage.iter()
        invariant
            limit <= pool.len(),
            it.seq() == entries,
            entries == usage.iter().remaining(),
            forall|i: int|
                0 <= i < it.index() ==> *(#[trigger] entries[i]).1 == 0 || (*entries[i].0 < limit
                    && *entries[i].1 <= pool[*entries[i].0 as int]),
    {
        let (key, asks) = entry;
        if *asks > 0 && (*key >= limit || *asks > pool[*key]) {
            proof {
                assert(usage@.contains_key(*key));
                assert(asked(usage@, *key as int) == *asks);
            }
            return false;
        }
    }
    proof {
        assert forall|key: int| #[trigger]
            asked(usage@, key) <= pool_left(counts(pool@), limit as int, key) by {
            if 0 <= key <= usize::MAX && usage@.contains_key(key as usize) {
                let k = key as usize;
                assert(entries.contains((&k, &usage@[k])));
                let i = choose|i: int| 0 <= i < entries.len() && entries[i] == (&k, &usage@[k]);
                assert(*entries[i].1 == 0 || (*entries[i].0 < limit && *entries[i].1
                    <= pool[*entries[i].0 as int]));
            }
        }
    }
    true
}

fn pool_debit(pool: &mut Vec<Count>, limit: usize, usage: &HashMap<usize, Count>)
    requires
        limit <= old(pool).len(),
        pool_affords(counts(old(pool)@), limit as int, usage@),
    ensures
        counts(final(pool)@) == pool_debited(counts(old(pool)@), limit as int, usage@),
{
    broadcast use vstd::std_specs::hash::group_hash_axioms;

    let ghost before = counts(pool@);
    let ghost entries = usage.iter().remaining();
    for entry in it: usage.iter()
        invariant
            limit <= pool.len(),
            pool.len() == before.len(),
            it.seq() == entries,
            entries == usage.iter().remaining(),
            entries.no_duplicates(),
            pool_affords(before, limit as int, usage@),
            forall|k: int|
                0 <= k < pool.len() ==> #[trigger] pool[k] == if exists|i: int|
                    0 <= i < it.index() && *(#[trigger] entries[i]).0 == k {
                    before[k] - asked(usage@, k)
                } else {
                    before[k] as int
                },
    {
        let (key, asks) = entry;
        let ghost j = it.index();
        let ghost earlier = pool@;
        proof {
            assert(entries[j] == (key, asks));
            assert(usage@.contains_key(*key));
            assert(asked(usage@, *key as int) == *asks);
            assert(asked(usage@, *key as int) <= pool_left(before, limit as int, *key as int));
            assert(!(exists|i: int| 0 <= i < j && *(#[trigger] entries[i]).0 == *key)) by {
                if exists|i: int| 0 <= i < j && *(#[trigger] entries[i]).0 == *key {
                    let i = choose|i: int| 0 <= i < j && *(#[trigger] entries[i]).0 == *key;
                    assert(usage@[*entries[i].0] == *entries[i].1);
                    assert(entries[i] == entries[j]);
                }
            }
        }
        if *asks > 0 {
            let left = pool[*key];
            pool.set(*key, left - *asks);
        }
        proof {
            assert forall|k: int| 0 <= k < pool.len() implies #[trigger] pool[k] == if exists|i: int|
                0 <= i < j + 1 && *(#[trigger] entries[i]).0 == k {
                before[k] - asked(usage@, k)
            } else {
                before[k] as int
            } by {
                if k == *key {
                    assert(*entries[j].0 == k);
                } else {
                    assert(pool[k] == earlier[k]);
                    if exists|i: int| 0 <= i < j + 1 && *(#[trigger] entries[i]).0 == k {
                        let i = choose|i: int| 0 <= i < j + 1 && *(#[trigger] entries[i]).0 == k;
                        assert(i < j);
                    }
                }
            }
        }
    }
    proof {
        assert forall|k: int| 0 <= k < pool.len() implies counts(pool@)[k] == pool_debited(
            before,
            limit as int,
            usage@,
        )[k] by {
            if 0 <= k <= usize::MAX && usage@.contains_key(k as usize) {
                let kk = k as usize;
                assert(entries.contains((&kk, &usage@[kk])));
                let i = choose|i: int| 0 <= i < entries.len() && entries[i] == (&kk, &usage@[kk]);
                assert(*entries[i].0 == k);
                assert(asked(usage@, k) <= pool_left(before, limit as int, k));
            } else {
                if exists|i: int| 0 <= i < entries.len() && *(#[trigger] entries[i]).0 == k {
                    let i = choose|i: int| 0 <= i < entries.len() && *(#[trigger] entries[i]).0 == k;
                    assert(usage@.contains_key(*entries[i].0));
                }
            }
        }
        assert(counts(pool@) =~= pool_debited(before, limit as int, usage@));
    }
}

/// The counts of the trips, in table order.
pub open spec fn trip_counts(table: Seq<Trip>) -> Seq<nat> {
    Seq::new(table.len(), |i: int| table[i].count as nat)
}

/// The ledger that reference data start with: every trip record has its
/// count; the trips of a category are apportioned over the day by the
/// category's level curve; and all trips are apportioned over the modes by
/// their shares.
pub open spec fn initial_ledger(ledger: Ledger, data: ReferenceData) -> bool {
    &&& ledger.trips == trip_counts(data.trips@)
    &&& ledger.levels.len() == 48 * data.categories.len()
    &&& forall|c: int|
        0 <= c < data.categories.len() ==> is_apportionment(
            #[trigger] ledger.curve(c),
            trips::category_count(data.trips@, c),
            weights_of(data.levels[c]@),
        )
    &&& is_apportionment(ledger.modes, trips::total_count(data.trips@), modes::shares(data.modes@))
}

/// In the ledger that reference data start with, the levels of a category
/// add up to the number of trips of the category, and the capacities of
/// the modes add up to the number of all trips.
pub proof fn lemma_initial_ledger_sums(ledger: Ledger, data: ReferenceData, category: int)
    requires
        initial_ledger(ledger, data),
        0 <= category < data.categories.len(),
    ensures
        crate::apportion::seq_sum(ledger.curve(category)) == trips::category_count(
            data.trips@,
            category,
        ),
        crate::apportion::seq_sum(ledger.modes) == trips::total_count(data.trips@),
{
    assert(is_apportionment(
        ledger.curve(category),
        trips::category_count(data.trips@, category),
        weights_of(data.levels[category]@),
    ));
}

/// Reference data start with one ledger only.
pub proof fn lemma_initial_ledger_unique(first: Ledger, second: Ledger, data: ReferenceData)
    requires
        initial_ledger(first, data),
        initial_ledger(second, data),
    ensures
        first == second,
{
    crate::apportion::lemma_apportionment_unique(
        first.modes,
        second.modes,
        trips::total_count(data.trips@),
        modes::shares(data.modes@),
    );
    assert(first.levels =~= second.levels) by {
        assert forall|slot: int| 0 <= slot < first.levels.len() implies first.levels[slot]
            == second.levels[slot] by {
            let c = slot / 48;
            crate::apportion::lemma_apportionment_unique(
                first.curve(c),
                second.curve(c),
                trips::category_count(data.trips@, c),
                weights_of(data.levels[c]@),
            );
            assert(first.curve(c)[slot - c * 48] == first.levels[slot]);
            assert(second.curve(c)[slot - c * 48] == second.levels[slot]);
        }
    }
}

/// The ledger of remaining capacities.
pub struct Capacities {
    of_trips: Vec<Count>,
    of_levels: Vec<Count>,
    of_modes: Vec<Count>,
}

impl View for Capacities {
    type V = Ledger;

    closed spec fn view(&self) -> Ledger {
        Ledger {
            trips: counts(self.of_trips@),
            levels: counts(self.of_levels@),
            modes: counts(self.of_modes@),
        }
    }
}

fn category_total(table: &Vec<Trip>, category: usize) -> (total: usize)
    requires
        trips::total_count(table@) <= usize::MAX,
    ensures
        total == trips::category_count(table@, category as int),
{
    let mut total: usize = 0;
    let mut i: usize = 0;
    proof {
        assert(table@.take(0) =~= Seq::<Trip>::empty());
    }
    while i < table.len()
        invariant
            i <= table.len(),
            trips::total_count(table@) <= usize::MAX,
            total == trips::category_count(table@.take(i as int), category as int),
        decreases table.len() - i,
    {
        proof {
            assert(table@.take(i + 1).drop_last() =~= table@.take(i as int));
            trips::lemma_counts_bounded(table@, category as int, i + 1);
            trips::lemma_counts_bounded(table@, category as int, 0);
        }
        if table[i].category == category {
            total = total + table[i].count;
        }
        i = i + 1;
    }
    proof {
        assert(table@.take(i as int) =~= table@);
    }
    total
}

fn table_total(table: &Vec<Trip>) -> (total: usize)
    requires
        trips::total_count(table@) <= usize::MAX,
    ensures
        total == trips::total_count(table@),
{
    let mut total: usize = 0;
    let mut i: usize = 0;
    proof {
        assert(table@.take(0) =~= Seq::<Trip>::empty());
    }
    while i < table.len()
        invariant
            i <= table.len(),
            trips::total_count(table@) <= usize::MAX,
            total == trips::total_count(table@.take(i as int)),
        decreases table.len() - i,
    {
        proof {
            assert(table@.take(i + 1).drop_last() =~= table@.take(i as int));
            trips::lemma_counts_bounded(table@, 0, i + 1);
        }
        total = total + table[i].count;
        i = i + 1;
    }
    proof {
        assert(table@.take(i as int) =~= table@);
    }
    total
}

fn mode_shares(table: &Vec<Mode>) -> (shares: Vec<u32>)
    ensures
        weights_of(shares@) == modes::shares(table@),
        shares.len() == table.len(),
        forall|i: int| 0 <= i < table.len() ==> #[trigger] shares[i] == table[i].share,
{
    let mut shares: Vec<u32> = Vec::new();
    let mut i: usize = 0;
    while i < table.len()
        invariant
            i <= table.len(),
            shares.len() == i,
            forall|k: int| 0 <= k < i ==> #[trigger] shares[k] == table[k].share,
        decreases table.len() - i,
    {
        shares.push(table[i].share);
        i = i + 1;
    }
    proof {
        assert(weights_of(shares@) =~= modes::shares(table@));
    }
    shares
}

impl Capacities {
    /// Derives the ledger from the reference data.
    pub fn new(data: &ReferenceData) -> (ledger: Capacities)
        requires
            data.wf(),
        ensures
            initial_ledger(ledger@, *data),
            ledger@.wf(),
    {
        let mut of_trips: Vec<Count> = Vec::new();
        let mut i: usize = 0;
        while i < data.trips.len()
            invariant
                i <= data.trips.len(),
                of_trips.len() == i,
                forall|k: int| 0 <= k < i ==> #[trigger] of_trips[k] == data.trips[k].count,
            decreases data.trips.len() - i,
        {
            of_trips.push(data.trips[i].count);
            i = i + 1;
        }
        let mut of_levels: Vec<Count> = Vec::new();
        let mut c: usize = 0;
        proof {
            categories_are_few(data);
        }
        while c < data.categories.len()
            invariant
                c <= data.categories.len(),
                data.wf(),
                data.categories.len() <= 256,
                of_levels.len() == 48 * c,
                forall|k: int|
                    0 <= k < c ==> is_apportionment(
                        #[trigger] counts(of_levels@).subrange(k * 48, k * 48 + 48),
                        trips::category_count(data.trips@, k),
                        weights_of(data.levels[k]@),
                    ),
            decreases data.categories.len() - c,
        {
            let total = category_total(&data.trips, c);
            let curve = &data.levels[c];
            proof {
                assert(crate::levels::curve_valid(data.levels[c as int]@));
                let b = choose|b: int| 0 <= b < 48 && #[trigger] curve@[b] > 0;
                assert(curve[b] > 0);
            }
            let day = sum_safe_round(total, curve);
            let ghost before = of_levels@;
            let mut b: usize = 0;
            while b < 48
                invariant
                    b <= 48,
                    day.len() == 48,
                    c < 256,
                    of_levels.len() == 48 * c + b,
                    of_levels@.take(48 * c) == before,
                    forall|k: int| 0 <= k < b ==> #[trigger] of_levels[48 * c + k] == day[k],
                decreases 48 - b,
            {
                of_levels.push(day[b]);
                proof {
                    assert(of_levels@.take(48 * c) =~= before);
                }
                b = b + 1;
            }
            proof {
                let fresh = counts(of_levels@).subrange(c * 48, c * 48 + 48);
                assert forall|m: int| 0 <= m < 48 implies #[trigger] fresh[m] == counts(day@)[m] by {
                    assert(of_levels[48 * c + m] == day[m]);
                }
                assert(fresh =~= counts(day@));
                assert forall|k: int| 0 <= k < c implies is_apportionment(
                    #[trigger] counts(of_levels@).subrange(k * 48, k * 48 + 48),
                    trips::category_count(data.trips@, k),
                    weights_of(data.levels[k]@),
                ) by {
                    let now = counts(of_levels@).subrange(k * 48, k * 48 + 48);
                    let then = counts(before).subrange(k * 48, k * 48 + 48);
                    assert forall|m: int| 0 <= m < 48 implies #[trigger] now[m] == then[m] by {
                        assert(of_levels@[k * 48 + m] == of_levels@.take(48 * c)[k * 48 + m]);
                    }
                    assert(now =~= then);
                }
            }
            c = c + 1;
        }
        let total = table_total(&data.trips);
        let shares = mode_shares(&data.modes);
        proof {
            let m = choose|m: int| 0 <= m < data.modes.len() && (#[trigger] data.modes[m]).share > 0;
            assert(shares[m] > 0);
        }
        let of_modes = sum_safe_round(total, &shares);
        let ledger = Capacities { of_trips, of_levels, of_modes };
        proof {
            assert(ledger@.trips =~= trip_counts(data.trips@));
        }
        ledger
    }

    /// The number of trip records that the ledger has capacities for.
    pub fn trip_count(&self) -> (n: usize)
        ensures
            n == self@.trips.len(),
    {
        self.of_trips.len()
    }

    /// The number of categories that the ledger has levels for.
    pub fn category_count(&self) -> (n: usize)
        ensures
            n == self@.categories(),
            n * 48 <= usize::MAX,
    {
        self.of_levels.len() / 48
    }

    /// The number of modes that the ledger has capacities for.
    pub fn mode_count(&self) -> (n: usize)
        ensures
            n == self@.modes.len(),
    {
        self.of_modes.len()
    }

    /// Pays what the usages ask of the trip records, the level slots and
    /// the modes, if the ledger has that much of each; else it changes
    /// nothing. A usage holds for a key the amount that is asked of it; the
    /// key of a level slot is 48 times the category plus the time bin.
    pub fn try_commit(
        &mut self,
        trips: &HashMap<usize, Count>,
        levels: &HashMap<usize, Count>,
        modes: &HashMap<usize, Count>,
    ) -> (paid: bool)
        ensures
            paid == old(self)@.affords(trips@, levels@, modes@),
            paid ==> final(self)@ == old(self)@.debited(trips@, levels@, modes@),
            !paid ==> final(self)@ == old(self)@,
    {
        let slots = 48 * (self.of_levels.len() / 48);
        if !pool_check(&self.of_trips, self.of_trips.len(), trips) {
            return false;
        }
        if !pool_check(&self.of_levels, slots, levels) {
            return false;
        }
        if !pool_check(&self.of_modes, self.of_modes.len(), modes) {
            return false;
        }
        let limit = self.of_trips.len();
        pool_debit(&mut self.of_trips, limit, trips);
        pool_debit(&mut self.of_levels, slots, levels);
        let limit = self.of_modes.len();
        pool_debit(&mut self.of_modes, limit, modes);
        true
    }

    /// Remaining capacity of a trip record.
    pub fn get_trip(&self, trip: usize) -> (remaining: Count)
        requires
            trip < self@.trips.len(),
        ensures
            remaining == self@.trips[trip as int],
    {
        self.of_trips[trip]
    }

    /// Remaining capacity of a category in a time bin.
    pub fn get_level(&self, category: usize, time_bin: TimeBin) -> (remaining: Count)
        requires
            category < self@.categories(),
        ensures
            remaining == self@.level(category as int, time_bin@ as int),
    {
        proof {
            assert(self@.levels.len() == self.of_levels.len());
        }
        self.of_levels[category * 48 + time_bin.value()]
    }

    /// Remaining capacity of a mode.
    pub fn get_mode(&self, mode: usize) -> (remaining: Count)
        requires
            mode < self@.modes.len(),
        ensures
            remaining == self@.modes[mode as int],
    {
        self.of_modes[mode]
    }

    /// Takes `count` from the capacity of a trip record.
    pub fn reduce_trip(&mut self, trip: usize, count: Count)
        requires
            trip < old(self)@.trips.len(),
            count <= old(self)@.trips[trip as int],
        ensures
            final(self)@ == (Ledger {
                trips: old(self)@.trips.update(
                    trip as int,
                    (old(self)@.trips[trip as int] - count) as nat,
                ),
                ..old(self)@
            }),
    {
        let remaining = self.of_trips[trip];
        self.of_trips.set(trip, remaining - count);
        proof {
            assert(final(self)@.trips =~= old(self)@.trips.update(
                trip as int,
                (old(self)@.trips[trip as int] - count) as nat,
            ));
        }
    }

    /// Takes `count` from the capacity of a category in a time bin.
    pub fn reduce_level(&mut self, category: usize, time_bin: TimeBin, count: Count)
        requires
            category < old(self)@.categories(),
            count <= old(self)@.level(category as int, time_bin@ as int),
        ensures
            final(self)@ == (Ledger {
                levels: old(self)@.levels.update(
                    category * 48 + time_bin@,
                    (old(self)@.level(category as int, time_bin@ as int) - count) as nat,
                ),
                ..old(self)@
            }),
    {
        proof {
            assert(self@.levels.len() == self.of_levels.len());
        }
        let slot = category * 48 + time_bin.value();
        let remaining = self.of_levels[slot];
        self.of_levels.set(slot, remaining - count);
        proof {
            assert(final(self)@.levels =~= old(self)@.levels.update(
                category * 48 + time_bin@,
                (old(self)@.level(category as int, time_bin@ as int) - count) as nat,
            ));
        }
    }

    /// Takes `count` from the capacity of a mode.
    pub fn reduce_mode(&mut self, mode: usize, count: Count)
        requires
            mode < old(self)@.modes.len(),
            count <= old(self)@.modes[mode as int],
        ensures
            final(self)@ == (Ledger {
                modes: old(self)@.modes.update(
                    mode as int,
                    (old(self)@.modes[mode as int] - count) as nat,
                ),
                ..old(self)@
            }),
    {
        let remaining = self.of_modes[mode];
        self.of_modes.set(mode, remaining - count);
        proof {
            assert(final(self)@.modes =~= old(self)@.modes.update(
                mode as int,
                (old(self)@.modes[mode as int] - count) as nat,
            ));
        }
    }
}

proof fn categories_are_few(data: &ReferenceData)
    requires
        data.wf(),
    ensures
        data.categories.len() <= 256,
{
    crate::categories::lemma_table_is_small(data.categories@);
}

} // verus!
