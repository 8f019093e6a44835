use std::collections::HashMap;

use plan_synth::apportion::sum_safe_round;
use plan_synth::capacities::Capacities;
use plan_synth::categories::CategoryRow;
use plan_synth::districts::DistrictRow;
use plan_synth::modes::{modes, Mode};
use plan_synth::purposes::Purpose;
use plan_synth::reference::ReferenceData;
use plan_synth::time_bins::TimeBin;
use plan_synth::trips::{Transport, TripRow};

fn bin(value: u8) -> TimeBin {
    TimeBin::new(value).unwrap()
}

fn commuters() -> ReferenceData {
    let districts = vec![
        DistrictRow { id: 10, info: "A".to_string() },
        DistrictRow { id: 20, info: "B".to_string() },
    ];
    let categories = vec![
        CategoryRow { id: 1, origin: Purpose::Home, destination: Purpose::Work },
        CategoryRow { id: 2, origin: Purpose::Work, destination: Purpose::Home },
    ];
    let trips = vec![
        TripRow { transport: Transport::Individual, category: 1, origin: 10, destination: 20, count: 7 },
        TripRow { transport: Transport::Public, category: 1, origin: 20, destination: 10, count: 3 },
        TripRow { transport: Transport::Individual, category: 2, origin: 20, destination: 10, count: 5 },
    ];
    let mut morning = vec![0u32; 48];
    morning[14] = 1;
    morning[15] = 2;
    morning[16] = 1;
    let mut evening = vec![0u32; 48];
    evening[32] = 1;
    evening[34] = 1;
    ReferenceData::load(&districts, &categories, &trips, &vec![morning, evening], modes()).unwrap()
}

#[test]
fn the_shortfall_goes_to_the_largest_rests() {
    assert_eq!(sum_safe_round(7, &vec![5, 3, 2]), vec![4, 2, 1]);
    assert_eq!(sum_safe_round(10, &vec![298, 110, 130, 336, 126]), vec![3, 1, 1, 4, 1]);
    assert_eq!(sum_safe_round(1000, &vec![298, 110, 130, 336, 126]), vec![298, 110, 130, 336, 126]);
    assert_eq!(sum_safe_round(1, &vec![1, 2, 3]), vec![0, 0, 1]);
}

#[test]
fn among_equal_rests_the_earlier_entry_is_served() {
    assert_eq!(sum_safe_round(10, &vec![1, 1, 1]), vec![4, 3, 3]);
    assert_eq!(sum_safe_round(11, &vec![1, 1, 1]), vec![4, 4, 3]);
    assert_eq!(sum_safe_round(1, &vec![0, 1, 1]), vec![0, 1, 0]);
}

#[test]
fn the_parts_add_up_and_stay_near_the_shares() {
    let weights: Vec<u32> = vec![3, 0, 17, 1, 1, 250, 4_000_000_000, 9];
    let sum: u128 = weights.iter().map(|w| *w as u128).sum();
    for total in [0usize, 1, 2, 47, 48, 1000, 123_456_789, usize::MAX] {
        let parts = sum_safe_round(total, &weights);
        assert_eq!(parts.len(), weights.len());
        assert_eq!(parts.iter().map(|p| *p as u128).sum::<u128>(), total as u128);
        for (part, weight) in parts.iter().zip(weights.iter()) {
            let scaled = *part as u128 * sum;
            let share = total as u128 * *weight as u128;
            assert!(scaled <= share + sum);
            assert!(share <= scaled + sum);
        }
    }
}

#[test]
fn nothing_is_apportioned_of_nothing() {
    assert_eq!(sum_safe_round(0, &vec![1, 2, 3]), vec![0, 0, 0]);
    assert_eq!(sum_safe_round(5, &vec![0, 4, 0]), vec![0, 5, 0]);
}

#[test]
fn the_ledger_starts_with_the_counts_and_their_shares() {
    let data = commuters();
    let ledger = Capacities::new(&data);
    assert_eq!(ledger.trip_count(), 3);
    assert_eq!(ledger.category_count(), 2);
    assert_eq!(ledger.mode_count(), 5);
    assert_eq!(ledger.get_trip(0), 7);
    assert_eq!(ledger.get_trip(1), 3);
    assert_eq!(ledger.get_trip(2), 5);
    assert_eq!(ledger.get_level(0, bin(14)), 3);
    assert_eq!(ledger.get_level(0, bin(15)), 5);
    assert_eq!(ledger.get_level(0, bin(16)), 2);
    assert_eq!(ledger.get_level(0, bin(17)), 0);
    assert_eq!(ledger.get_level(1, bin(32)), 3);
    assert_eq!(ledger.get_level(1, bin(34)), 2);
    let by_mode: Vec<usize> = (0..5).map(|mode| ledger.get_mode(mode)).collect();
    assert_eq!(by_mode, vec![4, 2, 2, 5, 2]);
    let mut day = 0;
    for value in 0..48 {
        day += ledger.get_level(0, bin(value));
    }
    assert_eq!(day, 10);
    assert_eq!(by_mode.iter().sum::<usize>(), 15);
}

#[test]
fn capacities_are_reduced_one_by_one() {
    let mut ledger = Capacities::new(&commuters());
    ledger.reduce_trip(1, 2);
    ledger.reduce_level(0, bin(15), 5);
    ledger.reduce_mode(4, 1);
    assert_eq!(ledger.get_trip(1), 1);
    assert_eq!(ledger.get_trip(0), 7);
    assert_eq!(ledger.get_level(0, bin(15)), 0);
    assert_eq!(ledger.get_level(0, bin(14)), 3);
    assert_eq!(ledger.get_level(1, bin(15)), 0);
    assert_eq!(ledger.get_mode(4), 1);
    assert_eq!(ledger.get_mode(3), 5);
}

fn usage(pairs: &[(usize, usize)]) -> HashMap<usize, usize> {
    pairs.iter().copied().collect()
}

#[test]
fn a_commit_is_all_or_nothing() {
    let mut ledger = Capacities::new(&commuters());
    let too_much_of_a_mode = ledger.try_commit(&usage(&[(0, 2)]), &usage(&[(15, 2)]), &usage(&[(4, 3)]));
    assert!(!too_much_of_a_mode);
    assert_eq!(ledger.get_trip(0), 7);
    assert_eq!(ledger.get_level(0, bin(15)), 5);
    assert_eq!(ledger.get_mode(4), 2);
    let paid = ledger.try_commit(
        &usage(&[(0, 2), (2, 1)]),
        &usage(&[(15, 2), (48 + 32, 1)]),
        &usage(&[(0, 3)]),
    );
    assert!(paid);
    assert_eq!(ledger.get_trip(0), 5);
    assert_eq!(ledger.get_trip(2), 4);
    assert_eq!(ledger.get_level(0, bin(15)), 3);
    assert_eq!(ledger.get_level(1, bin(32)), 2);
    assert_eq!(ledger.get_mode(0), 1);
    let nothing = usage(&[]);
    assert!(!ledger.try_commit(&usage(&[(3, 1)]), &nothing, &nothing));
    assert!(!ledger.try_commit(&nothing, &usage(&[(96, 1)]), &nothing));
    assert!(!ledger.try_commit(&nothing, &nothing, &usage(&[(5, 1)])));
    assert!(!ledger.try_commit(&usage(&[(0, 5), (1, 4)]), &nothing, &nothing));
    assert!(ledger.try_commit(&usage(&[(3, 0)]), &nothing, &nothing));
    assert!(ledger.try_commit(&nothing, &nothing, &nothing));
    assert_eq!(ledger.get_trip(0), 5);
    assert_eq!(ledger.get_trip(1), 3);
    assert!(ledger.try_commit(&usage(&[(0, 5), (1, 3), (2, 4)]), &nothing, &nothing));
    assert_eq!((ledger.get_trip(0), ledger.get_trip(1), ledger.get_trip(2)), (0, 0, 0));
}

#[test]
fn one_mode_takes_all_trips() {
    let districts = vec![DistrictRow { id: 1, info: "A".to_string() }];
    let categories = vec![CategoryRow { id: 1, origin: Purpose::Home, destination: Purpose::Leisure }];
    let trips =
        vec![TripRow { transport: Transport::Individual, category: 1, origin: 1, destination: 1, count: 9 }];
    let mut curve = vec![0u32; 48];
    curve[47] = 5;
    let only = vec![Mode { index: 0, name: "Bike", share: 110, transport: Transport::Individual }];
    let data = ReferenceData::load(&districts, &categories, &trips, &vec![curve], only).unwrap();
    let ledger = Capacities::new(&data);
    assert_eq!(ledger.get_mode(0), 9);
    assert_eq!(ledger.get_level(0, bin(47)), 9);
    assert_eq!(ledger.get_level(0, bin(0)), 0);
}
