use plan_synth::capacities::Capacities;
use plan_synth::categories::CategoryRow;
use plan_synth::districts::{DistrictRow, Id};
use plan_synth::filters::{Filter, FilterParams, PotentialPath};
use plan_synth::graph::{Edge, Node};
use plan_synth::modes::Mode;
use plan_synth::purposes::Purpose;
use plan_synth::reference::ReferenceData;
use plan_synth::time_bins::TimeBin;
use plan_synth::trips::{Transport, TripRow};

fn ledger(count: usize) -> Capacities {
    let districts = vec![
        DistrictRow { id: 10, info: "A".to_string() },
        DistrictRow { id: 20, info: "B".to_string() },
    ];
    let categories = vec![
        CategoryRow { id: 1, origin: Purpose::Home, destination: Purpose::Work },
        CategoryRow { id: 2, origin: Purpose::Work, destination: Purpose::Home },
    ];
    let trips = vec![
        TripRow { transport: Transport::Individual, category: 1, origin: 10, destination: 20, count: 48 * count },
        TripRow { transport: Transport::Individual, category: 2, origin: 20, destination: 10, count: 48 * count },
    ];
    let modes = vec![
        Mode { index: 0, name: "Feet", share: 1, transport: Transport::Individual },
        Mode { index: 1, name: "Bike", share: 1, transport: Transport::Individual },
    ];
    let data =
        ReferenceData::load(&districts, &categories, &trips, &vec![vec![1u32; 48], vec![1u32; 48]], modes)
            .unwrap();
    Capacities::new(&data)
}

fn state(purpose: Purpose, bin: u8) -> Node {
    Node { district_id: Id(10), purpose, time_bin: TimeBin::new(bin).unwrap() }
}

fn params(min: usize, max: usize, duration_min: u8, cycle: bool) -> FilterParams {
    FilterParams {
        length_range: (min, max),
        first_activity: &[Purpose::Home, Purpose::Work],
        duration_min,
        cycle,
    }
}

const OUT: Edge = Edge { trip: 0, category: 0, mode: 0 };
const BACK: Edge = Edge { trip: 1, category: 1, mode: 1 };

#[test]
fn a_plan_starts_with_an_allowed_purpose() {
    let ledger = ledger(2);
    assert!(Filter::new(params(1, 6, 0, false), state(Purpose::Home, 0), &ledger).is_ok());
    assert!(Filter::new(params(1, 6, 0, false), state(Purpose::Work, 0), &ledger).is_ok());
    assert!(Filter::new(params(1, 6, 0, false), state(Purpose::Leisure, 0), &ledger).is_err());
    let nowhere = FilterParams { length_range: (1, 6), first_activity: &[], duration_min: 0, cycle: false };
    assert!(Filter::new(nowhere, state(Purpose::Home, 0), &ledger).is_err());
}

#[test]
fn a_path_of_three_edges_is_rejected_where_two_are_the_most() {
    let ledger = ledger(2);
    let mut filter = Filter::new(params(1, 2, 0, false), state(Purpose::Home, 0), &ledger).unwrap();
    assert!(matches!(filter.to_child(&state(Purpose::Work, 1), &OUT), Ok(Some(_))));
    assert!(matches!(filter.to_child(&state(Purpose::Leisure, 2), &BACK), Ok(Some(_))));
    assert_eq!(filter.depth(), 2);
    assert!(filter.to_child(&state(Purpose::Shopping, 3), &OUT).is_err());
    assert_eq!(filter.depth(), 3);
}

#[test]
fn a_path_of_one_edge_is_pending_where_two_are_the_least() {
    let ledger = ledger(2);
    let mut filter = Filter::new(params(2, 6, 0, false), state(Purpose::Home, 0), &ledger).unwrap();
    assert!(matches!(filter.to_child(&state(Purpose::Work, 1), &OUT), Ok(None)));
    assert!(matches!(filter.to_child(&state(Purpose::Leisure, 2), &BACK), Ok(Some(_))));
}

#[test]
fn a_path_of_more_than_a_day_is_rejected() {
    let ledger = ledger(2);
    let mut filter = Filter::new(params(1, 6, 0, false), state(Purpose::Home, 5), &ledger).unwrap();
    assert!(matches!(filter.to_child(&state(Purpose::Work, 5), &OUT), Ok(Some(_))));
    assert!(filter.to_child(&state(Purpose::Leisure, 6), &BACK).is_err());
    filter.to_parent();
    filter.to_parent();
    assert!(matches!(filter.to_child(&state(Purpose::Work, 4), &OUT), Ok(Some(_))));
    assert!(matches!(filter.to_child(&state(Purpose::Leisure, 5), &BACK), Ok(Some(_))));
    assert!(filter.to_child(&state(Purpose::Shopping, 6), &OUT).is_err());
}

#[test]
fn a_path_shorter_than_the_least_duration_is_pending() {
    let ledger = ledger(2);
    let mut filter = Filter::new(params(1, 6, 40, false), state(Purpose::Home, 0), &ledger).unwrap();
    assert!(matches!(filter.to_child(&state(Purpose::Work, 16), &OUT), Ok(None)));
    assert!(matches!(filter.to_child(&state(Purpose::Leisure, 39), &BACK), Ok(None)));
    filter.to_parent();
    assert!(matches!(filter.to_child(&state(Purpose::Leisure, 40), &BACK), Ok(Some(_))));
    let mut never = Filter::new(params(1, 6, 49, false), state(Purpose::Home, 0), &ledger).unwrap();
    assert!(matches!(never.to_child(&state(Purpose::Work, 0), &OUT), Ok(None)));
}

#[test]
fn an_open_cycle_is_pending_until_it_closes() {
    let ledger = ledger(2);
    let mut filter = Filter::new(params(1, 6, 0, true), state(Purpose::Home, 0), &ledger).unwrap();
    assert!(matches!(filter.to_child(&state(Purpose::Work, 16), &OUT), Ok(None)));
    assert!(matches!(filter.to_child(&state(Purpose::Leisure, 20), &BACK), Ok(None)));
    let closed = filter.to_child(&state(Purpose::Home, 24), &OUT).unwrap().unwrap();
    assert_eq!(closed.len(), 3);
    let mut free = Filter::new(params(1, 6, 0, false), state(Purpose::Home, 0), &ledger).unwrap();
    assert!(matches!(free.to_child(&state(Purpose::Work, 16), &OUT), Ok(Some(_))));
}

#[test]
fn a_purpose_is_not_left_twice() {
    let ledger = ledger(2);
    let mut filter = Filter::new(params(1, 6, 0, false), state(Purpose::Home, 0), &ledger).unwrap();
    assert!(matches!(filter.to_child(&state(Purpose::Work, 1), &OUT), Ok(Some(_))));
    assert!(matches!(filter.to_child(&state(Purpose::Home, 2), &BACK), Ok(Some(_))));
    assert!(filter.to_child(&state(Purpose::Leisure, 3), &OUT).is_err());
    filter.to_parent();
    filter.to_parent();
    assert!(matches!(filter.to_child(&state(Purpose::Work, 2), &BACK), Ok(Some(_))));
    assert!(filter.to_child(&state(Purpose::Leisure, 3), &OUT).is_err());
}

#[test]
fn a_path_uses_no_more_than_the_ledger_has() {
    let mut ledger = ledger(2);
    ledger.reduce_trip(0, 95);
    ledger.reduce_level(1, TimeBin::new(1).unwrap(), 2);
    ledger.reduce_mode(1, 95);
    let mut filter = Filter::new(params(1, 6, 0, false), state(Purpose::Home, 0), &ledger).unwrap();
    assert!(matches!(filter.to_child(&state(Purpose::Work, 1), &OUT), Ok(Some(_))));
    assert!(filter.to_child(&state(Purpose::Leisure, 2), &OUT).is_err());
    filter.to_parent();
    assert!(filter.to_child(&state(Purpose::Leisure, 2), &BACK).is_err());
    filter.to_parent();
    assert!(
        filter.to_child(&state(Purpose::Leisure, 2), &Edge { trip: 1, category: 1, mode: 0 }).is_err()
    );
    filter.to_parent();
    filter.to_parent();
    assert!(matches!(filter.to_child(&state(Purpose::Work, 2), &BACK), Ok(Some(_))));
    assert!(filter.to_child(&state(Purpose::Leisure, 3), &Edge { trip: 1, category: 0, mode: 1 }).is_err());
    filter.to_parent();
    assert!(filter.to_child(&state(Purpose::Leisure, 3), &Edge { trip: 2, category: 0, mode: 0 }).is_err());
    filter.to_parent();
    assert!(filter.to_child(&state(Purpose::Leisure, 3), &Edge { trip: 1, category: 2, mode: 0 }).is_err());
    filter.to_parent();
    assert!(filter.to_child(&state(Purpose::Leisure, 3), &Edge { trip: 1, category: 0, mode: 2 }).is_err());
}

#[test]
fn a_candidate_holds_the_path_as_it_stood() {
    let ledger = ledger(2);
    let mut filter = Filter::new(params(1, 6, 0, false), state(Purpose::Home, 0), &ledger).unwrap();
    let first = filter.to_child(&state(Purpose::Work, 16), &OUT).unwrap().unwrap();
    let second = filter.to_child(&state(Purpose::Leisure, 20), &BACK).unwrap().unwrap();
    assert_eq!(first.plan(), vec![(state(Purpose::Home, 0), OUT)]);
    assert_eq!(
        second.plan(),
        vec![(state(Purpose::Home, 0), OUT), (state(Purpose::Work, 16), BACK)]
    );
}

#[test]
fn a_path_needs_an_edge_and_a_state_at_each_end() {
    assert!(PotentialPath::new(vec![state(Purpose::Home, 0)], Vec::new()).is_none());
    assert!(PotentialPath::new(vec![state(Purpose::Home, 0)], vec![OUT]).is_none());
    assert!(PotentialPath::new(Vec::new(), Vec::new()).is_none());
    let path =
        PotentialPath::new(vec![state(Purpose::Home, 0), state(Purpose::Work, 16)], vec![OUT]).unwrap();
    assert_eq!(path.len(), 1);
}

#[test]
fn a_path_is_committed_whole_or_not_at_all() {
    let mut ledger = ledger(1);
    ledger.reduce_trip(0, 45);
    let twice = PotentialPath::new(
        vec![state(Purpose::Home, 0), state(Purpose::Work, 16), state(Purpose::Leisure, 16)],
        vec![OUT, Edge { trip: 0, category: 1, mode: 0 }],
    )
    .unwrap();
    let mut plans = Vec::new();
    assert!(twice.try_extracting(&mut ledger, &mut plans).is_ok());
    assert_eq!(plans.len(), 1);
    assert_eq!(plans[0], twice.plan());
    assert_eq!(ledger.get_trip(0), 1);
    assert_eq!(ledger.get_level(0, TimeBin::new(0).unwrap()), 0);
    assert_eq!(ledger.get_level(1, TimeBin::new(16).unwrap()), 0);
    assert_eq!(ledger.get_mode(0), 46);
    assert!(twice.try_extracting(&mut ledger, &mut plans).is_err());
    assert_eq!(plans.len(), 1);
    assert_eq!(ledger.get_trip(0), 1);
    assert_eq!(ledger.get_mode(0), 46);
}

#[test]
fn a_path_that_uses_what_the_ledger_lacks_is_not_committed() {
    let mut ledger = ledger(2);
    let mut plans = Vec::new();
    for edge in [
        Edge { trip: 9, category: 0, mode: 0 },
        Edge { trip: 0, category: 9, mode: 0 },
        Edge { trip: 0, category: 0, mode: 9 },
        Edge { trip: 0, category: usize::MAX, mode: 0 },
    ] {
        let path =
            PotentialPath::new(vec![state(Purpose::Home, 0), state(Purpose::Work, 16)], vec![edge])
                .unwrap();
        assert!(path.try_extracting(&mut ledger, &mut plans).is_err());
    }
    assert!(plans.is_empty());
    assert_eq!(ledger.get_trip(0), 96);
    assert_eq!(ledger.get_mode(0), 96);
    assert_eq!(ledger.get_level(0, TimeBin::new(0).unwrap()), 2);
}
