use plan_synth::capacities::Capacities;
use plan_synth::categories::CategoryRow;
use plan_synth::districts::DistrictRow;
use plan_synth::extraction::{extract, extract_all};
use plan_synth::filters::{FilterParams, PotentialPath};
use plan_synth::graph::{Edge, Node, StateGraph};
use plan_synth::modes::{modes, Mode};
use plan_synth::purposes::Purpose;
use plan_synth::reference::ReferenceData;
use plan_synth::search::{chunk_size, execute, search, Search, NUMBER_OF_CHUNKS};
use plan_synth::time_bins::TimeBin;
use plan_synth::trips::{Transport, TripRow};
use rayon::iter::{IntoParallelRefIterator, ParallelIterator};

fn bin(value: u8) -> TimeBin {
    TimeBin::new(value).unwrap()
}

fn one_way() -> ReferenceData {
    let districts = vec![
        DistrictRow { id: 10, info: "A".to_string() },
        DistrictRow { id: 20, info: "B".to_string() },
    ];
    let categories = vec![CategoryRow { id: 1, origin: Purpose::Home, destination: Purpose::Work }];
    let trips =
        vec![TripRow { transport: Transport::Individual, category: 1, origin: 10, destination: 20, count: 3 }];
    let mut curve = vec![0u32; 48];
    curve[0] = 1;
    let only = vec![Mode { index: 0, name: "Feet", share: 1, transport: Transport::Individual }];
    ReferenceData::load(&districts, &categories, &trips, &vec![curve], only).unwrap()
}

fn town() -> ReferenceData {
    let districts = (1..=4).map(|id| DistrictRow { id, info: id.to_string() }).collect();
    let categories = vec![
        CategoryRow { id: 1, origin: Purpose::Home, destination: Purpose::Work },
        CategoryRow { id: 2, origin: Purpose::Work, destination: Purpose::Home },
        CategoryRow { id: 3, origin: Purpose::Work, destination: Purpose::Shopping },
        CategoryRow { id: 4, origin: Purpose::Shopping, destination: Purpose::Home },
        CategoryRow { id: 5, origin: Purpose::Home, destination: Purpose::Leisure },
        CategoryRow { id: 6, origin: Purpose::Leisure, destination: Purpose::Home },
    ];
    let mut trips = Vec::new();
    for category in 1..=6u8 {
        for origin in 1..=4u16 {
            for destination in 1..=4u16 {
                let count = (category as usize * 7 + origin as usize * 3 + destination as usize) % 5;
                trips.push(TripRow {
                    transport: Transport::Individual,
                    category,
                    origin,
                    destination,
                    count,
                });
            }
        }
    }
    let curves = (0..6u32)
        .map(|category| (0..48u32).map(|bin| (bin * 5 + category * 11) % 7).collect())
        .collect();
    ReferenceData::load(&districts, &categories, &trips, &curves, modes()).unwrap()
}

fn round_trips() -> FilterParams {
    FilterParams { length_range: (2, 3), first_activity: &[Purpose::Home], duration_min: 20, cycle: true }
}

fn used(plans: &Vec<Vec<(Node, Edge)>>, trips: usize, categories: usize, modes: usize) -> Readings {
    let mut uses = Readings {
        trips: vec![0; trips],
        levels: vec![0; categories * 48],
        modes: vec![0; modes],
    };
    for plan in plans {
        for (node, edge) in plan {
            uses.trips[edge.trip] += 1;
            uses.levels[edge.category * 48 + node.time_bin.value()] += 1;
            uses.modes[edge.mode] += 1;
        }
    }
    uses
}

struct Readings {
    trips: Vec<usize>,
    levels: Vec<usize>,
    modes: Vec<usize>,
}

fn readings(ledger: &Capacities) -> Readings {
    Readings {
        trips: (0..ledger.trip_count()).map(|trip| ledger.get_trip(trip)).collect(),
        levels: (0..ledger.category_count() * 48)
            .map(|slot| ledger.get_level(slot / 48, bin((slot % 48) as u8)))
            .collect(),
        modes: (0..ledger.mode_count()).map(|mode| ledger.get_mode(mode)).collect(),
    }
}

fn assert_conserved(start: &Readings, end: &Readings, uses: &Readings) {
    for (pool, (left, spent)) in [
        (&start.trips, (&end.trips, &uses.trips)),
        (&start.levels, (&end.levels, &uses.levels)),
        (&start.modes, (&end.modes, &uses.modes)),
    ] {
        assert_eq!(pool.len(), left.len());
        for key in 0..pool.len() {
            assert_eq!(pool[key], left[key] + spent[key]);
            assert!(left[key] <= pool[key]);
            assert!(spent[key] <= pool[key]);
        }
    }
}

fn assert_admissible(plan: &Vec<(Node, Edge)>, data: &ReferenceData, params: &FilterParams) {
    assert!(plan.len() >= params.length_range.0 && plan.len() <= params.length_range.1);
    assert!(params.first_activity.contains(&plan[0].0.purpose));
    let mut duration = 0;
    for (step, (node, edge)) in plan.iter().enumerate() {
        let category = &data.categories[edge.category];
        assert_eq!(data.trips[edge.trip].category, edge.category);
        assert_eq!(node.purpose, category.origin);
        assert_eq!(node.district_id, data.districts[data.trips[edge.trip].origin].id);
        let arrival = node.time_bin + category.origin.duration();
        duration += (arrival - node.time_bin) as usize;
        if step + 1 < plan.len() {
            let next = &plan[step + 1].0;
            assert_eq!(next.time_bin, arrival);
            assert_eq!(next.purpose, category.destination);
            assert_eq!(next.district_id, data.districts[data.trips[edge.trip].destination].id);
        } else if params.cycle {
            assert_eq!(category.destination, plan[0].0.purpose);
        }
        for (earlier, _) in plan.iter().take(step) {
            assert_ne!(earlier.purpose, node.purpose);
        }
    }
    assert!(duration <= 48);
    assert!(duration >= params.duration_min as usize);
}

#[test]
fn one_trip_of_three_is_planned_three_times() {
    let data = one_way();
    let params = FilterParams {
        length_range: (1, 1),
        first_activity: &[Purpose::Home],
        duration_min: 16,
        cycle: false,
    };
    let mut run = Search::new(&data);
    assert_eq!(run.capacities().get_trip(0), 3);
    assert_eq!(run.capacities().get_level(0, bin(0)), 3);
    assert_eq!(run.capacities().get_mode(0), 3);
    run.run(&vec![params], NUMBER_OF_CHUNKS);
    assert_eq!(run.plans().len(), 3);
    for plan in run.plans() {
        assert_eq!(plan.len(), 1);
        let (start, edge) = plan[0];
        assert_eq!(start.district_id.value(), 10);
        assert_eq!(start.purpose, Purpose::Home);
        assert_eq!(start.time_bin.value(), 0);
        assert_eq!(edge, Edge { trip: 0, category: 0, mode: 0 });
        let arrival = start.time_bin + Purpose::Home.duration();
        assert_eq!(arrival.value(), 16);
    }
    assert_eq!(run.capacities().get_trip(0), 0);
    assert_eq!(run.capacities().get_level(0, bin(0)), 0);
    assert_eq!(run.capacities().get_mode(0), 0);
    assert_eq!(run.graph().edge_count(), 0);
    assert_eq!(run.graph().node_count(), 96);
    assert_eq!(search(&data, &vec![params], NUMBER_OF_CHUNKS), run.into_plans());
}

#[test]
fn a_plan_of_two_trips_needs_a_way_on() {
    let data = one_way();
    let params = FilterParams {
        length_range: (2, 2),
        first_activity: &[Purpose::Home],
        duration_min: 16,
        cycle: false,
    };
    let mut run = Search::new(&data);
    run.run(&vec![params], NUMBER_OF_CHUNKS);
    assert!(run.plans().is_empty());
    assert_eq!(run.capacities().get_trip(0), 3);
    assert_eq!(run.graph().edge_count(), 48);
}

#[test]
fn a_search_counts_its_moves() {
    let data = one_way();
    let graph = StateGraph::new(&data);
    let ledger = Capacities::new(&data);
    let params = FilterParams {
        length_range: (1, 1),
        first_activity: &[Purpose::Home],
        duration_min: 16,
        cycle: false,
    };
    let (found, steps) = execute(&graph, 0, &ledger, &params);
    assert_eq!(found.len(), 1);
    assert_eq!(steps, 4);
    let (found, steps) = execute(&graph, 2, &ledger, &params);
    assert!(found.is_empty());
    assert_eq!(steps, 3);
    let (found, steps) = execute(&graph, 1, &ledger, &params);
    assert!(found.is_empty());
    assert_eq!(steps, 0);
    let anywhere = FilterParams {
        length_range: (1, 1),
        first_activity: &[Purpose::Home, Purpose::Work],
        duration_min: 16,
        cycle: false,
    };
    let (found, steps) = execute(&graph, 1, &ledger, &anywhere);
    assert!(found.is_empty());
    assert_eq!(steps, 2);
}

#[test]
fn candidates_come_in_the_order_of_the_walk() {
    let districts = vec![DistrictRow { id: 1, info: "A".to_string() }];
    let categories = vec![
        CategoryRow { id: 1, origin: Purpose::Home, destination: Purpose::Work },
        CategoryRow { id: 2, origin: Purpose::Work, destination: Purpose::Home },
    ];
    let trips = vec![
        TripRow { transport: Transport::Individual, category: 1, origin: 1, destination: 1, count: 48 },
        TripRow { transport: Transport::Individual, category: 2, origin: 1, destination: 1, count: 48 },
    ];
    let two = vec![
        Mode { index: 0, name: "Feet", share: 1, transport: Transport::Individual },
        Mode { index: 1, name: "Bike", share: 1, transport: Transport::Individual },
    ];
    let data =
        ReferenceData::load(&districts, &categories, &trips, &vec![vec![1u32; 48], vec![1u32; 48]], two)
            .unwrap();
    let graph = StateGraph::new(&data);
    let ledger = Capacities::new(&data);
    let params = FilterParams {
        length_range: (1, 2),
        first_activity: &[Purpose::Home],
        duration_min: 0,
        cycle: false,
    };
    let (found, steps) = execute(&graph, 0, &ledger, &params);
    let modes: Vec<Vec<usize>> =
        found.iter().map(|path| path.plan().iter().map(|(_, edge)| edge.mode).collect()).collect();
    assert_eq!(modes, vec![vec![1], vec![1, 1], vec![1, 0], vec![0], vec![0, 1], vec![0, 0]]);
    assert_eq!(steps, 2 + 14 + 6);
}

#[test]
fn chunks_divide_the_start_nodes() {
    assert_eq!(chunk_size(0, 100), 0);
    assert_eq!(chunk_size(1, 100), 1);
    assert_eq!(chunk_size(100, 100), 1);
    assert_eq!(chunk_size(101, 100), 2);
    assert_eq!(chunk_size(250, 100), 3);
    assert_eq!(chunk_size(7, 1), 7);
    assert_eq!(chunk_size(7, 0), 7);
    assert_eq!(chunk_size(usize::MAX, 2), usize::MAX / 2 + 1);
}

#[test]
fn start_nodes_have_an_allowed_purpose() {
    let data = town();
    let run = Search::new(&data);
    let roots = run.start_nodes(&round_trips());
    assert!(!roots.is_empty());
    let mut expected = Vec::new();
    for index in run.graph().node_indices() {
        if run.graph().node(index).purpose == Purpose::Home {
            expected.push(index);
        }
    }
    assert_eq!(roots, expected);
}

#[test]
fn a_candidate_is_committed_as_often_as_it_can_be_paid() {
    let data = one_way();
    let mut ledger = Capacities::new(&data);
    ledger.reduce_mode(0, 1);
    let start = Node { district_id: data.districts[0].id, purpose: Purpose::Home, time_bin: bin(0) };
    let end = Node { district_id: data.districts[1].id, purpose: Purpose::Work, time_bin: bin(16) };
    let path = PotentialPath::new(vec![start, end], vec![Edge { trip: 0, category: 0, mode: 0 }]).unwrap();
    let mut plans = Vec::new();
    extract(&path, &mut ledger, &mut plans);
    assert_eq!(plans.len(), 2);
    assert_eq!(ledger.get_trip(0), 1);
    assert_eq!(ledger.get_mode(0), 0);
    extract_all(&vec![path], &mut ledger, &mut plans);
    assert_eq!(plans.len(), 2);
}

#[test]
fn every_plan_is_admissible_and_paid_for() {
    let data = town();
    let params = round_trips();
    let mut run = Search::new(&data);
    let start = readings(run.capacities());
    run.run(&vec![params], NUMBER_OF_CHUNKS);
    assert!(!run.plans().is_empty());
    for plan in run.plans() {
        assert_admissible(plan, &data, &params);
    }
    let uses = used(run.plans(), data.trips.len(), data.categories.len(), data.modes.len());
    assert_conserved(&start, &readings(run.capacities()), &uses);
}

#[test]
fn the_ledger_is_never_oversubscribed_whatever_the_chunks() {
    let data = town();
    let params = round_trips();
    for chunk_count in [0, 1, 2, 7, NUMBER_OF_CHUNKS, 100_000] {
        let mut run = Search::new(&data);
        let start = readings(run.capacities());
        run.run(&vec![params, params], chunk_count);
        let uses = used(run.plans(), data.trips.len(), data.categories.len(), data.modes.len());
        assert_conserved(&start, &readings(run.capacities()), &uses);
        for plan in run.plans() {
            assert_admissible(plan, &data, &params);
        }
    }
}

#[test]
fn many_workers_find_what_one_worker_finds() {
    let data = town();
    let params = round_trips();
    let mut alone = Search::new(&data);
    alone.run_stage(&params, 4);
    let mut together = Search::new(&data);
    let start = readings(together.capacities());
    let roots = together.start_nodes(&params);
    let size = chunk_size(roots.len(), 4);
    for chunk in roots.chunks(size) {
        let (found, steps) = chunk
            .par_iter()
            .map(|root| execute(together.graph(), *root, together.capacities(), &params))
            .reduce(
                || (Vec::new(), 0u64),
                |(mut all, sum), (mut found, steps)| {
                    all.append(&mut found);
                    (all, sum + steps)
                },
            );
        together.commit(&found, steps);
    }
    assert_eq!(together.plans(), alone.plans());
    assert_eq!(together.total_steps(), alone.total_steps());
    let uses = used(together.plans(), data.trips.len(), data.categories.len(), data.modes.len());
    assert_conserved(&start, &readings(together.capacities()), &uses);
}

#[test]
fn candidates_committed_in_any_order_never_oversubscribe() {
    let data = town();
    let params = round_trips();
    let mut run = Search::new(&data);
    let start = readings(run.capacities());
    let roots = run.start_nodes(&params);
    let mut found = Vec::new();
    for root in roots.iter().rev() {
        let (mut paths, _) = execute(run.graph(), *root, run.capacities(), &params);
        paths.reverse();
        found.append(&mut paths);
    }
    run.commit(&found, 0);
    let uses = used(run.plans(), data.trips.len(), data.categories.len(), data.modes.len());
    assert_conserved(&start, &readings(run.capacities()), &uses);
    assert!(!run.plans().is_empty());
}

#[test]
fn pruning_changes_no_plan() {
    let data = town();
    let params = round_trips();
    let mut pruned = Search::new(&data);
    pruned.run_stage(&params, 8);
    let whole = StateGraph::new(&data);
    let mut ledger = Capacities::new(&data);
    let mut plans = Vec::new();
    let roots = pruned.start_nodes(&params);
    let size = chunk_size(roots.len(), 8);
    for chunk in roots.chunks(size) {
        let mut found = Vec::new();
        for root in chunk {
            let (mut paths, _) = execute(&whole, *root, &ledger, &params);
            found.append(&mut paths);
        }
        extract_all(&found, &mut ledger, &mut plans);
    }
    assert!(pruned.graph().edge_count() < whole.edge_count());
    assert_eq!(pruned.plans(), &plans);
}
