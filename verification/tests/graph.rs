use plan_synth::capacities::Capacities;
use plan_synth::categories::CategoryRow;
use plan_synth::districts::DistrictRow;
use plan_synth::graph::{edge_is_live, Edge, Node, StateGraph};
use plan_synth::modes::Mode;
use plan_synth::purposes::Purpose;
use plan_synth::reference::ReferenceData;
use plan_synth::time_bins::TimeBin;
use plan_synth::trips::{Transport, TripRow};

fn data_with(mode_count: usize, trips: Vec<TripRow>) -> ReferenceData {
    let districts = vec![
        DistrictRow { id: 10, info: "A".to_string() },
        DistrictRow { id: 20, info: "B".to_string() },
    ];
    let categories = vec![
        CategoryRow { id: 1, origin: Purpose::Home, destination: Purpose::Work },
        CategoryRow { id: 2, origin: Purpose::Work, destination: Purpose::Home },
    ];
    let mut morning = vec![0u32; 48];
    morning[0] = 1;
    let mut evening = vec![0u32; 48];
    evening[16] = 1;
    let modes = (0..mode_count)
        .map(|index| Mode { index, name: "Feet", share: 1, transport: Transport::Individual })
        .collect();
    ReferenceData::load(&districts, &categories, &trips, &vec![morning, evening], modes).unwrap()
}

fn there_and_back() -> Vec<TripRow> {
    vec![
        TripRow { transport: Transport::Individual, category: 1, origin: 10, destination: 20, count: 2 },
        TripRow { transport: Transport::Individual, category: 2, origin: 20, destination: 10, count: 2 },
    ]
}

fn walk_out(graph: &StateGraph, node: usize) -> Vec<usize> {
    let mut edges = Vec::new();
    let mut next = graph.first_edge(node);
    while let Some(edge) = next {
        edges.push(edge);
        next = graph.next_edge(edge);
    }
    edges
}

fn nodes_of(graph: &StateGraph) -> Vec<Node> {
    graph.node_indices().into_iter().map(|index| *graph.node(index)).collect()
}

fn edges_of(graph: &StateGraph) -> Vec<(Node, Node, Edge)> {
    (0..graph.edge_count())
        .map(|edge| {
            (
                *graph.node(graph.source_index(edge)),
                *graph.node(graph.target_index(edge)),
                *graph.edge(edge),
            )
        })
        .collect()
}

#[test]
fn there_is_an_edge_for_each_trip_bin_and_mode() {
    let data = data_with(2, there_and_back());
    let graph = StateGraph::new(&data);
    assert_eq!(graph.edge_count(), 2 * 48 * 2);
    assert_eq!(graph.node_count(), 96);
    assert_eq!(graph.node_indices(), (0..96).collect::<Vec<usize>>());
    for edge in 0..graph.edge_count() {
        let trip = edge / 2 / 48;
        let bin = edge / 2 % 48;
        let source = graph.node(graph.source_index(edge));
        let target = graph.node(graph.target_index(edge));
        assert_eq!(*graph.edge(edge), Edge { trip, category: trip, mode: edge % 2 });
        assert_eq!(source.time_bin.value(), bin);
        assert_eq!(target.time_bin.value(), (bin + 16) % 48);
        if trip == 0 {
            assert_eq!((source.district_id.value(), source.purpose), (10, Purpose::Home));
            assert_eq!((target.district_id.value(), target.purpose), (20, Purpose::Work));
        } else {
            assert_eq!((source.district_id.value(), source.purpose), (20, Purpose::Work));
            assert_eq!((target.district_id.value(), target.purpose), (10, Purpose::Home));
        }
    }
}

#[test]
fn a_state_is_one_node() {
    let graph = StateGraph::new(&data_with(1, there_and_back()));
    let nodes = nodes_of(&graph);
    for (i, a) in nodes.iter().enumerate() {
        for b in nodes.iter().skip(i + 1) {
            assert_ne!(a, b);
        }
    }
    assert_eq!(nodes[0].district_id.value(), 10);
    assert_eq!(nodes[0].purpose, Purpose::Home);
    assert_eq!(nodes[0].time_bin.value(), 0);
    assert_eq!(nodes[1].district_id.value(), 20);
    assert_eq!(nodes[1].purpose, Purpose::Work);
    assert_eq!(nodes[1].time_bin.value(), 16);
}

#[test]
fn outgoing_edges_are_walked_from_the_newest() {
    let graph = StateGraph::new(&data_with(3, there_and_back()));
    assert_eq!(walk_out(&graph, 0), vec![2, 1, 0]);
    assert_eq!(graph.target_index(2), 1);
    assert_eq!(graph.source_index(2), 0);
    let back: Vec<usize> = walk_out(&graph, 1);
    assert_eq!(back, vec![(48 + 16) * 3 + 2, (48 + 16) * 3 + 1, (48 + 16) * 3]);
    for edge in back {
        assert_eq!(graph.source_index(edge), 1);
        assert_eq!(graph.node(graph.target_index(edge)).time_bin.value(), 32);
    }
    let mut seen = 0;
    for node in graph.node_indices() {
        for edge in walk_out(&graph, node) {
            assert_eq!(graph.source_index(edge), node);
            seen += 1;
        }
    }
    assert_eq!(seen, graph.edge_count());
}

#[test]
fn a_graph_without_trips_is_empty() {
    let graph = StateGraph::new(&data_with(1, Vec::new()));
    assert_eq!(graph.edge_count(), 0);
    assert_eq!(graph.node_count(), 0);
    assert!(graph.node_indices().is_empty());
}

#[test]
fn a_trip_without_count_is_no_edge() {
    let mut trips = there_and_back();
    trips[0].count = 0;
    let data = data_with(2, trips);
    assert_eq!(data.trips.len(), 1);
    let graph = StateGraph::new(&data);
    assert_eq!(graph.edge_count(), 48 * 2);
    for edge in 0..graph.edge_count() {
        let carried = graph.edge(edge);
        assert_eq!(carried.trip, 0);
        assert_eq!(carried.category, 1);
        assert!(data.trips[carried.trip].count >= 1);
        assert_eq!(graph.node(graph.source_index(edge)).purpose, Purpose::Work);
    }
}

#[test]
fn building_twice_gives_the_same_graph() {
    let data = data_with(2, there_and_back());
    let first = StateGraph::new(&data);
    let second = StateGraph::new(&data);
    assert_eq!(nodes_of(&first), nodes_of(&second));
    assert_eq!(edges_of(&first), edges_of(&second));
    for node in first.node_indices() {
        assert_eq!(walk_out(&first, node), walk_out(&second, node));
    }
}

#[test]
fn an_edge_is_live_while_all_its_capacities_last() {
    let data = data_with(1, there_and_back());
    let mut ledger = Capacities::new(&data);
    let at = |value: u8| Node {
        district_id: data.districts[0].id,
        purpose: Purpose::Home,
        time_bin: TimeBin::new(value).unwrap(),
    };
    let edge = Edge { trip: 0, category: 0, mode: 0 };
    assert!(edge_is_live(&ledger, &at(0), &edge));
    assert!(!edge_is_live(&ledger, &at(1), &edge));
    assert!(!edge_is_live(&ledger, &at(0), &Edge { trip: 2, category: 0, mode: 0 }));
    assert!(!edge_is_live(&ledger, &at(0), &Edge { trip: 0, category: 2, mode: 0 }));
    assert!(!edge_is_live(&ledger, &at(0), &Edge { trip: 0, category: 0, mode: 1 }));
    ledger.reduce_trip(0, 2);
    assert!(!edge_is_live(&ledger, &at(0), &edge));
}

#[test]
fn pruning_keeps_the_live_edges_in_their_order() {
    let data = data_with(3, there_and_back());
    let mut graph = StateGraph::new(&data);
    let mut ledger = Capacities::new(&data);
    let nodes = nodes_of(&graph);
    graph.filter_edges(&ledger);
    assert_eq!(nodes_of(&graph), nodes);
    assert_eq!(graph.edge_count(), 6);
    let out: Vec<Edge> = walk_out(&graph, 0).into_iter().map(|edge| *graph.edge(edge)).collect();
    assert_eq!(
        out,
        vec![
            Edge { trip: 0, category: 0, mode: 2 },
            Edge { trip: 0, category: 0, mode: 1 },
            Edge { trip: 0, category: 0, mode: 0 },
        ]
    );
    assert!(walk_out(&graph, 2).is_empty());
    ledger.reduce_mode(1, ledger.get_mode(1));
    graph.filter_edges(&ledger);
    assert_eq!(graph.edge_count(), 4);
    let out: Vec<Edge> = walk_out(&graph, 0).into_iter().map(|edge| *graph.edge(edge)).collect();
    assert_eq!(
        out,
        vec![Edge { trip: 0, category: 0, mode: 2 }, Edge { trip: 0, category: 0, mode: 0 }]
    );
    for edge in walk_out(&graph, 1) {
        assert_eq!(graph.source_index(edge), 1);
        assert_eq!(graph.edge(edge).trip, 1);
    }
    ledger.reduce_trip(0, 2);
    graph.filter_edges(&ledger);
    assert_eq!(graph.edge_count(), 2);
    assert!(walk_out(&graph, 0).is_empty());
    assert_eq!(graph.node_count(), 96);
}

#[test]
fn pruning_a_larger_graph_filters_every_list() {
    let districts: Vec<DistrictRow> =
        (1..=5).map(|id| DistrictRow { id, info: id.to_string() }).collect();
    let categories = vec![
        CategoryRow { id: 1, origin: Purpose::Home, destination: Purpose::Work },
        CategoryRow { id: 2, origin: Purpose::Work, destination: Purpose::Home },
        CategoryRow { id: 3, origin: Purpose::Home, destination: Purpose::Leisure },
    ];
    let mut trips = Vec::new();
    for category in 1..=3u8 {
        for origin in 1..=5u16 {
            for destination in 1..=5u16 {
                trips.push(TripRow {
                    transport: Transport::Individual,
                    category,
                    origin,
                    destination,
                    count: (category as usize + origin as usize * destination as usize) % 4,
                });
            }
        }
    }
    let curves: Vec<Vec<u32>> = (0..3u32)
        .map(|category| (0..48u32).map(|bin| (bin * 7 + category) % 5).collect())
        .collect();
    let modes = (0..3)
        .map(|index| Mode { index, name: "Feet", share: 1 + index as u32, transport: Transport::Individual })
        .collect();
    let data = ReferenceData::load(&districts, &categories, &trips, &curves, modes).unwrap();
    let mut graph = StateGraph::new(&data);
    let mut ledger = Capacities::new(&data);
    for trip in 0..ledger.trip_count() {
        if trip % 3 == 0 {
            ledger.reduce_trip(trip, ledger.get_trip(trip));
        }
    }
    ledger.reduce_mode(1, ledger.get_mode(1));
    let arcs = |graph: &StateGraph, node: usize| -> Vec<(usize, Edge)> {
        walk_out(graph, node)
            .into_iter()
            .map(|edge| (graph.target_index(edge), *graph.edge(edge)))
            .collect()
    };
    let nodes = nodes_of(&graph);
    let before: Vec<Vec<(usize, Edge)>> = graph.node_indices().into_iter().map(|n| arcs(&graph, n)).collect();
    let edges_before = graph.edge_count();
    graph.filter_edges(&ledger);
    assert_eq!(nodes_of(&graph), nodes);
    let mut kept = 0;
    for node in graph.node_indices() {
        let expected: Vec<(usize, Edge)> = before[node]
            .iter()
            .copied()
            .filter(|(_, edge)| edge_is_live(&ledger, &nodes[node], edge))
            .collect();
        assert_eq!(arcs(&graph, node), expected);
        for edge in walk_out(&graph, node) {
            assert_eq!(graph.source_index(edge), node);
        }
        kept += expected.len();
    }
    assert_eq!(graph.edge_count(), kept);
    assert!(kept > 0 && kept < edges_before);
}
