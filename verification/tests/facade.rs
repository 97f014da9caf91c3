use graph_ds::graph::{GraphError, MINUTE};
use graph_ds::hexagon_graph::cell::{Direction, HexCell};
use graph_ds::hexagon_graph::gtfs::{Calendar, GtfsFeed, StopTime, Trip};
use graph_ds::hexagon_graph::h3cell::H3Cell;
use graph_ds::hexagon_graph::osm::{OSMLayer, Way};
use graph_ds::hexagon_graph::{
    assemble, cell_graph_from_mpk, hex_heuristic, process_feeds, PyCellGraph, PyH3Graph,
    WeightModifier,
};
use graph_ds::Graph;
use h3o::{CellIndex, LatLng, Resolution};

fn origin() -> CellIndex {
    LatLng::new(55.6761, 12.5683).unwrap().to_cell(Resolution::Twelve)
}

/// The cells on the line from the origin to a cell five steps away.
fn line() -> Vec<u64> {
    let a = origin();
    let far = a.grid_ring::<Vec<CellIndex>>(5)[0];
    a.grid_path_cells(far).unwrap().map(|c| u64::from(c.unwrap())).collect()
}

fn street(cells: Vec<u64>) -> Way {
    Way { tags: vec![("highway".to_string(), "residential".to_string())], cells }
}

fn hex(a: i16, b: i16) -> HexCell {
    HexCell { a, b, radius: 1, layer: 0 }
}

#[test]
fn layers_are_chosen_by_name() {
    let choice = |name: &str| {
        let g = PyH3Graph::new(None, 2, name);
        (g.options.gtfs_layer, g.options.osm_layer)
    };
    assert_eq!(choice("walk+bike"), (false, None));
    assert_eq!(choice("walk"), (false, Some(OSMLayer::Walking)));
    assert_eq!(choice("walk+transit"), (true, Some(OSMLayer::Walking)));
    assert_eq!(choice("all"), (true, None));
    assert_eq!(choice("Walk"), (true, None));
    assert_eq!(choice(""), (true, None));
}

#[test]
fn a_new_graph_takes_its_settings() {
    let g = PyH3Graph::new(None, 3, "all");
    assert_eq!(g.k_ring, 3);
    assert_eq!(g.graph.nr_nodes(), 0);
    assert_eq!(g.options.weight_modifier.bike_penalty, MINUTE);
    assert_eq!(g.options.weight_modifier.wait_time_multiplier, 1000);
    let w = WeightModifier { bike_penalty: 7, wait_time_multiplier: 2, walk_speed: 3, bike_speed: 4 };
    let g = PyH3Graph::new(Some(w), 0, "walk");
    assert_eq!(g.options.weight_modifier.bike_penalty, 7);
    assert_eq!(g.options.weight_modifier.wait_time_multiplier, 2);
    assert_eq!(g.get_random_node(), Err(GraphError::InputNotFound));
}

#[test]
fn create_builds_the_streets() {
    let cells = line();
    let mut g = PyH3Graph::new(None, 2, "walk");
    g.create(&vec![street(vec![cells[0], cells[5]])], 84_000, &vec![]);
    assert_eq!(g.graph.nr_nodes(), 6);
    assert_eq!(g.dijkstra_path(cells[0], cells[5], None), Ok((cells.clone(), 5 * MINUTE)));
    assert_eq!(g.dijkstra_path(cells[4], cells[1], Some(3)), Ok((vec![cells[4], cells[3], cells[2], cells[1]], 3 * MINUTE)));
    assert_eq!(g.astar_path(cells[0], cells[5], None), Ok((cells.clone(), 5 * MINUTE)));
    assert_eq!(g.dijkstra_path(cells[2], cells[2], None), Ok((vec![cells[2]], 0)));
    let picked = g.get_random_node().unwrap();
    assert!(cells.contains(&picked));
}

#[test]
fn paths_start_at_the_nodes_that_stand_for_the_cells() {
    let cells = line();
    let mut g = PyH3Graph::new(None, 2, "walk");
    g.create(&vec![street(vec![cells[2], cells[5]])], 84_000, &vec![]);
    // the first two cells of the line are not in the graph
    assert_eq!(g.resolve(cells[1]), Some(H3Cell { cell: cells[2], layer: -1 }));
    assert_eq!(g.resolve(cells[0]), Some(H3Cell { cell: cells[2], layer: -1 }));
    assert_eq!(g.dijkstra_path(cells[1], cells[4], None), Ok((vec![cells[2], cells[3], cells[4]], 2 * MINUTE)));
    let strict = {
        let mut g = PyH3Graph::new(None, 1, "walk");
        g.create(&vec![street(vec![cells[2], cells[5]])], 84_000, &vec![]);
        g
    };
    assert_eq!(strict.resolve(cells[0]), None);
    assert_eq!(strict.dijkstra_path(cells[0], cells[4], None), Err(GraphError::InputNotFound));
    assert_eq!(strict.dijkstra_path(cells[4], cells[0], None), Err(GraphError::InputNotFound));
    assert_eq!(strict.dijkstra_path(17, cells[4], None), Err(GraphError::InputNotFound));
    assert_eq!(strict.astar_path(cells[4], 0, None), Err(GraphError::InputNotFound));
}

#[test]
fn a_path_that_is_not_there() {
    let cells = line();
    let a = origin();
    let apart: Vec<u64> =
        a.grid_ring::<Vec<CellIndex>>(40).into_iter().take(2).map(u64::from).collect();
    let mut g = PyH3Graph::new(None, 0, "walk");
    g.create(&vec![street(vec![cells[0], cells[2]]), street(apart.clone())], 84_000, &vec![]);
    assert_eq!(g.dijkstra_path(cells[0], apart[0], None), Err(GraphError::NoPath));
    assert_eq!(g.astar_path(cells[0], apart[1], None), Err(GraphError::NoPath));
}

#[test]
fn matrix_of_distances() {
    let cells = line();
    let mut g = PyH3Graph::new(None, 1, "walk");
    g.create(&vec![street(vec![cells[1], cells[5]])], 84_000, &vec![]);
    let far: u64 = origin().grid_ring::<Vec<CellIndex>>(30)[0].into();
    // cell 0 stands next to cell 1; 0 is no cell; `far` has no node near it
    let origins = vec![cells[1], cells[0], 0, cells[3], far, cells[1]];
    let destinations = vec![cells[5], far, cells[1], 17, cells[0]];
    let rows = g.matrix_distance(&origins, &destinations, None, None, None);
    assert_eq!(
        rows,
        vec![
            (cells[1], vec![Some(4 * MINUTE), Some(0), Some(0)]),
            (cells[3], vec![Some(2 * MINUTE), Some(2 * MINUTE), Some(2 * MINUTE)]),
        ]
    );
    let rows = g.matrix_distance(&origins, &destinations, None, Some(MINUTE), None);
    assert_eq!(
        rows,
        vec![(cells[1], vec![None, Some(0), Some(0)]), (cells[3], vec![None, None, None])]
    );
    let rows = g.matrix_distance(&vec![cells[3]], &destinations, Some(5), None, Some(true));
    assert_eq!(rows, vec![(cells[3], vec![Some(2 * MINUTE), Some(2 * MINUTE), Some(2 * MINUTE)])]);
    // without a destination the search has no target
    let rows = g.matrix_distance(&vec![cells[3]], &vec![far], None, None, None);
    assert_eq!(rows, vec![(cells[3], vec![None])]);
}

fn call(cell: u64, seq: u32, time: u32) -> StopTime {
    StopTime { cell: Some(cell), stop_sequence: seq, arrival_time: Some(time), departure_time: Some(time) }
}

fn feed(routes: &[&str], rides: &[(&str, u64, u64)]) -> GtfsFeed {
    GtfsFeed {
        routes: routes.iter().map(|r| r.to_string()).collect(),
        trips: rides
            .iter()
            .map(|(route, a, b)| Trip {
                route_id: route.to_string(),
                service_id: "daily".to_string(),
                stop_times: vec![call(*a, 1, 8 * 3600), call(*b, 2, 8 * 3600 + 300)],
            })
            .collect(),
        calendar: vec![Calendar { service_id: "daily".to_string(), days: [true; 7] }],
    }
}

#[test]
fn feeds_are_counted_one_after_the_other() {
    let feeds = vec![
        feed(&["b", "a"], &[("a", 1, 2), ("b", 2, 3)]),
        feed(&["x"], &[("x", 3, 4)]),
        feed(&[], &[]),
        feed(&["y"], &[("y", 4, 5)]),
    ];
    let read = process_feeds(&feeds);
    assert_eq!(read.len(), 4);
    assert_eq!(read[0].edge_data, vec![((0, 1, 2), 5 * MINUTE), ((1, 2, 3), 5 * MINUTE)]);
    // two routes and one number left out
    assert_eq!(read[1].edge_data, vec![((3, 3, 4), 5 * MINUTE)]);
    assert_eq!(read[2].edge_data, vec![]);
    assert_eq!(read[3].edge_data, vec![((6, 4, 5), 5 * MINUTE)]);
    assert_eq!(read.iter().map(|r| r.nr_routes).collect::<Vec<_>>(), vec![2, 1, 0, 1]);
}

#[test]
fn create_merges_the_timetables_into_the_streets() {
    let cells = line();
    let feeds = vec![
        feed(&["tram"], &[("tram", cells[0], cells[5])]),
        feed(&["bus"], &[("bus", cells[5], cells[2])]),
    ];
    let mut g = PyH3Graph::new(None, 2, "walk+transit");
    g.create(&vec![street(vec![cells[0], cells[5]])], 840_000, &feeds);
    // walking takes ten minutes a cell; the tram takes five minutes after
    // half an hour of waiting, and leaving it one more
    let at = |cell: u64, layer: i16| H3Cell { cell, layer };
    let zero = |_: &H3Cell, _: &H3Cell| 0u64;
    let cost = |from: H3Cell, to: H3Cell, hour: Option<usize>| {
        g.graph.astar(&from, Some(&to), None, None, None, hour, zero).map(|r| r.distances[0].unwrap())
    };
    assert_eq!(cost(at(cells[0], -1), at(cells[5], 0), Some(8)), Ok(35 * MINUTE));
    assert_eq!(cost(at(cells[0], -1), at(cells[5], 0), Some(7)), Err(GraphError::NoPath));
    assert_eq!(g.dijkstra_path(cells[0], cells[5], Some(8)), Ok((cells.clone(), 50 * MINUTE)));
    // the second feed is counted from 2
    assert_eq!(cost(at(cells[5], -1), at(cells[2], 2), Some(8 + 24)), Ok(35 * MINUTE));
    assert_eq!(g.graph.find(&at(cells[5], 1)), None);
    // without timetables the same ways give the streets alone
    let mut streets = PyH3Graph::new(None, 2, "walk");
    streets.create(&vec![street(vec![cells[0], cells[5]])], 840_000, &feeds);
    assert_eq!(streets.graph.nr_nodes(), 6);
    assert_eq!(g.graph.nr_nodes(), 6 + 4);
}

#[test]
fn assemble_keeps_the_lighter_edge() {
    let mut streets = Graph::new();
    let at = |cell: u64, layer: i16| H3Cell { cell, layer };
    streets.build_and_add_egde(at(1, 0), at(2, 0), Some(MINUTE), None, None);
    streets.build_and_add_egde(at(1, 0), at(1, -1), Some(3 * MINUTE), None, None);
    let read = process_feeds(&vec![feed(&["r"], &[("r", 1, 2)])]);
    let g = assemble(streets, &read, &WeightModifier::default());
    let weight = |from: H3Cell, to: H3Cell| {
        let u = g.find(&from).unwrap();
        let v = g.find(&to).unwrap();
        g.edges[u].iter().find(|e| e.to == v).map(|e| e.weight)
    };
    assert_eq!(weight(at(1, 0), at(2, 0)), Some(Some(MINUTE)));
    assert_eq!(weight(at(1, 0), at(1, -1)), Some(Some(MINUTE)));
    assert_eq!(weight(at(1, -1), at(1, 0)), Some(Some(30 * MINUTE)));
}

#[test]
fn connect_cell_joins_a_cell_to_its_neighbors() {
    let mut g = Graph::new();
    let c = hex(0, 0);
    g.connect_cell(c, &[Direction::N, Direction::SE, Direction::N, Direction::UP], Some(4));
    assert_eq!(g.nr_nodes(), 4);
    assert_eq!(g.edges[0].len(), 3);
    assert_eq!(g.find(&hex(0, 1)), Some(1));
    assert_eq!(g.find(&hex(1, -1)), Some(2));
    assert_eq!(g.find(&HexCell { a: 0, b: 0, radius: 1, layer: 1 }), Some(3));
    assert!(g.edges[0].iter().all(|e| e.weight == Some(4) && e.from == 0));
    // a direction that leads out of the range is passed over
    let edge = HexCell { a: i16::MAX, b: 0, radius: 1, layer: 0 };
    g.connect_cell(edge, &[Direction::NE, Direction::S], None);
    assert_eq!(g.nr_nodes(), 6);
}

#[test]
fn a_graph_of_transitions() {
    let g = cell_graph_from_mpk(&vec![
        (hex(0, 0), hex(0, 1), 5),
        (hex(0, 1), hex(0, 2), 6),
        (hex(0, 0), hex(0, 1), 4),
        (hex(0, 2), hex(0, 2), 1),
    ]);
    assert_eq!(g.nr_nodes(), 3);
    assert_eq!(g.edges[0].len(), 1);
    assert_eq!(g.edges[0][0].weight, Some(4));
    assert_eq!(g.edges[2].len(), 0);
    let res = g.astar(&hex(0, 0), Some(&hex(0, 2)), None, None, None, None, |_, _| 0).unwrap();
    assert_eq!(res.distances, vec![Some(10)]);
}

#[test]
fn the_distance_on_the_hexagon_grid() {
    assert_eq!(hex_heuristic(&hex(0, 0), &hex(0, 0)), 0);
    assert_eq!(hex_heuristic(&hex(0, 0), &hex(0, 1)), 2 * MINUTE);
    assert_eq!(hex_heuristic(&hex(0, 0), &hex(1, -1)), 2 * MINUTE);
    assert_eq!(hex_heuristic(&hex(0, 0), &hex(2, 1)), 6 * MINUTE);
    assert_eq!(hex_heuristic(&hex(-3, 5), &hex(4, -2)), 14 * MINUTE);
    let wide = HexCell { a: 0, b: 0, radius: 5, layer: 0 };
    let up = HexCell { a: 1, b: 0, radius: 5, layer: -3 };
    assert_eq!(hex_heuristic(&wide, &up), 40 * MINUTE);
    let none = HexCell { a: 0, b: 0, radius: -1, layer: 0 };
    assert_eq!(hex_heuristic(&none, &up), 0);
    let corner = HexCell { a: i16::MIN, b: i16::MIN, radius: i16::MAX, layer: i16::MIN };
    let other = HexCell { a: i16::MAX, b: i16::MAX, radius: 1, layer: i16::MAX };
    assert_eq!(hex_heuristic(&corner, &other), (2 * 65_535 + 65_535) * 65_534 * MINUTE);
}

#[test]
fn matrix_of_distances_between_hexagon_cells() {
    let mut g = PyCellGraph::new();
    g.create_from_mpk(&vec![
        (hex(0, 0), hex(0, 1), 5),
        (hex(0, 1), hex(0, 2), 6),
        (hex(0, 2), hex(0, 3), 7),
        (hex(9, 9), hex(9, 8), 1),
    ]);
    assert_eq!(g.graph.adjust(hex(0, 1).id()), Some(hex(0, 1)));
    // the first neighbour in the graph: to the north, then to the south
    assert_eq!(g.graph.adjust(hex(0, 4).id()), Some(hex(0, 3)));
    assert_eq!(g.graph.adjust(hex(0, -1).id()), Some(hex(0, 0)));
    assert_eq!(g.graph.adjust(hex(1, 1).id()), Some(hex(0, 1)));
    assert_eq!(g.graph.adjust(hex(5, 5).id()), None);
    let origins = vec![hex(0, 0).id(), hex(5, 5).id(), hex(0, -1).id(), hex(9, 9).id()];
    let destinations = vec![hex(0, 3).id(), hex(5, 5).id(), hex(0, 1).id()];
    assert_eq!(
        g.matrix_distance(&origins, &destinations),
        vec![
            (hex(0, 0).id(), vec![Some(18), Some(5)]),
            (hex(0, -1).id(), vec![Some(18), Some(5)]),
            (hex(9, 9).id(), vec![None, None]),
        ]
    );
    assert_eq!(
        g.matrix_distance(&origins, &vec![hex(5, 5).id()]),
        vec![(hex(0, 0).id(), vec![]), (hex(0, -1).id(), vec![]), (hex(9, 9).id(), vec![])]
    );
}

#[test]
fn the_steps_of_the_grid_can_lead_the_search_astray() {
    // from `a` the target is a step away and ten minutes by the edge; over
    // `c`, twenty steps away, the way takes two minutes
    let a: u64 = origin().into();
    let target: u64 = origin().grid_ring::<Vec<CellIndex>>(1)[0].into();
    let c: u64 = origin().grid_ring::<Vec<CellIndex>>(20)[0].into();
    let at = |cell: u64| H3Cell { cell, layer: -1 };
    let mut g = PyH3Graph::new(None, 0, "walk");
    g.graph.build_and_add_egde(at(a), at(target), Some(10 * MINUTE), None, None);
    g.graph.build_and_add_egde(at(a), at(c), Some(MINUTE), None, None);
    g.graph.build_and_add_egde(at(c), at(target), Some(MINUTE), None, None);
    assert_eq!(g.dijkstra_path(a, target, None), Ok((vec![a, c, target], 2 * MINUTE)));
    assert_eq!(g.astar_path(a, target, None), Ok((vec![a, target], 10 * MINUTE)));
}

#[test]
fn the_usual_settings() {
    let g = PyH3Graph::default();
    assert_eq!(g.k_ring, 2);
    assert_eq!((g.options.gtfs_layer, g.options.osm_layer), (true, None));
    assert_eq!(g.options.weight_modifier.bike_penalty, MINUTE);
    assert_eq!(g.graph.nr_nodes(), 0);
    assert_eq!(PyCellGraph::default().graph.nr_nodes(), 0);
}
