use graph_ds::graph::{GraphError, INFINITE, MINUTE};
use graph_ds::hexagon_graph::gtfs::{
    calcualte_stop_frequencies, calculate_edge_data, convert_gtfs_time, process_gtfs,
    ride_duration, route_layer, service_days, sort_routes, stops_by_sequence, trip_edge_data,
    Calendar, GtfsFeed, StopTime, Trip,
};
use graph_ds::hexagon_graph::h3cell::H3Cell;
use graph_ds::hexagon_graph::{
    highest_frequency, h3_network_from_gtfs, waiting_cost, WeightModifier,
};

fn call(cell: u64, seq: u32, arrival: u32, departure: u32) -> StopTime {
    StopTime {
        cell: Some(cell),
        stop_sequence: seq,
        arrival_time: Some(arrival),
        departure_time: Some(departure),
    }
}

fn trip(route: &str, service: &str, stop_times: Vec<StopTime>) -> Trip {
    Trip { route_id: route.to_string(), service_id: service.to_string(), stop_times }
}

fn names(list: &[&str]) -> Vec<String> {
    list.iter().map(|s| s.to_string()).collect()
}

fn weekdays() -> Calendar {
    Calendar { service_id: "week".to_string(), days: [true, true, true, true, true, false, false] }
}

fn monday() -> Calendar {
    Calendar { service_id: "mon".to_string(), days: [true, false, false, false, false, false, false] }
}

const H: u32 = 3600;

#[test]
fn times_of_day() {
    assert_eq!(convert_gtfs_time(0), Some((0, 0, 0)));
    assert_eq!(convert_gtfs_time(8 * H + 10 * 60 + 7), Some((8, 10, 7)));
    assert_eq!(convert_gtfs_time(86_399), Some((23, 59, 59)));
    assert_eq!(convert_gtfs_time(86_400), None);
    assert_eq!(convert_gtfs_time(25 * H), None);
    assert_eq!(convert_gtfs_time(256 * H), None);
    assert_eq!(convert_gtfs_time(u32::MAX), None);
}

#[test]
fn rides_last_whole_minutes() {
    assert_eq!(ride_duration(8 * H, 8 * H + 600), Some(10));
    assert_eq!(ride_duration(8 * H, 8 * H + 659), Some(10));
    assert_eq!(ride_duration(8 * H, 8 * H + 60), Some(1));
    // less than a whole minute is no ride
    assert_eq!(ride_duration(8 * H, 8 * H + 59), None);
    assert_eq!(ride_duration(0, 30), None);
    assert_eq!(ride_duration(0, 1), None);
    assert_eq!(ride_duration(0, 86_399), Some(1439));
    assert_eq!(ride_duration(8 * H, 8 * H), None);
    assert_eq!(ride_duration(8 * H + 1, 8 * H), None);
    assert_eq!(ride_duration(8 * H, 86_400), None);
    assert_eq!(ride_duration(86_400, 86_401), None);
}

#[test]
fn routes_are_put_in_order() {
    assert_eq!(
        sort_routes(&names(&["b", "a", "ab", "B", "", "a", "10", "9", "b", "å"])),
        names(&["", "10", "9", "B", "a", "ab", "b", "å"])
    );
    assert_eq!(sort_routes(&vec![]), Vec::<String>::new());
}

#[test]
fn the_layer_of_a_route_is_its_place_among_the_routes() {
    let routes = sort_routes(&names(&["r2", "r10", "r1", "x"]));
    assert_eq!(routes, names(&["r1", "r10", "r2", "x"]));
    assert_eq!(route_layer(&routes, "r1", 0), Some(0));
    assert_eq!(route_layer(&routes, "r10", 0), Some(1));
    assert_eq!(route_layer(&routes, "r2", 0), Some(2));
    assert_eq!(route_layer(&routes, "x", 0), Some(3));
    assert_eq!(route_layer(&routes, "x", 40), Some(43));
    assert_eq!(route_layer(&routes, "r", 0), None);
    assert_eq!(route_layer(&routes, "y", 0), None);
    assert_eq!(route_layer(&routes, "", 0), None);
    assert_eq!(route_layer(&routes, "r1", usize::MAX), Some(usize::MAX));
    assert_eq!(route_layer(&routes, "r10", usize::MAX), None);
    assert_eq!(route_layer(&vec![], "r1", 0), None);
}

#[test]
fn calls_are_sorted_by_their_place() {
    let calls = vec![
        call(3, 30, 0, 0),
        call(1, 10, 0, 0),
        StopTime { cell: None, stop_sequence: 15, arrival_time: Some(0), departure_time: Some(0) },
        call(2, 20, 0, 0),
        call(4, 20, 0, 0),
        call(5, 5, 0, 0),
    ];
    let sorted: Vec<u64> = stops_by_sequence(&calls).iter().map(|c| c.cell.unwrap()).collect();
    // calls with the same place stay in the order they came in
    assert_eq!(sorted, vec![5, 1, 2, 4, 3]);
}

#[test]
fn rides_run_from_arrival_to_departure() {
    let routes = names(&["r0", "r1"]);
    let t = trip(
        "r1",
        "week",
        vec![
            call(3, 3, 8 * H + 1500, 8 * H + 1560),
            call(1, 1, 8 * H, 8 * H + 60),
            call(2, 2, 8 * H + 600, 8 * H + 660),
        ],
    );
    assert_eq!(
        trip_edge_data(&t, &routes, 0),
        vec![((1, 1, 2), 11 * MINUTE), ((1, 2, 3), 16 * MINUTE)]
    );
    assert_eq!(
        trip_edge_data(&t, &routes, 7),
        vec![((8, 1, 2), 11 * MINUTE), ((8, 2, 3), 16 * MINUTE)]
    );
}

#[test]
fn rides_without_a_duration_are_left_out() {
    let routes = names(&["r"]);
    let t = trip(
        "r",
        "week",
        vec![
            call(1, 1, 8 * H, 8 * H),
            // leaves before the vehicle arrived at the stop before
            call(2, 2, 7 * H, 7 * H),
            StopTime { cell: Some(3), stop_sequence: 3, arrival_time: None, departure_time: Some(9 * H) },
            StopTime { cell: Some(4), stop_sequence: 4, arrival_time: Some(10 * H), departure_time: None },
            call(5, 5, 11 * H, 11 * H + 30),
            // on the next day
            call(6, 6, 25 * H, 25 * H),
            call(7, 7, 26 * H, 26 * H),
        ],
    );
    // from the arrival at 2 to the departure from 3, and from 4 to 5
    assert_eq!(
        trip_edge_data(&t, &routes, 0),
        vec![((0, 2, 3), 120 * MINUTE), ((0, 4, 5), 60 * MINUTE)]
    );
}

#[test]
fn a_trip_gives_each_ride_once() {
    let routes = names(&["r"]);
    let t = trip(
        "r",
        "week",
        vec![
            call(1, 1, 100, 100),
            call(2, 2, 400, 400),
            call(1, 3, 700, 700),
            call(2, 4, 2000, 2000),
            call(2, 5, 3000, 3000),
        ],
    );
    assert_eq!(
        trip_edge_data(&t, &routes, 0),
        vec![((0, 1, 2), 5 * MINUTE), ((0, 2, 1), 5 * MINUTE), ((0, 2, 2), 16 * MINUTE)]
    );
}

#[test]
fn rides_of_an_unknown_route_go_to_layer_zero() {
    let t = trip("nowhere", "week", vec![call(1, 1, 0, 0), call(2, 2, 60, 60)]);
    assert_eq!(trip_edge_data(&t, &names(&["a", "b"]), 5), vec![((0, 1, 2), MINUTE)]);
}

#[test]
fn edge_data_goes_trip_by_trip() {
    let routes = names(&["a", "b"]);
    let trips = vec![
        trip("b", "week", vec![call(1, 1, 0, 0), call(2, 2, 60, 120)]),
        trip("a", "week", vec![call(1, 1, 0, 0)]),
        trip("a", "week", vec![call(1, 1, 0, 0), call(2, 2, 60, 180)]),
    ];
    assert_eq!(
        calculate_edge_data(&trips, &routes, 0),
        vec![((1, 1, 2), 2 * MINUTE), ((0, 1, 2), 3 * MINUTE)]
    );
    assert_eq!(calculate_edge_data(&vec![], &routes, 0), vec![]);
}

#[test]
fn the_first_calendar_of_a_service_counts() {
    let calendar = vec![
        weekdays(),
        monday(),
        Calendar { service_id: "mon".to_string(), days: [true; 7] },
    ];
    assert_eq!(service_days(&calendar, "mon"), Some([true, false, false, false, false, false, false]));
    assert_eq!(service_days(&calendar, "week"), Some([true, true, true, true, true, false, false]));
    assert_eq!(service_days(&calendar, "sun"), None);
}

#[test]
fn frequencies_count_departures_by_hour_and_day() {
    let routes = names(&["r0", "r1"]);
    let calendar = vec![weekdays(), monday()];
    let trips = vec![
        trip("r1", "week", vec![call(7, 1, 8 * H, 8 * H + 5), call(8, 2, 9 * H, 9 * H + 59 * 60)]),
        trip("r1", "week", vec![call(7, 1, 8 * H, 8 * H + 3599), call(8, 2, 9 * H, 10 * H)]),
        trip("r1", "mon", vec![call(7, 1, 8 * H, 8 * H)]),
        trip("r0", "mon", vec![call(7, 1, 23 * H, 23 * H + 1)]),
    ];
    let table = calcualte_stop_frequencies(&trips, &calendar, &routes, 0);
    assert_eq!(table.len(), 3);
    let list = |cell: u64, route: usize| {
        table.iter().find(|(k, _)| *k == (cell, route)).map(|(_, l)| l.clone()).unwrap()
    };
    let mut expected = vec![0u64; 168];
    for day in 0..5 {
        expected[8 + 24 * day] = 2;
    }
    expected[8] = 3;
    assert_eq!(list(7, 1), expected);
    let mut expected = vec![0u64; 168];
    for day in 0..5 {
        expected[9 + 24 * day] = 1;
        expected[10 + 24 * day] = 1;
    }
    assert_eq!(list(8, 1), expected);
    let mut expected = vec![0u64; 168];
    expected[23] = 1;
    assert_eq!(list(7, 0), expected);
}

#[test]
fn calls_that_do_not_count() {
    let routes = names(&["r"]);
    let calendar = vec![
        monday(),
        Calendar { service_id: "never".to_string(), days: [false; 7] },
    ];
    let trips = vec![
        trip("r", "mon", vec![
            StopTime { cell: None, stop_sequence: 1, arrival_time: Some(0), departure_time: Some(0) },
            StopTime { cell: Some(1), stop_sequence: 2, arrival_time: Some(0), departure_time: None },
            call(2, 3, 0, 24 * H),
        ]),
        trip("unknown", "mon", vec![call(3, 1, 0, 0)]),
        trip("r", "unknown", vec![call(4, 1, 0, 0)]),
        trip("r", "never", vec![call(5, 1, 0, 0)]),
    ];
    assert_eq!(calcualte_stop_frequencies(&trips, &calendar, &routes, 0), vec![]);
}

#[test]
fn sunday_is_the_last_day() {
    let calendar = vec![Calendar {
        service_id: "sun".to_string(),
        days: [false, false, false, false, false, false, true],
    }];
    let trips = vec![trip("r", "sun", vec![call(1, 1, 0, 23 * H + 3599)])];
    let table = calcualte_stop_frequencies(&trips, &calendar, &names(&["r"]), 3);
    assert_eq!(table.len(), 1);
    assert_eq!(table[0].0, (1, 3));
    let mut expected = vec![0u64; 168];
    expected[167] = 1;
    assert_eq!(table[0].1, expected);
}

#[test]
fn a_feed_is_read_with_its_routes_in_order() {
    let feed = GtfsFeed {
        routes: names(&["tram", "bus", "tram"]),
        trips: vec![
            trip("tram", "mon", vec![call(1, 1, 8 * H, 8 * H), call(2, 2, 8 * H + 600, 8 * H + 600)]),
            trip("bus", "mon", vec![call(2, 1, 9 * H, 9 * H), call(3, 2, 9 * H + 60, 9 * H + 120)]),
        ],
        calendar: vec![monday()],
    };
    let read = process_gtfs(&feed, 10);
    assert_eq!(read.nr_routes, 2);
    assert_eq!(read.routes, names(&["bus", "tram"]));
    assert_eq!(read.edge_data, vec![((11, 1, 2), 10 * MINUTE), ((10, 2, 3), 2 * MINUTE)]);
    let mut keys: Vec<(u64, usize)> = read.stop_frequencies.iter().map(|(k, _)| *k).collect();
    keys.sort();
    assert_eq!(keys, vec![(1, 11), (2, 10), (2, 11), (3, 10)]);
}

#[test]
fn waiting_costs_half_the_headway() {
    assert_eq!(waiting_cost(1, 1000), 30 * MINUTE);
    assert_eq!(waiting_cost(2, 1000), 15 * MINUTE);
    assert_eq!(waiting_cost(4, 1000), 7_500_000);
    assert_eq!(waiting_cost(7, 1000), 4_285_714);
    assert_eq!(waiting_cost(60, 1000), 500_000);
    assert_eq!(waiting_cost(1, 2000), 60 * MINUTE);
    assert_eq!(waiting_cost(1, 500), 15 * MINUTE);
    assert_eq!(waiting_cost(1, 0), 0);
    assert_eq!(waiting_cost(0, 1000), INFINITE);
    assert_eq!(waiting_cost(0, 0), INFINITE);
    assert_eq!(waiting_cost(1, u64::MAX), INFINITE);
    assert_eq!(waiting_cost(30_000_000, u64::MAX), 18_446_744_073_709_551);
    assert_eq!(waiting_cost(u64::MAX, 1000), 0);
}

#[test]
fn the_highest_frequency_is_at_least_one() {
    assert_eq!(highest_frequency(&vec![0, 3, 9, 2]), 9);
    assert_eq!(highest_frequency(&vec![0, 0]), 1);
    assert_eq!(highest_frequency(&vec![]), 1);
}

fn zero(_: &H3Cell, _: &H3Cell) -> u64 {
    0
}

#[test]
fn transit_boarding() {
    // one route, one trip from the first stop at 08:00 to the second at 08:10, on Mondays
    let (first, second) = (101u64, 202u64);
    let feed = GtfsFeed {
        routes: names(&["only"]),
        trips: vec![trip(
            "only",
            "mon",
            vec![call(first, 1, 8 * H, 8 * H), call(second, 2, 8 * H + 600, 8 * H + 600)],
        )],
        calendar: vec![monday()],
    };
    let read = process_gtfs(&feed, 0);
    assert_eq!(read.edge_data, vec![((0, first, second), 10 * MINUTE)]);
    let g = h3_network_from_gtfs(&WeightModifier::default(), &read);
    let base = H3Cell { cell: first, layer: -1 };
    let on = H3Cell { cell: first, layer: 0 };
    let off = H3Cell { cell: second, layer: 0 };
    assert_eq!(g.nr_nodes(), 3);
    let at = |hour: Option<usize>| {
        g.astar(&base, Some(&off), None, None, None, hour, zero).map(|r| r.distances)
    };
    // half an hour of waiting and ten minutes on the way
    assert_eq!(at(Some(8)), Ok(vec![Some(40 * MINUTE)]));
    assert_eq!(at(None), Ok(vec![Some(40 * MINUTE)]));
    // no departure in hour 9, nor at 8 on a Tuesday
    assert_eq!(at(Some(9)), Err(GraphError::NoPath));
    assert_eq!(at(Some(32)), Err(GraphError::NoPath));
    // leaving the vehicle costs a minute
    let res = g.astar(&on, Some(&base), None, None, None, Some(9), zero).unwrap();
    assert_eq!(res.distances, vec![Some(MINUTE)]);
    let u = g.find(&base).unwrap();
    let board = &g.edges[u][0];
    assert_eq!(board.weight, Some(30 * MINUTE));
    let list = board.weight_list.as_ref().unwrap();
    assert_eq!(list.len(), 168);
    assert_eq!(list[8], 30 * MINUTE);
    assert_eq!(list.iter().filter(|&&w| w == INFINITE).count(), 167);
}

#[test]
fn boarding_without_frequencies_costs_five_minutes() {
    let read = graph_ds::hexagon_graph::gtfs::GtfsProcessingResult {
        edge_data: vec![((2, 10, 20), 7 * MINUTE), ((3, 10, 30), MINUTE), ((40_000, 1, 2), 5)],
        stop_frequencies: vec![((10, 3), vec![1, 2, 3])],
        nr_routes: 4,
        routes: vec![],
    };
    let g = h3_network_from_gtfs(&WeightModifier::default(), &read);
    let at = |cell: u64, layer: i16| H3Cell { cell, layer };
    let weight = |from: H3Cell, to: H3Cell| {
        let u = g.find(&from)?;
        let v = g.find(&to)?;
        g.edges[u].iter().find(|e| e.to == v).map(|e| (e.weight, e.weight_list.clone()))
    };
    assert_eq!(weight(at(10, -1), at(10, 2)), Some((Some(5 * MINUTE), None)));
    // a list that does not cover the week counts as none
    assert_eq!(weight(at(10, -1), at(10, 3)), Some((Some(5 * MINUTE), None)));
    assert_eq!(weight(at(10, 2), at(20, 2)), Some((Some(7 * MINUTE), None)));
    assert_eq!(weight(at(10, 2), at(10, -1)), Some((Some(MINUTE), None)));
    assert_eq!(weight(at(20, 2), at(20, -1)), None);
    // a layer beyond the numbers of layers is left out
    assert_eq!(g.nr_nodes(), 5);
    assert_eq!(g.find(&at(1, -1)), None);
}

#[test]
fn the_multiplier_scales_the_waiting() {
    let mut list = vec![0u64; 168];
    list[5] = 3;
    list[6] = 6;
    let read = graph_ds::hexagon_graph::gtfs::GtfsProcessingResult {
        edge_data: vec![((0, 10, 20), 7 * MINUTE)],
        stop_frequencies: vec![((10, 0), list)],
        nr_routes: 1,
        routes: vec![],
    };
    let options = WeightModifier { wait_time_multiplier: 1500, ..WeightModifier::default() };
    let g = h3_network_from_gtfs(&options, &read);
    let u = g.find(&H3Cell { cell: 10, layer: -1 }).unwrap();
    let board = &g.edges[u][0];
    assert_eq!(board.weight, Some(7_500_000));
    let list = board.weight_list.as_ref().unwrap();
    assert_eq!(list[5], 15 * MINUTE);
    assert_eq!(list[6], 7_500_000);
    assert_eq!(list[7], INFINITE);
}

#[test]
fn a_ride_of_less_than_a_minute_is_left_out() {
    let routes = names(&["r"]);
    let t = trip("r", "week", vec![call(1, 1, 0, 0), call(2, 2, 30, 30), call(3, 3, 90, 90)]);
    assert_eq!(trip_edge_data(&t, &routes, 0), vec![((0, 2, 3), MINUTE)]);
    assert_eq!(calculate_edge_data(&vec![t], &routes, 0), vec![((0, 2, 3), MINUTE)]);
    let short = trip("r", "week", vec![call(1, 1, 0, 0), call(2, 2, 30, 30)]);
    assert_eq!(calculate_edge_data(&vec![short], &routes, 0), vec![]);
}
