use graph_ds::graph::{GraphError, INFINITE, MINUTE};
use graph_ds::hexagon_graph::h3cell::H3Cell;
use graph_ds::Graph;

fn node(cell: u64) -> H3Cell {
    H3Cell { cell, layer: -1 }
}

fn zero(_: &H3Cell, _: &H3Cell) -> u64 {
    0
}

fn graph(edges: &[(u64, u64, u64)]) -> Graph<H3Cell> {
    let mut g = Graph::new();
    for &(a, b, w) in edges {
        g.build_and_add_egde(node(a), node(b), Some(w), None, None);
    }
    g
}

/// Two ways from 1 to 4: over 2 for 2 + 2, and over 3 for 1 + 5; and a dead
/// end at 5.
fn diamond() -> Graph<H3Cell> {
    graph(&[(1, 2, 2), (2, 4, 2), (1, 3, 1), (3, 4, 5), (4, 5, 1), (6, 1, 1)])
}

#[test]
fn astar_finds_the_cheapest_path() {
    let g = diamond();
    let res = g.astar(&node(1), Some(&node(4)), None, None, None, None, zero).unwrap();
    assert_eq!(res.path, Some(vec![node(1), node(2), node(4)]));
    assert_eq!(res.distances, vec![Some(4)]);
    assert!(res.single_target);
}

#[test]
fn astar_finds_no_cheaper_path_than_any_other_walk() {
    // every walk from 1 to 5 in the diamond costs 5 or 7
    let g = diamond();
    let res = g.astar(&node(1), Some(&node(5)), None, None, None, None, |_, _| 17).unwrap();
    assert_eq!(res.distances, vec![Some(5)]);
    assert_eq!(res.path, Some(vec![node(1), node(2), node(4), node(5)]));
}

#[test]
fn astar_from_a_node_to_itself_costs_nothing() {
    let g = diamond();
    let res = g.astar(&node(4), Some(&node(4)), None, None, None, None, zero).unwrap();
    assert_eq!(res.path, Some(vec![node(4)]));
    assert_eq!(res.distances, vec![Some(0)]);
}

#[test]
fn astar_takes_a_later_and_cheaper_way() {
    // the direct edge is found first, the way around is cheaper
    let g = graph(&[(1, 2, 10), (1, 3, 1), (3, 4, 1), (4, 2, 1)]);
    let res = g.astar(&node(1), Some(&node(2)), None, None, None, None, zero).unwrap();
    assert_eq!(res.distances, vec![Some(3)]);
    assert_eq!(res.path, Some(vec![node(1), node(3), node(4), node(2)]));
}

#[test]
fn astar_follows_edges_in_their_direction_only() {
    let g = diamond();
    assert_eq!(
        g.astar(&node(4), Some(&node(1)), None, None, None, None, zero).err(),
        Some(GraphError::NoPath)
    );
}

#[test]
fn astar_needs_its_start() {
    let g = diamond();
    assert_eq!(
        g.astar(&node(99), Some(&node(1)), None, None, None, None, zero).err(),
        Some(GraphError::InputNotFound)
    );
    // the start is looked for before the targets are
    assert_eq!(
        g.astar(&node(99), None, None, None, None, None, zero).err(),
        Some(GraphError::InputNotFound)
    );
}

#[test]
fn astar_needs_a_target() {
    let g = diamond();
    assert_eq!(
        g.astar(&node(1), None, None, None, None, None, zero).err(),
        Some(GraphError::NoTarget)
    );
    assert_eq!(
        g.astar(&node(1), None, Some(&vec![]), None, None, None, zero).err(),
        Some(GraphError::NoTarget)
    );
    assert_eq!(
        g.astar(&node(1), Some(&node(4)), Some(&vec![]), None, None, None, zero).err(),
        Some(GraphError::NoTarget)
    );
}

#[test]
fn astar_fails_for_a_target_that_the_graph_lacks() {
    let g = diamond();
    assert_eq!(
        g.astar(&node(1), Some(&node(99)), None, None, None, None, zero).err(),
        Some(GraphError::NoPath)
    );
}

#[test]
fn astar_reports_each_target_in_the_order_asked() {
    let g = diamond();
    let targets = vec![node(5), node(99), node(3), node(6), node(1), node(4), node(5)];
    let res = g.astar(&node(1), None, Some(&targets), None, None, None, zero).unwrap();
    assert_eq!(res.path, None);
    assert!(!res.single_target);
    assert_eq!(
        res.distances,
        vec![Some(5), None, Some(1), None, Some(0), Some(4), Some(5)]
    );
}

#[test]
fn astar_does_not_expand_beyond_the_cutoff() {
    // 1 -2-> 2 -2-> 4 -1-> 5
    let g = diamond();
    let targets = vec![node(2), node(4), node(5)];
    let at = |limit: u64| {
        g.astar(&node(1), None, Some(&targets), Some(limit), None, None, zero).unwrap().distances
    };
    assert_eq!(at(1), vec![None, None, None]);
    assert_eq!(at(2), vec![Some(2), None, None]);
    assert_eq!(at(4), vec![Some(2), Some(4), None]);
    assert_eq!(at(5), vec![Some(2), Some(4), Some(5)]);
    assert_eq!(
        g.astar(&node(1), Some(&node(4)), None, Some(3), None, None, zero).err(),
        Some(GraphError::NoPath)
    );
    assert_eq!(
        g.astar(&node(1), Some(&node(4)), None, Some(4), None, None, zero).unwrap().distances,
        vec![Some(4)]
    );
}

#[test]
fn multi_target_with_dynamic_infinity() {
    // targets at cost 3, 5 and 100
    let g = graph(&[(0, 1, 3), (0, 2, 5), (0, 3, 100)]);
    let targets = vec![node(1), node(2), node(3)];
    let res = g.astar(&node(0), None, Some(&targets), None, Some(true), None, zero).unwrap();
    assert_eq!(res.distances, vec![Some(3), None, None]);
    // in the order of the list, whatever it is
    let targets = vec![node(3), node(1), node(2)];
    let res = g.astar(&node(0), None, Some(&targets), None, Some(true), None, zero).unwrap();
    assert_eq!(res.distances, vec![None, Some(3), None]);
    // without it every target is reached
    let res = g.astar(&node(0), None, Some(&targets), None, Some(false), None, zero).unwrap();
    assert_eq!(res.distances, vec![Some(100), Some(3), Some(5)]);
}

#[test]
fn dynamic_infinity_keeps_targets_that_are_as_near() {
    let g = graph(&[(0, 1, 3), (0, 2, 3), (0, 3, 4)]);
    let targets = vec![node(3), node(2), node(1)];
    let res = g.astar(&node(0), None, Some(&targets), None, Some(true), None, zero).unwrap();
    assert_eq!(res.distances, vec![None, Some(3), Some(3)]);
}

#[test]
fn astar_with_end_and_list_stops_at_the_nearest_of_the_list() {
    let g = diamond();
    let targets = vec![node(5), node(4)];
    let res = g.astar(&node(1), Some(&node(3)), Some(&targets), None, None, None, zero).unwrap();
    assert!(res.single_target);
    assert_eq!(res.path, Some(vec![node(1), node(2), node(4)]));
    assert_eq!(res.distances, vec![Some(4)]);
    let res = g
        .astar(&node(5), Some(&node(3)), Some(&vec![node(1), node(2)]), None, None, None, zero)
        .unwrap();
    assert_eq!(res.path, None);
    assert_eq!(res.distances, vec![None, None]);
}

#[test]
fn an_absent_weight_costs_a_minute() {
    let mut g = Graph::new();
    g.build_and_add_egde(node(1), node(2), None, None, None);
    g.build_and_add_egde(node(2), node(3), None, None, None);
    let res = g.astar(&node(1), Some(&node(3)), None, None, None, None, zero).unwrap();
    assert_eq!(res.distances, vec![Some(2 * MINUTE)]);
}

#[test]
fn the_hour_selects_the_weight() {
    let mut list = vec![50u64; 168];
    list[8] = 30;
    list[9] = INFINITE;
    let mut g = Graph::new();
    g.build_and_add_egde(node(1), node(2), Some(40), Some(list), None);
    g.build_and_add_egde(node(2), node(3), Some(10), None, None);
    let at = |hour: Option<usize>| {
        g.astar(&node(1), Some(&node(3)), None, None, None, hour, zero).map(|r| r.distances)
    };
    assert_eq!(at(None), Ok(vec![Some(50)]));
    assert_eq!(at(Some(8)), Ok(vec![Some(40)]));
    assert_eq!(at(Some(0)), Ok(vec![Some(60)]));
    assert_eq!(at(Some(167)), Ok(vec![Some(60)]));
    // no passage in hour 9
    assert_eq!(at(Some(9)), Err(GraphError::NoPath));
}

#[test]
fn the_same_query_gives_the_same_distance() {
    let mut list = vec![50u64; 168];
    list[100] = 7;
    let mut g = diamond();
    g.build_and_add_egde(node(1), node(4), Some(9), Some(list), None);
    for hour in [None, Some(0), Some(100), Some(167)] {
        let first = g.astar(&node(1), Some(&node(5)), None, None, None, hour, zero).unwrap();
        let second = g.astar(&node(1), Some(&node(5)), None, None, None, hour, |_, _| 3).unwrap();
        assert_eq!(first.distances, second.distances);
    }
    let res = g.astar(&node(1), Some(&node(5)), None, None, None, Some(100), zero).unwrap();
    assert_eq!(res.distances, vec![Some(5)]);
}

#[test]
fn a_path_costs_what_its_edges_cost_with_any_heuristic() {
    // the estimate is not constant: the result is still a path of the graph
    let g = diamond();
    let h = |a: &H3Cell, b: &H3Cell| (a.cell * 31 + b.cell * 17) % 11;
    let res = g.astar(&node(1), Some(&node(5)), None, None, None, None, h).unwrap();
    let path = res.path.unwrap();
    assert_eq!(path.first(), Some(&node(1)));
    assert_eq!(path.last(), Some(&node(5)));
    let mut cost = 0;
    for pair in path.windows(2) {
        let u = g.find(&pair[0]).unwrap();
        let v = g.find(&pair[1]).unwrap();
        cost += g.edges[u].iter().find(|e| e.to == v).unwrap().weight.unwrap();
    }
    assert!(cost <= res.distances[0].unwrap());
}

#[test]
fn costs_near_the_limit_count_as_no_passage() {
    let g = graph(&[(1, 2, u64::MAX - 1), (2, 3, 1), (1, 4, u64::MAX - 1), (1, 5, u64::MAX)]);
    let targets = vec![node(2), node(3), node(4), node(5)];
    let res = g.astar(&node(1), None, Some(&targets), None, None, None, zero).unwrap();
    assert_eq!(res.distances, vec![Some(u64::MAX - 1), None, Some(u64::MAX - 1), None]);
}

#[test]
fn bfs_counts_edges() {
    let g = diamond();
    let (path, distances) = g.bfs(&node(1), None, None).unwrap();
    assert_eq!(path, None);
    // positions: 1, 2, 4, 3, 5, 6
    assert_eq!(distances, vec![Some(0), Some(1), Some(2), Some(1), Some(3), None]);
}

#[test]
fn bfs_finds_a_path_of_the_fewest_edges() {
    let g = graph(&[(1, 2, 1), (2, 3, 1), (3, 4, 1), (1, 4, 100), (4, 5, 1)]);
    let (path, distances) = g.bfs(&node(1), Some(&node(5)), None).unwrap();
    assert_eq!(path, Some(vec![node(1), node(4), node(5)]));
    assert_eq!(distances, vec![Some(2)]);
    let (path, distances) = g.bfs(&node(3), Some(&node(3)), None).unwrap();
    assert_eq!(path, Some(vec![node(3)]));
    assert_eq!(distances, vec![Some(0)]);
}

#[test]
fn bfs_reports_a_target_out_of_reach() {
    let g = diamond();
    assert_eq!(g.bfs(&node(5), Some(&node(1)), None), Ok((None, vec![None])));
    assert_eq!(g.bfs(&node(1), Some(&node(99)), None), Ok((None, vec![None])));
}

#[test]
fn bfs_reports_each_listed_target() {
    let g = diamond();
    let targets = vec![node(5), node(99), node(6), node(1), node(4)];
    assert_eq!(
        g.bfs(&node(1), None, Some(&targets)),
        Ok((None, vec![Some(3), None, None, Some(0), Some(2)]))
    );
    // a target that is reached comes with its path even where a list is given
    let (path, distances) = g.bfs(&node(1), Some(&node(4)), Some(&targets)).unwrap();
    assert_eq!(path.map(|p| p.len()), Some(3));
    assert_eq!(distances, vec![Some(2)]);
    // and the list is answered where the target is out of reach
    assert_eq!(
        g.bfs(&node(1), Some(&node(6)), Some(&vec![node(2)])),
        Ok((None, vec![Some(1)]))
    );
}

#[test]
fn bfs_needs_its_start() {
    let g = diamond();
    assert_eq!(g.bfs(&node(99), None, None), Err(GraphError::InputNotFound));
}

#[test]
fn bfs_from_a_node_without_edges() {
    let g = diamond();
    let (_, distances) = g.bfs(&node(5), None, None).unwrap();
    assert_eq!(distances, vec![None, None, None, None, Some(0), None]);
}

#[test]
fn bfs_and_astar_agree_where_every_edge_costs_one() {
    let edges = [(1, 2), (2, 3), (3, 4), (1, 5), (5, 4), (4, 6), (6, 1), (7, 8), (2, 6), (8, 1)];
    let mut g = Graph::new();
    for &(a, b) in &edges {
        g.build_and_add_egde(node(a), node(b), Some(1), None, None);
    }
    let all: Vec<H3Cell> = (1..=8).map(node).collect();
    for start in &all {
        let (_, hops) = g.bfs(start, None, Some(&all)).unwrap();
        let costs = g.astar(start, None, Some(&all), None, None, None, zero).unwrap().distances;
        assert_eq!(hops, costs);
    }
}

#[test]
fn bfs_and_astar_agree_on_graphs_without_weights() {
    let edges = [(1, 2), (2, 3), (3, 4), (1, 5), (5, 4), (4, 6)];
    let mut g = Graph::new();
    for &(a, b) in &edges {
        g.build_and_add_egde(node(a), node(b), None, None, None);
    }
    let all: Vec<H3Cell> = (1..=6).map(node).collect();
    let (_, hops) = g.bfs(&node(1), None, Some(&all)).unwrap();
    let costs = g.astar(&node(1), None, Some(&all), None, None, None, zero).unwrap().distances;
    let scaled: Vec<Option<u64>> = hops.iter().map(|h| h.map(|h| h * MINUTE)).collect();
    assert_eq!(scaled, costs);
    assert_eq!(hops, vec![Some(0), Some(1), Some(2), Some(2), Some(1), Some(3)]);
}

#[test]
fn backtrace_follows_the_predecessors() {
    let g = diamond();
    // positions: 1 -> 0, 2 -> 1, 4 -> 2, 3 -> 3, 5 -> 4, 6 -> 5
    let parents = vec![None, Some(0), Some(1), Some(0), Some(2), None];
    assert_eq!(g.backtrace(&parents, 4, 0), vec![node(1), node(2), node(4), node(5)]);
    assert_eq!(g.backtrace(&parents, 0, 0), vec![node(1)]);
    assert_eq!(g.backtrace(&parents, 4, 2), vec![node(4), node(5)]);
}

#[test]
fn backtrace_returns_what_it_gathered() {
    let g = diamond();
    // no predecessor: the way ends before the start
    assert_eq!(g.backtrace(&[None, None, Some(1), None, None, None], 2, 0), vec![node(2), node(4)]);
    // an empty slot: nothing is gathered for it
    assert_eq!(g.backtrace(&[None, Some(17), None, None, None, None], 1, 0), vec![node(2)]);
    assert_eq!(g.backtrace(&[], 17, 0), Vec::<H3Cell>::new());
    // a circle: the way ends when the steps are used up
    let path = g.backtrace(&[None, Some(2), Some(1), None, None, None], 1, 0);
    assert_eq!(path.len(), 7);
    assert_eq!(path.last(), Some(&node(2)));
}

#[test]
fn one_row_for_each_origin_that_differs() {
    let g = diamond();
    let origins = vec![node(1), node(1), node(2), node(99), node(1), node(99)];
    let targets = vec![node(4), node(5)];
    let rows = g.matrix_astar_distance(&origins, Some(&targets), false, None, None, None, zero);
    assert_eq!(
        rows,
        vec![
            (node(1), Ok(vec![Some(4), Some(5)])),
            (node(2), Ok(vec![Some(2), Some(3)])),
            (node(99), Err(GraphError::InputNotFound)),
        ]
    );
}

#[test]
fn one_row_for_each_origin_where_forced() {
    let g = diamond();
    let origins = vec![node(1), node(1), node(2)];
    let targets = vec![node(4)];
    let rows = g.matrix_astar_distance(&origins, Some(&targets), true, None, None, None, zero);
    assert_eq!(
        rows,
        vec![
            (node(1), Ok(vec![Some(4)])),
            (node(1), Ok(vec![Some(4)])),
            (node(2), Ok(vec![Some(2)])),
        ]
    );
    // the rows of the origins that differ serve for the whole list
    let unique = g.matrix_astar_distance(&origins, Some(&targets), false, None, None, None, zero);
    for (origin, row) in &rows {
        assert_eq!(unique.iter().find(|(o, _)| o == origin).map(|(_, r)| r), Some(row));
    }
}

#[test]
fn matrix_without_destinations_has_no_target() {
    let g = diamond();
    let rows = g.matrix_astar_distance(&vec![node(1)], None, false, None, None, None, zero);
    assert_eq!(rows, vec![(node(1), Err(GraphError::NoTarget))]);
}

#[test]
fn matrix_by_breadth_first_search() {
    let g = diamond();
    let origins = vec![node(2), node(1), node(2), node(99)];
    let rows = g.matrix_bfs_distance(&origins, Some(&vec![node(5), node(3)]), false);
    assert_eq!(
        rows,
        vec![
            (node(2), Ok(vec![Some(2), None])),
            (node(1), Ok(vec![Some(3), Some(1)])),
            (node(99), Err(GraphError::InputNotFound)),
        ]
    );
    let rows = g.matrix_bfs_distance(&vec![node(4), node(4)], None, true);
    let row = Ok(vec![None, None, Some(0), None, Some(1), None]);
    assert_eq!(rows, vec![(node(4), row.clone()), (node(4), row)]);
}

#[test]
fn merged_graphs_are_searched_as_one() {
    let mut a = graph(&[(1, 2, 2)]);
    let b = graph(&[(2, 3, 3)]);
    a.merge(&b);
    let res = a.astar(&node(1), Some(&node(3)), None, None, None, None, zero).unwrap();
    assert_eq!(res.distances, vec![Some(5)]);
    assert_eq!(res.path, Some(vec![node(1), node(2), node(3)]));
}

#[test]
fn a_large_graph_is_searched_to_its_end() {
    let mut g = Graph::new();
    let n = 2000u64;
    for i in 0..n {
        g.build_and_add_egde(node(i), node(i + 1), Some(2), None, None);
        g.build_and_add_egde(node(i), node((i * 7 + 3) % n), Some(50), None, None);
    }
    let res = g.astar(&node(0), Some(&node(n)), None, None, None, None, zero).unwrap();
    let d = res.distances[0].unwrap();
    assert!(d <= 2 * n);
    let (_, hops) = g.bfs(&node(0), Some(&node(n)), None).unwrap();
    assert!(hops[0].unwrap() <= n);
    assert!(d >= 2 * hops[0].unwrap());
}
