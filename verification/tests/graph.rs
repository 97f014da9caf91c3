use graph_ds::graph::{GraphError, MINUTE};
use graph_ds::hexagon_graph::h3cell::H3Cell;
use graph_ds::{Edge, Graph, Node};

fn node(cell: u64) -> H3Cell {
    H3Cell { cell, layer: -1 }
}

fn weight_between(g: &Graph<H3Cell>, from: H3Cell, to: H3Cell) -> Option<Option<u64>> {
    let u = g.find(&from)?;
    let v = g.find(&to)?;
    g.edges[u].iter().find(|e| e.to == v).map(|e| e.weight)
}

fn edge_count(g: &Graph<H3Cell>) -> usize {
    g.edges.iter().map(|list| list.len()).sum()
}

#[test]
fn new_graph_is_empty() {
    let g = Graph::<H3Cell>::new();
    assert_eq!(g.nr_nodes(), 0);
    assert_eq!(edge_count(&g), 0);
    assert_eq!(g.find(&node(1)), None);
    let d = Graph::<H3Cell>::default();
    assert_eq!(d.nr_nodes(), 0);
}

#[test]
fn edge_new_has_no_weight_list() {
    let e = Edge::new(1, 2, Some(7), Some(9));
    assert_eq!((e.from, e.to, e.weight, e.capacity), (1, 2, Some(7), Some(9)));
    assert!(e.weight_list.is_none());
}

#[test]
fn nodes_are_created_in_the_order_from_then_to() {
    let mut g = Graph::new();
    g.build_and_add_egde(node(10), node(20), Some(1), None, None);
    g.build_and_add_egde(node(30), node(10), Some(1), None, None);
    assert_eq!(g.nr_nodes(), 3);
    assert_eq!(g.find(&node(10)), Some(0));
    assert_eq!(g.find(&node(20)), Some(1));
    assert_eq!(g.find(&node(30)), Some(2));
    assert_eq!(g.nodes[1].as_ref().map(|n| n.id), Some(node(20)));
}

#[test]
fn add_node_keeps_a_known_node() {
    let mut g = Graph::new();
    assert_eq!(g.add_node(Node { id: node(5), layer: None }), 0);
    assert_eq!(g.add_node(Node { id: node(6), layer: Some(3) }), 1);
    assert_eq!(g.add_node(Node { id: node(5), layer: Some(9) }), 0);
    assert_eq!(g.nr_nodes(), 2);
    assert_eq!(g.nodes[0].as_ref().unwrap().layer, None);
}

#[test]
fn layers_tell_nodes_of_one_cell_apart() {
    let mut g = Graph::new();
    g.build_and_add_egde(H3Cell { cell: 1, layer: -1 }, H3Cell { cell: 1, layer: -2 }, Some(1), None, None);
    assert_eq!(g.nr_nodes(), 2);
    assert_eq!(edge_count(&g), 1);
}

#[test]
fn at_most_one_edge_joins_two_nodes() {
    let mut g = Graph::new();
    for w in [5u64, 3, 9, 3, 1, 7] {
        g.build_and_add_egde(node(1), node(2), Some(w), None, None);
    }
    assert_eq!(edge_count(&g), 1);
    g.build_and_add_egde(node(2), node(1), Some(4), None, None);
    assert_eq!(edge_count(&g), 2);
    for (u, list) in g.edges.iter().enumerate() {
        for (j, e) in list.iter().enumerate() {
            assert_eq!(e.from, u);
            for f in &list[j + 1..] {
                assert_ne!(e.to, f.to);
            }
        }
    }
}

#[test]
fn the_lighter_edge_stays() {
    let mut g = Graph::new();
    g.build_and_add_egde(node(1), node(2), Some(5), None, None);
    g.build_and_add_egde(node(1), node(2), Some(3), None, None);
    assert_eq!(weight_between(&g, node(1), node(2)), Some(Some(3)));
    g.build_and_add_egde(node(1), node(2), Some(4), None, None);
    assert_eq!(weight_between(&g, node(1), node(2)), Some(Some(3)));
    g.build_and_add_egde(node(1), node(2), Some(3), None, Some(11));
    let u = g.find(&node(1)).unwrap();
    assert_eq!(g.edges[u][0].capacity, None);
}

#[test]
fn an_absent_weight_counts_as_sixty_minutes() {
    let mut g = Graph::new();
    g.build_and_add_egde(node(1), node(2), None, None, None);
    g.build_and_add_egde(node(1), node(2), Some(60 * MINUTE), None, None);
    assert_eq!(weight_between(&g, node(1), node(2)), Some(None));
    g.build_and_add_egde(node(1), node(2), Some(61 * MINUTE), None, None);
    assert_eq!(weight_between(&g, node(1), node(2)), Some(None));
    g.build_and_add_egde(node(1), node(2), Some(60 * MINUTE - 1), None, None);
    assert_eq!(weight_between(&g, node(1), node(2)), Some(Some(60 * MINUTE - 1)));
    g.build_and_add_egde(node(1), node(2), None, None, None);
    assert_eq!(weight_between(&g, node(1), node(2)), Some(Some(60 * MINUTE - 1)));
}

#[test]
fn a_self_loop_leaves_no_edge() {
    let mut g = Graph::new();
    g.build_and_add_egde(node(1), node(1), Some(5), None, None);
    assert_eq!(edge_count(&g), 0);
    assert_eq!(g.nr_nodes(), 1);
    g.build_and_add_egde(node(1), node(2), Some(5), None, None);
    g.build_and_add_egde(node(2), node(2), Some(5), None, None);
    assert_eq!(edge_count(&g), 1);
    for list in &g.edges {
        for e in list {
            assert_ne!(e.from, e.to);
        }
    }
}

#[test]
fn a_weight_list_must_cover_the_week() {
    let mut g = Graph::new();
    g.build_and_add_egde(node(1), node(2), Some(5), Some(vec![1; 167]), None);
    assert_eq!(edge_count(&g), 0);
    assert_eq!(g.nr_nodes(), 2);
    g.build_and_add_egde(node(1), node(2), Some(5), Some(vec![1; 169]), None);
    assert_eq!(edge_count(&g), 0);
    g.build_and_add_egde(node(1), node(2), Some(5), Some(vec![2; 168]), None);
    assert_eq!(edge_count(&g), 1);
    let u = g.find(&node(1)).unwrap();
    assert_eq!(g.edges[u][0].weight_list, Some(vec![2; 168]));
}

#[test]
fn remove_edge_takes_out_the_one_edge() {
    let mut g = Graph::new();
    g.build_and_add_egde(node(1), node(2), Some(5), None, None);
    g.build_and_add_egde(node(1), node(3), Some(6), None, None);
    g.build_and_add_egde(node(2), node(1), Some(7), None, None);
    assert_eq!(g.remove_edge(node(1), node(2)), Ok(()));
    assert_eq!(weight_between(&g, node(1), node(2)), None);
    assert_eq!(weight_between(&g, node(1), node(3)), Some(Some(6)));
    assert_eq!(weight_between(&g, node(2), node(1)), Some(Some(7)));
    assert_eq!(g.nr_nodes(), 3);
    // an edge that is not there is no error
    assert_eq!(g.remove_edge(node(1), node(2)), Ok(()));
    assert_eq!(edge_count(&g), 2);
}

#[test]
fn remove_edge_needs_both_nodes() {
    let mut g = Graph::new();
    g.build_and_add_egde(node(1), node(2), Some(5), None, None);
    assert_eq!(g.remove_edge(node(9), node(2)), Err(GraphError::InputNotFound));
    assert_eq!(g.remove_edge(node(1), node(9)), Err(GraphError::InputNotFound));
    assert_eq!(edge_count(&g), 1);
}

#[test]
fn merge_joins_graphs_at_shared_nodes() {
    let mut a = Graph::new();
    a.build_and_add_egde(node(1), node(2), Some(2), None, None);
    let mut b = Graph::new();
    b.build_and_add_egde(node(2), node(3), Some(3), None, None);
    b.build_and_add_egde(node(1), node(2), Some(1), None, None);
    b.build_and_add_egde(node(4), node(5), Some(9), Some(vec![4; 168]), Some(2));
    a.merge(&b);
    assert_eq!(a.nr_nodes(), 5);
    assert_eq!(edge_count(&a), 3);
    assert_eq!(weight_between(&a, node(1), node(2)), Some(Some(1)));
    assert_eq!(weight_between(&a, node(2), node(3)), Some(Some(3)));
    let u = a.find(&node(4)).unwrap();
    assert_eq!(a.edges[u][0].weight_list, Some(vec![4; 168]));
    assert_eq!(a.edges[u][0].capacity, Some(2));
    // the other graph is left as it was
    assert_eq!(b.nr_nodes(), 5);
    assert_eq!(edge_count(&b), 3);
}

#[test]
fn merging_a_graph_with_its_like_changes_no_edge() {
    let build = || {
        let mut g = Graph::new();
        g.build_and_add_egde(node(1), node(2), Some(2), None, None);
        g.build_and_add_egde(node(2), node(3), None, None, None);
        g.build_and_add_egde(node(3), node(1), Some(7), Some(vec![1; 168]), None);
        g
    };
    let mut a = build();
    let b = build();
    a.merge(&b);
    assert_eq!(a.nr_nodes(), 3);
    assert_eq!(edge_count(&a), 3);
    assert_eq!(weight_between(&a, node(1), node(2)), Some(Some(2)));
    assert_eq!(weight_between(&a, node(2), node(3)), Some(None));
    assert_eq!(weight_between(&a, node(3), node(1)), Some(Some(7)));
}

#[test]
fn node_hash_depends_on_the_keys_alone() {
    let mut a = Graph::new();
    a.build_and_add_egde(node(1), node(2), Some(2), None, None);
    a.build_and_add_egde(node(3), node(1), Some(2), None, None);
    let mut b = Graph::new();
    b.build_and_add_egde(node(3), node(2), Some(9), None, None);
    b.build_and_add_egde(node(2), node(1), None, None, None);
    assert_eq!(a.node_hash(), b.node_hash());
    assert_eq!(a.node_hash(), a.node_hash());
    let mut c = Graph::new();
    c.build_and_add_egde(node(1), node(2), Some(2), None, None);
    c.build_and_add_egde(node(4), node(1), Some(2), None, None);
    assert_ne!(a.node_hash(), c.node_hash());
    let mut d = Graph::new();
    d.build_and_add_egde(H3Cell { cell: 1, layer: 0 }, node(2), Some(2), None, None);
    d.build_and_add_egde(node(3), node(2), Some(2), None, None);
    assert_ne!(a.node_hash(), d.node_hash());
}

#[test]
fn building_a_graph_twice_gives_the_same_node_hash() {
    let build = || {
        let mut g = Graph::new();
        for i in 0..50u64 {
            g.build_and_add_egde(node(i * 7 % 50), node(i), Some(i), None, None);
        }
        g
    };
    assert_eq!(build().node_hash(), build().node_hash());
}

#[test]
fn node_for_draw_picks_by_position() {
    let mut g = Graph::new();
    assert_eq!(g.node_for_draw(5), None);
    g.build_and_add_egde(node(10), node(20), Some(1), None, None);
    g.build_and_add_egde(node(10), node(30), Some(1), None, None);
    assert_eq!(g.node_for_draw(0), Some(node(10)));
    assert_eq!(g.node_for_draw(4), Some(node(20)));
    assert_eq!(g.node_for_draw(usize::MAX), Some(g.nodes[usize::MAX % 3].as_ref().unwrap().id));
}

#[test]
fn a_random_node_is_a_node_of_the_graph() {
    let mut g = Graph::new();
    assert_eq!(g.get_random_node(), None);
    for i in 0..20u64 {
        g.build_and_add_egde(node(i), node(i + 1), Some(1), None, None);
    }
    let mut seen = std::collections::HashSet::new();
    for _ in 0..400 {
        let n = g.get_random_node().unwrap();
        assert!(g.find(&n).is_some());
        seen.insert(n.cell);
    }
    // a draw that always gave the same number would name one node only
    assert!(seen.len() > 1);
}

#[test]
fn merge_places_new_nodes_in_the_order_of_the_edges() {
    let mut a = Graph::new();
    a.build_and_add_egde(node(1), node(2), Some(2), None, None);
    let mut b = Graph::new();
    b.build_and_add_egde(node(7), node(2), Some(3), None, None);
    b.build_and_add_egde(node(2), node(9), Some(3), None, None);
    b.build_and_add_egde(node(7), node(8), Some(3), None, None);
    a.merge(&b);
    // the edges of the first node of the other graph come first
    let keys: Vec<u64> = a.nodes.iter().map(|n| n.as_ref().unwrap().id.cell).collect();
    assert_eq!(keys, vec![1, 2, 7, 8, 9]);
    assert!(a.nodes.iter().all(|n| n.as_ref().unwrap().layer.is_none()));
}

#[test]
fn a_draw_passes_over_empty_slots() {
    let mut g = Graph::new();
    g.build_and_add_egde(node(10), node(20), Some(1), None, None);
    g.build_and_add_egde(node(20), node(30), Some(1), None, None);
    // a graph with an empty slot before its nodes and one between them
    let mut index = bimap::BiHashMap::new();
    index.insert((10u64, -1i16), 1usize);
    index.insert((20, -1), 3);
    let h = Graph {
        nodes: vec![None, Some(Node { id: node(10), layer: None }), None, Some(Node { id: node(20), layer: None })],
        edges: vec![vec![], vec![Edge::new(1, 3, Some(1), None)], vec![], vec![]],
        node_map: index,
    };
    assert_eq!(h.node_for_draw(0), Some(node(10)));
    assert_eq!(h.node_for_draw(1), Some(node(20)));
    assert_eq!(h.node_for_draw(2), Some(node(10)));
    assert_eq!(h.node_for_draw(usize::MAX), Some(node(20)));
    for _ in 0..50 {
        assert!(h.get_random_node().is_some());
    }
    let empty: Graph<H3Cell> = Graph { nodes: vec![None, None], edges: vec![vec![], vec![]], node_map: bimap::BiHashMap::new() };
    assert_eq!(empty.node_for_draw(7), None);
    assert_eq!(empty.get_random_node(), None);
}
