use graph_ds::graph::{GraphError, MINUTE};
use graph_ds::hexagon_graph::cell::HexCell;
use graph_ds::hexagon_graph::h3cell::H3Cell;
use graph_ds::hexagon_graph::{estimate_for, row_nodes, u64list_to_h3cells};
use graph_ds::{Edge, Graph};
use h3o::{CellIndex, LatLng, Resolution};
use std::collections::hash_map::DefaultHasher;
use std::hash::{Hash, Hasher};

fn origin() -> CellIndex {
    LatLng::new(55.6761, 12.5683).unwrap().to_cell(Resolution::Twelve)
}

fn ring(k: u32) -> Vec<u64> {
    origin().grid_ring::<Vec<CellIndex>>(k).into_iter().map(u64::from).collect()
}

fn base(cell: u64) -> H3Cell {
    H3Cell { cell, layer: -1 }
}

#[test]
fn cell_hash_feeds_cell_gap_and_layer() {
    for (cell, layer) in [(origin(), -1i16), (origin(), 0), (origin(), 257), (CellIndex::try_from(ring(3)[5]).unwrap(), -2)] {
        let mut h = DefaultHasher::new();
        cell.hash(&mut h);
        0x0.hash(&mut h);
        layer.hash(&mut h);
        assert_eq!(H3Cell { cell: cell.into(), layer }.cell_hash(), h.finish());
    }
}

#[test]
fn cell_hash_tells_layers_and_cells_apart() {
    let a = H3Cell { cell: origin().into(), layer: -1 };
    assert_eq!(a.cell_hash(), a.cell_hash());
    assert_ne!(a.cell_hash(), H3Cell { cell: origin().into(), layer: -2 }.cell_hash());
    assert_ne!(a.cell_hash(), H3Cell { cell: ring(1)[0], layer: -1 }.cell_hash());
}

#[test]
fn to_cell_gives_the_local_coordinates() {
    let anchor = origin();
    for k in [0u32, 1, 2, 5] {
        for c in anchor.grid_ring::<Vec<CellIndex>>(k) {
            let ij = c.to_local_ij(anchor).unwrap();
            assert_eq!(
                H3Cell { cell: c.into(), layer: 4 }.to_cell(anchor.into()),
                Ok(HexCell { a: ij.coord.i as i16, b: ij.coord.j as i16, radius: 1, layer: 4 })
            );
        }
    }
    let own = H3Cell { cell: anchor.into(), layer: 0 }.to_cell(anchor.into()).unwrap();
    let next = H3Cell { cell: ring(1)[0], layer: 0 }.to_cell(anchor.into()).unwrap();
    assert_ne!(own, next);
}

#[test]
fn to_cell_fails_without_coordinates() {
    let cell = H3Cell { cell: origin().into(), layer: 0 };
    assert_eq!(cell.to_cell(0), Err(GraphError::NoLocalCoordinates));
    assert_eq!(H3Cell { cell: 0, layer: 0 }.to_cell(origin().into()), Err(GraphError::NoLocalCoordinates));
    // cells of different sizes share no plane
    let coarse: u64 = LatLng::new(55.6761, 12.5683).unwrap().to_cell(Resolution::Five).into();
    assert_eq!(cell.to_cell(coarse), Err(GraphError::NoLocalCoordinates));
}

#[test]
fn snap_keeps_a_cell_of_the_graph() {
    let mut g = Graph::new();
    let here: u64 = origin().into();
    g.build_and_add_egde(base(here), base(ring(1)[0]), Some(1), None, None);
    assert_eq!(g.snap(here, 2), Some(base(here)));
    assert_eq!(g.snap(here, 0), Some(base(here)));
}

#[test]
fn snap_hit() {
    // the cell is not in the graph, a neighbour of it is
    let mut g = Graph::new();
    let here: u64 = origin().into();
    let near = ring(1)[2];
    let far = ring(3)[0];
    g.build_and_add_egde(base(near), base(far), Some(3), None, None);
    assert_eq!(g.snap(here, 2), Some(base(near)));
    assert_eq!(g.snap(here, 1), Some(base(near)));
    assert_eq!(g.snap(here, 0), None);
    let rows = u64list_to_h3cells(&g, &vec![here, far], 2);
    assert_eq!(rows, vec![(here, Some(base(near))), (far, Some(base(far)))]);
    assert_eq!(row_nodes(&rows), vec![base(near), base(far)]);
}

#[test]
fn snap_takes_the_nearest_ring_first() {
    let mut g = Graph::new();
    let here: u64 = origin().into();
    let second = ring(2)[7];
    let third = ring(3)[1];
    g.build_and_add_egde(base(third), base(second), Some(3), None, None);
    assert_eq!(g.snap(here, 1), None);
    assert_eq!(g.snap(here, 2), Some(base(second)));
    assert_eq!(g.snap(here, 3), Some(base(second)));
    g.build_and_add_egde(base(ring(1)[4]), base(second), Some(3), None, None);
    assert_eq!(g.snap(here, 3), Some(base(ring(1)[4])));
}

#[test]
fn snap_takes_the_first_of_a_ring() {
    let mut g = Graph::new();
    let here: u64 = origin().into();
    let cells = ring(1);
    g.build_and_add_egde(base(cells[5]), base(cells[3]), Some(3), None, None);
    assert_eq!(g.snap(here, 1), Some(base(cells[3])));
    assert_eq!(g.first_in_ring(&cells), Some(base(cells[3])));
    assert_eq!(g.first_in_ring(&vec![cells[5], cells[3]]), Some(base(cells[5])));
    assert_eq!(g.first_in_ring(&vec![cells[0]]), None);
}

#[test]
fn snap_looks_at_the_walking_layer_only() {
    let mut g = Graph::new();
    let here: u64 = origin().into();
    g.build_and_add_egde(H3Cell { cell: here, layer: -2 }, H3Cell { cell: ring(1)[0], layer: 0 }, Some(3), None, None);
    assert_eq!(g.snap(here, 2), None);
}

#[test]
fn numbers_that_are_no_cells_are_passed_over() {
    let mut g = Graph::new();
    let here: u64 = origin().into();
    g.build_and_add_egde(base(here), base(0), Some(3), None, None);
    let gone = ring(9)[0];
    let rows = u64list_to_h3cells(&g, &vec![0, here, u64::MAX, gone, here, 17], 1);
    assert_eq!(rows, vec![(here, Some(base(here))), (gone, None), (here, Some(base(here)))]);
    assert_eq!(row_nodes(&rows), vec![base(here), base(here)]);
}

#[test]
fn the_edge_of_the_grid_along_an_edge_of_the_graph() {
    let mut g = Graph::new();
    let here = origin();
    let near = CellIndex::try_from(ring(1)[1]).unwrap();
    let far = ring(2)[0];
    g.build_and_add_egde(base(here.into()), H3Cell { cell: near.into(), layer: 3 }, Some(1), None, None);
    g.build_and_add_egde(base(here.into()), base(far), Some(1), None, None);
    let there = g.get_h3_edge(&Edge::new(0, 1, None, None));
    assert_eq!(there, Ok(u64::from(here.edge(near).unwrap())));
    let back = g.get_h3_edge(&Edge::new(1, 0, None, None));
    assert_eq!(back, Ok(u64::from(near.edge(here).unwrap())));
    assert_ne!(there, back);
    assert_eq!(g.get_h3_edge(&Edge::new(0, 2, None, None)), Err(GraphError::NotNeighbors));
    assert_eq!(g.get_h3_edge(&Edge::new(0, 0, None, None)), Err(GraphError::NotNeighbors));
    assert_eq!(g.get_h3_edge(&Edge::new(0, 3, None, None)), Err(GraphError::InputNotFound));
    assert_eq!(g.get_h3_edge(&Edge::new(7, 0, None, None)), Err(GraphError::InputNotFound));
}

#[test]
fn the_estimate_counts_a_minute_for_each_step() {
    assert_eq!(estimate_for(Some(0)), 0);
    assert_eq!(estimate_for(Some(3)), 3 * MINUTE);
    assert_eq!(estimate_for(Some(i32::MAX)), 2_147_483_647 * MINUTE);
    assert_eq!(estimate_for(Some(-4)), 0);
    assert_eq!(estimate_for(None), 2_147_483_647 * MINUTE);
}

#[test]
fn snap_searches_no_more_than_the_widest_ring() {
    let mut g = Graph::new();
    let here: u64 = origin().into();
    let beyond = ring(256)[0];
    let within = ring(255)[0];
    g.build_and_add_egde(base(beyond), base(ring(300)[0]), Some(1), None, None);
    assert_eq!(g.snap(here, 256), None);
    assert_eq!(g.snap(here, u32::MAX), None);
    g.build_and_add_egde(base(within), base(beyond), Some(1), None, None);
    assert_eq!(g.snap(here, u32::MAX), Some(base(within)));
    assert_eq!(g.snap(here, 254), None);
}
