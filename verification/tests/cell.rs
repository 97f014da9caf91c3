use graph_ds::hexagon_graph::cell::{Direction, HexCell};

fn cell(a: i16, b: i16, layer: i16) -> HexCell {
    HexCell { a, b, radius: 1, layer }
}

#[test]
fn id_lays_out_the_fields_byte_by_byte() {
    let c = HexCell { a: 0x0102, b: 0x0304, radius: 0x0506, layer: 0x0708 };
    assert_eq!(c.id(), 0x0201_0403_0605_0807);
}

#[test]
fn id_of_the_centre_is_the_radius_alone() {
    assert_eq!(cell(0, 0, 0).id(), 0x0000_0000_0100_0000);
}

#[test]
fn id_without_layer_ignores_the_layer() {
    let c = cell(5, -7, 3);
    assert_eq!(c.id_without_layer(), c.with_layer(0).id());
    assert_eq!(c.id_without_layer() & 0xffff, 0);
}

#[test]
fn with_layer_changes_the_layer_only() {
    assert_eq!(cell(4, 9, 0).with_layer(-2), HexCell { a: 4, b: 9, radius: 1, layer: -2 });
}

#[test]
fn from_id_inverts_id() {
    for c in [cell(-3, 17, -1), cell(i16::MAX, i16::MIN, 0), cell(0, 0, 255), cell(-1, -1, -1)] {
        assert_eq!(HexCell::from_id(c.id()), c);
    }
}

#[test]
fn id_inverts_from_id() {
    for id in [0u64, 1, 0x8c1f_b466_22df_ffff, u64::MAX, 0x0102_0304_0506_0708] {
        assert_eq!(HexCell::from_id(id).id(), id);
    }
}

#[test]
fn from_id_reads_the_fields_back() {
    assert_eq!(
        HexCell::from_id(0x0201_0403_0605_0807),
        HexCell { a: 0x0102, b: 0x0304, radius: 0x0506, layer: 0x0708 }
    );
}

#[test]
fn neighbors_in_all_directions() {
    let c = cell(10, 20, 3);
    assert_eq!(c.get_neighbor(Direction::N), cell(10, 21, 3));
    assert_eq!(c.get_neighbor(Direction::NE), cell(11, 20, 3));
    assert_eq!(c.get_neighbor(Direction::SE), cell(11, 19, 3));
    assert_eq!(c.get_neighbor(Direction::S), cell(10, 19, 3));
    assert_eq!(c.get_neighbor(Direction::SW), cell(9, 20, 3));
    assert_eq!(c.get_neighbor(Direction::NW), cell(9, 21, 3));
    assert_eq!(c.get_neighbor(Direction::UP), cell(10, 20, 4));
    assert_eq!(c.get_neighbor(Direction::DOWN), cell(10, 20, 2));
}

#[test]
fn all_neighbors_come_in_the_order_of_the_directions() {
    let c = cell(0, 0, 0);
    assert_eq!(
        c.get_all_neighbors(),
        vec![
            cell(0, 1, 0),
            cell(1, 0, 0),
            cell(1, -1, 0),
            cell(0, -1, 0),
            cell(-1, 0, 0),
            cell(-1, 1, 0),
            cell(0, 0, 1),
            cell(0, 0, -1),
        ]
    );
}

#[test]
fn try_neighbor_stops_at_the_edge_of_the_range() {
    let c = cell(i16::MAX, i16::MIN, i16::MAX);
    assert_eq!(c.try_neighbor(Direction::NE), None);
    assert_eq!(c.try_neighbor(Direction::S), None);
    assert_eq!(c.try_neighbor(Direction::SE), None);
    assert_eq!(c.try_neighbor(Direction::UP), None);
    assert_eq!(c.try_neighbor(Direction::N), Some(cell(i16::MAX, i16::MIN + 1, i16::MAX)));
    assert_eq!(c.try_neighbor(Direction::DOWN), Some(cell(i16::MAX, i16::MIN, i16::MAX - 1)));
}

#[test]
fn is_neighbor_holds_for_the_eight_neighbors_only() {
    let c = cell(2, 2, 0);
    for n in c.get_all_neighbors() {
        assert!(c.is_neighbor(&n));
        assert!(n.is_neighbor(&c));
    }
    assert!(!c.is_neighbor(&c));
    assert!(!c.is_neighbor(&cell(4, 2, 0)));
    assert!(!c.is_neighbor(&cell(3, 3, 0)));
    assert!(!c.is_neighbor(&cell(1, 1, 0)));
    assert!(!c.is_neighbor(&cell(2, 3, 1)));
}

#[test]
fn is_neighbor_asks_for_the_same_radius() {
    let c = cell(2, 2, 0);
    assert!(!c.is_neighbor(&HexCell { a: 2, b: 3, radius: 2, layer: 0 }));
}

#[test]
fn is_neighbor_does_not_wrap_around_the_range() {
    let c = cell(0, i16::MAX, 0);
    assert!(!c.is_neighbor(&cell(0, i16::MIN, 0)));
}

#[test]
fn from_local_ij_cuts_the_coordinates() {
    assert_eq!(HexCell::from_local_ij(3, -4, 7), HexCell { a: 3, b: -4, radius: 1, layer: 7 });
    assert_eq!(HexCell::from_local_ij(65_536 + 5, -65_536 - 2, 0), cell(5, -2, 0));
}
