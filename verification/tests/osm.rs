use graph_ds::graph::{INFINITE, MINUTE};
use graph_ds::hexagon_graph::h3cell::H3Cell;
use graph_ds::hexagon_graph::osm::{
    cells_present, edges_along, process_osm_pbf, tag_value_matches, way_is_eligible, way_points,
    OSMLayer, Way,
};
use graph_ds::hexagon_graph::{h3_network_from_osm, OSMOptions, WeightModifier};
use h3o::{CellIndex, LatLng, Resolution};

fn tags(pairs: &[(&str, &str)]) -> Vec<(String, String)> {
    pairs.iter().map(|(k, v)| (k.to_string(), v.to_string())).collect()
}

fn origin() -> CellIndex {
    LatLng::new(55.6761, 12.5683).unwrap().to_cell(Resolution::Twelve)
}

/// Three cells of which each is a neighbour of the two others.
fn triangle() -> (u64, u64, u64) {
    let a = origin();
    let ring = a.grid_ring::<Vec<CellIndex>>(1);
    for &b in &ring {
        for &c in &ring {
            if b != c && b.is_neighbor_with(c).unwrap() {
                return (a.into(), b.into(), c.into());
            }
        }
    }
    unreachable!()
}

fn options(layer: Option<OSMLayer>, bike_penalty: u64) -> OSMOptions {
    OSMOptions {
        osm_layer: layer,
        gtfs_layer: false,
        weight_modifier: WeightModifier { bike_penalty, ..WeightModifier::default() },
    }
}

fn zero(_: &H3Cell, _: &H3Cell) -> u64 {
    0
}

#[test]
fn layers_have_their_numbers() {
    assert_eq!(OSMLayer::Cycling.get_id(), -2);
    assert_eq!(OSMLayer::Walking.get_id(), -1);
}

#[test]
fn layers_have_their_required_tags() {
    assert_eq!(OSMLayer::Cycling.get_required_tags(), vec!["cycleway", "bicycle", "bicycle_road"]);
    assert_eq!(OSMLayer::Walking.get_required_tags(), vec!["highway"]);
    assert!(OSMLayer::Cycling.requires_tag("bicycle"));
    assert!(!OSMLayer::Cycling.requires_tag("highway"));
    assert!(OSMLayer::Walking.requires_tag("highway"));
    assert!(!OSMLayer::Walking.requires_tag("Highway"));
}

#[test]
fn weight_is_the_time_to_cross_a_cell() {
    // 50 m at 1.4 m/s are 0.595238 minutes, at 4.5 m/s 0.185185
    assert_eq!(OSMLayer::Walking.get_weight(50_000), 595_238);
    assert_eq!(OSMLayer::Cycling.get_weight(50_000), 185_185);
    assert_eq!(OSMLayer::Walking.get_weight(84_000), MINUTE);
    assert_eq!(OSMLayer::Cycling.get_weight(270_000), MINUTE);
    assert_eq!(OSMLayer::Walking.get_weight(0), 0);
    assert_eq!(OSMLayer::Walking.get_weight(u64::MAX), INFINITE);
    assert_eq!(OSMLayer::Cycling.get_weight(u64::MAX / 4), 17_080_318_586_768_103_344);
}

#[test]
fn highways_for_cars_alone_are_left_out() {
    for layer in [OSMLayer::Walking, OSMLayer::Cycling] {
        for v in ["motorway", "motorway_link", "prohibited", "trunk", "trunk_link", "construction"] {
            assert!(!tag_value_matches("highway", v, &layer));
        }
        for v in ["residential", "footway", "cycleway", "primary", "", "Motorway", "trunk_"] {
            assert!(tag_value_matches("highway", v, &layer));
        }
    }
}

#[test]
fn access_must_be_open() {
    for layer in [OSMLayer::Walking, OSMLayer::Cycling] {
        assert!(!tag_value_matches("access", "private", &layer));
        assert!(!tag_value_matches("access", "no", &layer));
        assert!(tag_value_matches("access", "yes", &layer));
        assert!(tag_value_matches("access", "none", &layer));
    }
}

#[test]
fn foot_counts_for_walking_only() {
    assert!(!tag_value_matches("foot", "private", &OSMLayer::Walking));
    assert!(!tag_value_matches("foot", "no", &OSMLayer::Walking));
    assert!(tag_value_matches("foot", "yes", &OSMLayer::Walking));
    assert!(tag_value_matches("foot", "private", &OSMLayer::Cycling));
    assert!(tag_value_matches("foot", "no", &OSMLayer::Cycling));
}

#[test]
fn bicycle_and_cycleway_count_for_cycling_only() {
    for v in ["private", "no", "none"] {
        assert!(!tag_value_matches("bicycle", v, &OSMLayer::Cycling));
        assert!(tag_value_matches("bicycle", v, &OSMLayer::Walking));
    }
    assert!(tag_value_matches("bicycle", "yes", &OSMLayer::Cycling));
    for v in ["shared", "no", "none"] {
        assert!(!tag_value_matches("cycleway", v, &OSMLayer::Cycling));
        assert!(tag_value_matches("cycleway", v, &OSMLayer::Walking));
    }
    assert!(tag_value_matches("cycleway", "lane", &OSMLayer::Cycling));
    assert!(tag_value_matches("cycleway", "private", &OSMLayer::Cycling));
}

#[test]
fn bicycle_roads_are_for_cycling() {
    assert!(tag_value_matches("bicycle_road", "yes", &OSMLayer::Cycling));
    assert!(tag_value_matches("bicycle_road", "no", &OSMLayer::Cycling));
    assert!(!tag_value_matches("bicycle_road", "yes", &OSMLayer::Walking));
}

#[test]
fn other_tags_say_nothing() {
    for layer in [OSMLayer::Walking, OSMLayer::Cycling] {
        assert!(tag_value_matches("name", "no", &layer));
        assert!(tag_value_matches("", "", &layer));
        assert!(tag_value_matches("bycicle_road", "yes", &layer));
    }
}

#[test]
fn a_way_needs_a_required_tag_and_a_highway_tag() {
    let walk = OSMLayer::Walking;
    let bike = OSMLayer::Cycling;
    assert!(way_is_eligible(&tags(&[("highway", "residential")]), &walk));
    assert!(!way_is_eligible(&tags(&[("highway", "residential")]), &bike));
    assert!(way_is_eligible(&tags(&[("highway", "residential"), ("bicycle", "yes")]), &bike));
    assert!(way_is_eligible(&tags(&[("cycleway", "lane"), ("highway", "primary")]), &bike));
    assert!(!way_is_eligible(&tags(&[("cycleway", "lane")]), &bike));
    assert!(!way_is_eligible(&tags(&[("bicycle", "yes")]), &walk));
    assert!(!way_is_eligible(&tags(&[]), &walk));
    assert!(!way_is_eligible(&tags(&[]), &bike));
}

#[test]
fn every_tag_of_a_way_must_allow_it() {
    let walk = OSMLayer::Walking;
    let bike = OSMLayer::Cycling;
    assert!(!way_is_eligible(&tags(&[("highway", "motorway")]), &walk));
    assert!(!way_is_eligible(&tags(&[("highway", "path"), ("access", "private")]), &walk));
    assert!(!way_is_eligible(&tags(&[("highway", "path"), ("foot", "no")]), &walk));
    assert!(way_is_eligible(&tags(&[("highway", "path"), ("bicycle", "no")]), &walk));
    assert!(!way_is_eligible(&tags(&[("highway", "path"), ("bicycle", "no")]), &bike));
    assert!(way_is_eligible(&tags(&[("highway", "path"), ("bicycle", "yes"), ("foot", "no")]), &bike));
    assert!(!way_is_eligible(&tags(&[("highway", "path"), ("bicycle_road", "yes")]), &walk));
    assert!(way_is_eligible(&tags(&[("highway", "path"), ("bicycle_road", "yes")]), &bike));
}

#[test]
fn cells_present_drops_the_gaps() {
    assert_eq!(cells_present(&vec![Some(1), None, Some(3), None, None, Some(1)]), vec![1, 3, 1]);
    assert_eq!(cells_present(&vec![None]), Vec::<u64>::new());
}

#[test]
fn edges_along_skips_steps_that_stay() {
    let w = OSMLayer::Walking;
    assert_eq!(
        edges_along(&vec![1, 2, 2, 3, 1, 1], w, 9),
        vec![((w, 1, 2), 9), ((w, 2, 3), 9), ((w, 3, 1), 9)]
    );
    assert_eq!(edges_along(&vec![1], w, 9), vec![]);
    assert_eq!(edges_along(&vec![], w, 9), vec![]);
    assert_eq!(edges_along(&vec![4, 4], w, 9), vec![]);
}

#[test]
fn way_points_follow_the_lines_of_the_grid() {
    let a = origin();
    let far = a.grid_ring::<Vec<CellIndex>>(4)[3];
    let line: Vec<u64> =
        a.grid_path_cells(far).unwrap().map(|c| u64::from(c.unwrap())).collect();
    assert_eq!(line.len(), 5);
    assert_eq!(way_points(&vec![a.into(), far.into()]), line);
    let back: Vec<u64> =
        far.grid_path_cells(a).unwrap().map(|c| u64::from(c.unwrap())).collect();
    let mut there_and_back = line.clone();
    there_and_back.extend(back);
    assert_eq!(way_points(&vec![a.into(), far.into(), a.into()]), there_and_back);
    assert_eq!(way_points(&vec![a.into()]), Vec::<u64>::new());
    // what is no cell has no line
    assert_eq!(way_points(&vec![a.into(), 0]), Vec::<u64>::new());
}

#[test]
fn a_way_gives_its_edges_to_each_layer_it_belongs_to() {
    let (a, b, _) = triangle();
    let way = Way {
        tags: tags(&[("highway", "residential"), ("bicycle", "yes")]),
        cells: vec![a, b],
    };
    let only_walking = Way { tags: tags(&[("highway", "footway")]), cells: vec![b, a] };
    let closed = Way { tags: tags(&[("highway", "motorway")]), cells: vec![a, b] };
    let ways = vec![way, only_walking, closed];
    let c = OSMLayer::Cycling;
    let w = OSMLayer::Walking;
    assert_eq!(
        process_osm_pbf(&ways, &options(None, MINUTE), 50_000),
        vec![((c, a, b), 185_185), ((w, a, b), 595_238), ((w, b, a), 595_238)]
    );
    assert_eq!(
        process_osm_pbf(&ways, &options(Some(c), MINUTE), 50_000),
        vec![((c, a, b), 185_185)]
    );
    assert_eq!(
        process_osm_pbf(&ways, &options(Some(w), MINUTE), 84_000),
        vec![((w, a, b), MINUTE), ((w, b, a), MINUTE)]
    );
}

#[test]
fn triangle_walk() {
    let (a, b, c) = triangle();
    let way = Way { tags: tags(&[("highway", "residential")]), cells: vec![a, b, c, a] };
    let opts = options(Some(OSMLayer::Walking), MINUTE);
    let edges = process_osm_pbf(&vec![way], &opts, 50_000);
    let w = OSMLayer::Walking;
    assert_eq!(
        edges,
        vec![((w, a, b), 595_238), ((w, b, c), 595_238), ((w, c, a), 595_238)]
    );
    let g = h3_network_from_osm(&edges, &opts);
    assert_eq!(g.nr_nodes(), 3);
    assert_eq!(g.edges.iter().map(|l| l.len()).sum::<usize>(), 6);
    let from = H3Cell { cell: a, layer: -1 };
    let to = H3Cell { cell: c, layer: -1 };
    let res = g.astar(&from, Some(&to), None, None, None, None, zero).unwrap();
    assert_eq!(res.distances, vec![Some(595_238)]);
    assert_eq!(res.path, Some(vec![from, to]));
}

#[test]
fn cycling_transfer() {
    let (p, q, _) = triangle();
    let way = Way {
        tags: tags(&[("highway", "cycleway"), ("bicycle", "designated"), ("foot", "no")]),
        cells: vec![p, q],
    };
    let opts = options(None, MINUTE);
    let edges = process_osm_pbf(&vec![way], &opts, 50_000);
    assert_eq!(edges, vec![((OSMLayer::Cycling, p, q), 185_185)]);
    let g = h3_network_from_osm(&edges, &opts);
    let at = |cell: u64, layer: i16| H3Cell { cell, layer };
    let weight = |from: H3Cell, to: H3Cell| {
        let u = g.find(&from)?;
        let v = g.find(&to)?;
        g.edges[u].iter().find(|e| e.to == v).map(|e| e.weight)
    };
    assert_eq!(g.nr_nodes(), 4);
    assert_eq!(g.edges.iter().map(|l| l.len()).sum::<usize>(), 6);
    assert_eq!(weight(at(p, -2), at(q, -2)), Some(Some(185_185)));
    assert_eq!(weight(at(q, -2), at(p, -2)), Some(Some(185_185)));
    assert_eq!(weight(at(p, -2), at(p, -1)), Some(Some(MINUTE)));
    assert_eq!(weight(at(p, -1), at(p, -2)), Some(Some(MINUTE)));
    assert_eq!(weight(at(q, -2), at(q, -1)), Some(Some(MINUTE)));
    assert_eq!(weight(at(q, -1), at(q, -2)), Some(Some(MINUTE)));
    assert_eq!(weight(at(p, -1), at(q, -1)), None);
    let res = g.astar(&at(p, -1), Some(&at(q, -1)), None, None, None, None, zero).unwrap();
    assert_eq!(res.distances, vec![Some(2 * MINUTE + 185_185)]);

    // changing layers for nothing, the way costs what cycling costs
    let free = options(None, 0);
    let g = h3_network_from_osm(&edges, &free);
    let res = g.astar(&at(p, -1), Some(&at(q, -1)), None, None, None, None, zero).unwrap();
    assert_eq!(res.distances, vec![Some(185_185)]);
    assert_eq!(res.path, Some(vec![at(p, -1), at(p, -2), at(q, -2), at(q, -1)]));
}

#[test]
fn default_options() {
    let o = OSMOptions::default();
    assert_eq!(o.osm_layer, None);
    assert!(o.gtfs_layer);
    let w = WeightModifier::default();
    assert_eq!((w.bike_penalty, w.wait_time_multiplier, w.walk_speed, w.bike_speed), (MINUTE, 1000, 1400, 4500));
}
