//! Street ways and the edges they give to the walking and cycling layers.

use super::h3cell::{grid_path, h3_grid_path};
use super::OSMOptions;
use crate::graph::{INFINITE, MINUTE};
use crate::text::same_text;
use vstd::prelude::*;

verus! {

/// The layers that are built from street ways.
#[derive(Debug, Clone, Copy, PartialEq, Eq, Hash, Structural)]
pub enum OSMLayer {
    Cycling,
    Walking,
}

/// A street way: its tags, each a key with its value, and the cells of its
/// nodes in the order of the way.
#[derive(Debug)]
pub struct Way {
    pub tags: Vec<(String, String)>,
    pub cells: Vec<u64>,
}

/// An edge of a layer between two cells, with its weight.
pub type LayerEdge = ((OSMLayer, u64, u64), u64);

/// The speed on a layer, in millimetres per second.
pub open spec fn speed(layer: OSMLayer) -> int {
    match layer {
        OSMLayer::Cycling => 4500,
        OSMLayer::Walking => 1400,
    }
}

/// What it costs to cover `cell_distance` millimetres on a layer: the time
/// it takes at the speed of the layer, and no passage where that is beyond
/// all costs.
pub open spec fn travel_cost(layer: OSMLayer, cell_distance: u64) -> u64 {
    let exact = cell_distance * MINUTE / (speed(layer) * 60);
    if exact >= INFINITE {
        INFINITE
    } else {
        exact as u64
    }
}

/// The number of a layer: -2 for cycling, -1 for walking.
pub open spec fn layer_id(layer: OSMLayer) -> i16 {
    match layer {
        OSMLayer::Cycling => -2i16,
        OSMLayer::Walking => -1i16,
    }
}

/// Whether a way with a tag of key `tag` may belong to a layer at all.
pub open spec fn is_required_tag(tag: Seq<char>, layer: OSMLayer) -> bool {
    match layer {
        OSMLayer::Cycling => tag == "cycleway"@ || tag == "bicycle"@ || tag == "bicycle_road"@,
        OSMLayer::Walking => tag == "highway"@,
    }
}

/// Whether a tag lets a way belong to a layer.
///
/// * `highway`: not a motorway, a trunk road, a link to one, a prohibited
///   road or a road under construction
/// * `access`: neither private nor none
/// * `foot`, for walking: neither private nor none
/// * `bicycle`, for cycling: neither private nor none
/// * `cycleway`, for cycling: not shared, and not none
/// * `bicycle_road`: only for cycling
/// * any other tag: always
pub open spec fn tag_allows(tag: Seq<char>, value: Seq<char>, layer: OSMLayer) -> bool {
    if tag == "highway"@ {
        !(value == "motorway"@ || value == "motorway_link"@ || value == "prohibited"@ || value
            == "trunk"@ || value == "trunk_link"@ || value == "construction"@)
    } else if tag == "access"@ {
        !(value == "private"@ || value == "no"@)
    } else if tag == "foot"@ {
        layer == OSMLayer::Walking ==> !(value == "private"@ || value == "no"@)
    } else if tag == "bicycle"@ {
        layer == OSMLayer::Cycling ==> !(value == "private"@ || value == "no"@ || value == "none"@)
    } else if tag == "cycleway"@ {
        layer == OSMLayer::Cycling ==> !(value == "shared"@ || value == "no"@ || value == "none"@)
    } else if tag == "bicycle_road"@ {
        layer == OSMLayer::Cycling
    } else {
        true
    }
}

/// Whether a way with these tags belongs to a layer: one of its tags is
/// required by the layer, it has a `highway` tag, and every tag allows it.
pub open spec fn is_eligible(tags: Seq<(String, String)>, layer: OSMLayer) -> bool {
    &&& exists|i: int| 0 <= i < tags.len() && is_required_tag((#[trigger] tags[i]).0@, layer)
    &&& exists|i: int| 0 <= i < tags.len() && (#[trigger] tags[i]).0@ == "highway"@
    &&& forall|i: int| 0 <= i < tags.len() ==> tag_allows((#[trigger] tags[i]).0@, tags[i].1@, layer)
}

/// The cells among `cells`, in their order.
pub open spec fn present(cells: Seq<Option<u64>>) -> Seq<u64>
    decreases cells.len(),
{
    if cells.len() == 0 {
        Seq::empty()
    } else {
        match cells.last() {
            Some(c) => present(cells.drop_last()).push(c),
            None => present(cells.drop_last()),
        }
    }
}

/// The cells along a way: for each pair of nodes that follow each other,
/// the line of cells from the one to the other, one line after the other.
pub open spec fn line_points(cells: Seq<u64>) -> Seq<u64>
    decreases cells.len(),
{
    if cells.len() < 2 {
        Seq::empty()
    } else {
        line_points(cells.drop_last()) + present(
            h3_grid_path(cells[cells.len() - 2], cells.last()),
        )
    }
}

/// The edges along a line of cells: one from each cell to the next, but
/// none from a cell to itself.
pub open spec fn edges_between(points: Seq<u64>, layer: OSMLayer, weight: u64) -> Seq<LayerEdge>
    decreases points.len(),
{
    if points.len() < 2 {
        Seq::empty()
    } else {
        let before = edges_between(points.drop_last(), layer, weight);
        if points[points.len() - 2] != points.last() {
            before.push(((layer, points[points.len() - 2], points.last()), weight))
        } else {
            before
        }
    }
}

/// The layers that ways are read for: the one asked for, else cycling and
/// then walking.
pub open spec fn layers_of(choice: Option<OSMLayer>) -> Seq<OSMLayer> {
    match choice {
        Some(l) => seq![l],
        None => seq![OSMLayer::Cycling, OSMLayer::Walking],
    }
}

/// The edges that a way gives to the first `upto` of the layers.
pub open spec fn way_output(way: Way, layers: Seq<OSMLayer>, cell_distance: u64, upto: int) -> Seq<
    LayerEdge,
>
    decreases upto,
{
    if upto <= 0 {
        Seq::empty()
    } else {
        let layer = layers[upto - 1];
        way_output(way, layers, cell_distance, upto - 1) + if is_eligible(way.tags@, layer) {
            edges_between(line_points(way.cells@), layer, travel_cost(layer, cell_distance))
        } else {
            Seq::empty()
        }
    }
}

/// The edges that the first `upto` ways give to the layers.
pub open spec fn ways_output(
    ways: Seq<Way>,
    layers: Seq<OSMLayer>,
    cell_distance: u64,
    upto: int,
) -> Seq<LayerEdge>
    decreases upto,
{
    if upto <= 0 {
        Seq::empty()
    } else {
        ways_output(ways, layers, cell_distance, upto - 1) + way_output(
            ways[upto - 1],
            layers,
            cell_distance,
            layers.len() as int,
        )
    }
}

impl OSMLayer {
    /// The weight of an edge between two neighbouring cells whose centres
    /// lie `cell_distance` millimetres apart.
    pub fn get_weight(&self, cell_distance: u64) -> (w: u64)
        ensures
            w == travel_cost(*self, cell_distance),
    {
        let per_minute: u128 = match self {
            OSMLayer::Cycling => 4500 * 60,
            OSMLayer::Walking => 1400 * 60,
        };
        assert(cell_distance * MINUTE <= u64::MAX * 1_000_000) by (nonlinear_arith)
            requires
                cell_distance <= u64::MAX,
                MINUTE == 1_000_000,
        ;
        let exact: u128 = (cell_distance as u128) * (MINUTE as u128) / per_minute;
        if exact >= INFINITE as u128 {
            INFINITE
        } else {
            exact as u64
        }
    }

    /// The tag keys of which a way needs at least one to belong to the
    /// layer.
    pub fn get_required_tags(&self) -> (tags: Vec<&'static str>)
        ensures
            forall|tag: Seq<char>|
                is_required_tag(tag, *self) <==> exists|i: int|
                    0 <= i < tags@.len() && (#[trigger] tags@[i])@ == tag,
            match *self {
                OSMLayer::Cycling => tags@.len() == 3 && tags@[0]@ == "cycleway"@ && tags@[1]@
                    == "bicycle"@ && tags@[2]@ == "bicycle_road"@,
                OSMLayer::Walking => tags@.len() == 1 && tags@[0]@ == "highway"@,
            },
    {
        let mut tags: Vec<&'static str> = Vec::new();
        match self {
            OSMLayer::Cycling => {
                tags.push("cycleway");
                tags.push("bicycle");
                tags.push("bicycle_road");
                assert forall|tag: Seq<char>| is_required_tag(tag, *self) implies exists|i: int|
                    0 <= i < tags@.len() && (#[trigger] tags@[i])@ == tag by {
                    if tag == "cycleway"@ {
                        assert(tags@[0]@ == tag);
                    } else if tag == "bicycle"@ {
                        assert(tags@[1]@ == tag);
                    } else {
                        assert(tags@[2]@ == tag);
                    }
                }
            },
            OSMLayer::Walking => {
                tags.push("highway");
                assert forall|tag: Seq<char>| is_required_tag(tag, *self) implies exists|i: int|
                    0 <= i < tags@.len() && (#[trigger] tags@[i])@ == tag by {
                    assert(tags@[0]@ == tag);
                }
            },
        }
        tags
    }

    /// The number of the layer in the graph.
    pub fn get_id(&self) -> (id: i16)
        ensures
            id == layer_id(*self),
    {
        match self {
            OSMLayer::Cycling => -2,
            OSMLayer::Walking => -1,
        }
    }

    /// Whether a way with a tag of key `tag` may belong to the layer at all.
    pub fn requires_tag(&self, tag: &str) -> (r: bool)
        ensures
            r == is_required_tag(tag@, *self),
    {
        match self {
            OSMLayer::Cycling => same_text(tag, "cycleway") || same_text(tag, "bicycle")
                || same_text(tag, "bicycle_road"),
            OSMLayer::Walking => same_text(tag, "highway"),
        }
    }
}

/// Whether the tag `tag` with value `value` lets a way belong to `layer`.
pub fn tag_value_matches(tag: &str, value: &str, layer: &OSMLayer) -> (r: bool)
    ensures
        r == tag_allows(tag@, value@, *layer),
{
    if same_text(tag, "highway") {
        !(same_text(value, "motorway") || same_text(value, "motorway_link") || same_text(
            value,
            "prohibited",
        ) || same_text(value, "trunk") || same_text(value, "trunk_link") || same_text(
            value,
            "construction",
        ))
    } else if same_text(tag, "access") {
        !(same_text(value, "private") || same_text(value, "no"))
    } else if same_text(tag, "foot") {
        match layer {
            OSMLayer::Walking => !(same_text(value, "private") || same_text(value, "no")),
            OSMLayer::Cycling => true,
        }
    } else if same_text(tag, "bicycle") {
        match layer {
            OSMLayer::Cycling => !(same_text(value, "private") || same_text(value, "no")
                || same_text(value, "none")),
            OSMLayer::Walking => true,
        }
    } else if same_text(tag, "cycleway") {
        match layer {
            OSMLayer::Cycling => !(same_text(value, "shared") || same_text(value, "no")
                || same_text(value, "none")),
            OSMLayer::Walking => true,
        }
    } else if same_text(tag, "bicycle_road") {
        match layer {
            OSMLayer::Cycling => true,
            OSMLayer::Walking => false,
        }
    } else {
        true
    }
}

/// Whether a way with these tags belongs to `layer`.
pub fn way_is_eligible(tags: &Vec<(String, String)>, layer: &OSMLayer) -> (r: bool)
    ensures
        r == is_eligible(tags@, *layer),
{
    let mut required = false;
    let mut highway = false;
    let mut i: usize = 0;
    while i < tags.len()
        invariant
            i <= tags@.len(),
            required == exists|k: int|
                0 <= k < i && is_required_tag((#[trigger] tags@[k]).0@, *layer),
            highway == exists|k: int| 0 <= k < i && (#[trigger] tags@[k]).0@ == "highway"@,
            forall|k: int| 0 <= k < i ==> tag_allows((#[trigger] tags@[k]).0@, tags@[k].1@, *layer),
        decreases tags@.len() - i,
    {
        let key = tags[i].0.as_str();
        let value = tags[i].1.as_str();
        if !tag_value_matches(key, value, layer) {
            return false;
        }
        if layer.requires_tag(key) {
            required = true;
        }
        if same_text(key, "highway") {
            highway = true;
        }
        i += 1;
    }
    required && highway
}

/// The cells among `cells`, in their order.
pub fn cells_present(cells: &Vec<Option<u64>>) -> (out: Vec<u64>)
    ensures
        out@ == present(cells@),
{
    let mut out: Vec<u64> = Vec::new();
    let mut i: usize = 0;
    while i < cells.len()
        invariant
            i <= cells@.len(),
            out@ == present(cells@.subrange(0, i as int)),
        decreases cells@.len() - i,
    {
        assert(cells@.subrange(0, i + 1).drop_last() =~= cells@.subrange(0, i as int));
        match cells[i] {
            Some(c) => out.push(c),
            None => {},
        }
        i += 1;
    }
    assert(cells@.subrange(0, cells@.len() as int) =~= cells@);
    out
}

/// The cells along a way whose nodes lie in `cells`: the lines of cells
/// between nodes that follow each other, one line after the other.
pub fn way_points(cells: &Vec<u64>) -> (points: Vec<u64>)
    ensures
        points@ == line_points(cells@),
{
    let mut points: Vec<u64> = Vec::new();
    if cells.len() < 2 {
        return points;
    }
    let mut i: usize = 1;
    assert(line_points(cells@.subrange(0, 1)) =~= Seq::<u64>::empty());
    while i < cells.len()
        invariant
            1 <= i <= cells@.len(),
            points@ == line_points(cells@.subrange(0, i as int)),
        decreases cells@.len() - i,
    {
        let line = grid_path(cells[i - 1], cells[i]);
        let mut part = cells_present(&line);
        proof {
            let upto = cells@.subrange(0, i + 1);
            assert(upto.drop_last() =~= cells@.subrange(0, i as int));
            assert(upto[upto.len() - 2] == cells@[i - 1] && upto.last() == cells@[i as int]);
        }
        points.append(&mut part);
        i += 1;
    }
    assert(cells@.subrange(0, cells@.len() as int) =~= cells@);
    points
}

/// The edges of `layer` along a line of cells: one from each cell to the
/// next, but none from a cell to itself.
pub fn edges_along(points: &Vec<u64>, layer: OSMLayer, weight: u64) -> (edges: Vec<LayerEdge>)
    ensures
        edges@ == edges_between(points@, layer, weight),
{
    let mut edges: Vec<LayerEdge> = Vec::new();
    if points.len() < 2 {
        return edges;
    }
    let mut i: usize = 1;
    assert(edges_between(points@.subrange(0, 1), layer, weight) =~= Seq::<LayerEdge>::empty());
    while i < points.len()
        invariant
            1 <= i <= points@.len(),
            edges@ == edges_between(points@.subrange(0, i as int), layer, weight),
        decreases points@.len() - i,
    {
        proof {
            let upto = points@.subrange(0, i + 1);
            assert(upto.drop_last() =~= points@.subrange(0, i as int));
            assert(upto[upto.len() - 2] == points@[i - 1] && upto.last() == points@[i as int]);
        }
        if points[i - 1] != points[i] {
            edges.push(((layer, points[i - 1], points[i]), weight));
        }
        i += 1;
    }
    assert(points@.subrange(0, points@.len() as int) =~= points@);
    edges
}

/// Turns street ways into the edges of the walking and cycling layers.
///
/// Each way gives its edges to every layer it belongs to, of those that
/// `options` asks for: between each two of its nodes that follow each other
/// the line of cells is drawn, and each step along these lines becomes an
/// edge whose weight is the time it takes to cover `cell_distance`
/// millimetres on the layer.
pub fn process_osm_pbf(ways: &Vec<Way>, options: &OSMOptions, cell_distance: u64) -> (edges: Vec<
    LayerEdge,
>)
    ensures
        edges@ == ways_output(
            ways@,
            layers_of(options.osm_layer),
            cell_distance,
            ways@.len() as int,
        ),
{
    let mut layers: Vec<OSMLayer> = Vec::new();
    match options.osm_layer {
        Some(l) => {
            layers.push(l);
        },
        None => {
            layers.push(OSMLayer::Cycling);
            layers.push(OSMLayer::Walking);
        },
    }
    assert(layers@ =~= layers_of(options.osm_layer));
    let mut edges: Vec<LayerEdge> = Vec::new();
    let mut i: usize = 0;
    while i < ways.len()
        invariant
            i <= ways@.len(),
            layers@ == layers_of(options.osm_layer),
            edges@ == ways_output(ways@, layers@, cell_distance, i as int),
        decreases ways@.len() - i,
    {
        let way = &ways[i];
        let ghost before = edges@;
        let mut k: usize = 0;
        while k < layers.len()
            invariant
                k <= layers@.len(),
                i < ways@.len(),
                *way == ways@[i as int],
                edges@ == before + way_output(*way, layers@, cell_distance, k as int),
            decreases layers@.len() - k,
        {
            let layer = layers[k];
            if way_is_eligible(&way.tags, &layer) {
                let points = way_points(&way.cells);
                let mut part = edges_along(&points, layer, layer.get_weight(cell_distance));
                edges.append(&mut part);
            }
            assert(edges@ =~= before + way_output(*way, layers@, cell_distance, k + 1));
            k += 1;
        }
        i += 1;
    }
    edges
}

} // verus!
