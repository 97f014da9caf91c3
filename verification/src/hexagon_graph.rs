//! Graphs whose nodes are hexagonal cells on a layer.

pub mod cell;
pub mod gtfs;
pub mod h3cell;
pub mod osm;

use self::cell::{all_directions, direction_at, Direction, HexCell};
use self::gtfs::{lemma_pair_key, pair_key, GtfsProcessingResult, RideEdge, StopFrequency};
use self::h3cell::{
    edge_between, grid_ring, h3_edge, h3_grid_ring, h3_is_cell, is_cell, H3Cell, MAX_RING,
};
use self::gtfs::{
    feed_rides, frequencies_ok, in_order, lists, process_gtfs, total_count, GtfsFeed,
};
use self::osm::{layer_id, process_osm_pbf, ways_output, layers_of, LayerEdge, OSMLayer, Way};
use crate::matrix::{lemma_unique_origins, named_in, origins_searched, unique_origins};
use crate::paths::hour_valid;
use crate::text::same_text;
use crate::search::{gives_only, is_constant, is_total, lemma_any_heuristic, AStarResult};
use crate::graph::{
    acceptable, compare_weight, edge_after, keys_after, lemma_keys_after, lemma_lightest_offer_stays,
    lemma_made_of, lemma_made_of_touches, lemma_offer_none, offers_touch, Edge, EdgeData, Graph,
    GraphError, NodeKey, Offer, HOURS_PER_WEEK, INFINITE, MINUTE,
};
use std::collections::HashMap;
use vstd::prelude::*;

verus! {

/// How the graph is put together from streets and timetables.
#[derive(Debug, Clone, Copy)]
pub struct OSMOptions {
    /// The one layer to build from streets; both where none is named.
    pub osm_layer: Option<OSMLayer>,
    /// Whether timetables are added.
    pub gtfs_layer: bool,
    pub weight_modifier: WeightModifier,
}

/// The weights that can be tuned.
#[derive(Debug, Clone, Copy)]
pub struct WeightModifier {
    /// What it costs to change between the cycling and the walking layer.
    pub bike_penalty: u64,
    /// By how many thousandths the time of waiting for a departure counts.
    pub wait_time_multiplier: u64,
    /// The walking speed in millimetres per second.
    pub walk_speed: u64,
    /// The cycling speed in millimetres per second.
    pub bike_speed: u64,
}

impl Default for WeightModifier {
    fn default() -> (w: Self)
        ensures
            w.bike_penalty == MINUTE,
            w.wait_time_multiplier == 1000,
            w.walk_speed == 1400,
            w.bike_speed == 4500,
    {
        WeightModifier {
            bike_penalty: MINUTE,
            wait_time_multiplier: 1000,
            walk_speed: 1400,
            bike_speed: 4500,
        }
    }
}

impl Default for OSMOptions {
    fn default() -> (o: Self)
        ensures
            o.osm_layer is None,
            o.gtfs_layer,
            o.weight_modifier.bike_penalty == MINUTE,
            o.weight_modifier.wait_time_multiplier == 1000,
            o.weight_modifier.walk_speed == 1400,
            o.weight_modifier.bike_speed == 4500,
    {
        OSMOptions { osm_layer: None, gtfs_layer: true, weight_modifier: WeightModifier::default() }
    }
}

/// What an edge without a weight list and a capacity carries.
pub open spec fn plain(weight: Option<u64>) -> EdgeData {
    EdgeData { weight, weight_list: None, capacity: None }
}

/// The edges from a cell to its neighbours in the first `upto` of the
/// directions, as far as the neighbours lie within the coordinate range.
pub open spec fn cell_offers(cell: HexCell, directions: Seq<Direction>, weight: Option<u64>, upto: int) -> Seq<
    Offer<HexCell>,
>
    decreases upto,
{
    if upto <= 0 {
        Seq::empty()
    } else {
        let before = cell_offers(cell, directions, weight, upto - 1);
        if cell.has_neighbor(directions[upto - 1]) {
            before.push(
                Offer {
                    from: cell,
                    to: cell.spec_neighbor(directions[upto - 1]),
                    data: plain(weight),
                },
            )
        } else {
            before
        }
    }
}

/// The edges of the first `upto` transitions.
pub open spec fn transition_offers(transitions: Seq<(HexCell, HexCell, u64)>, upto: int) -> Seq<
    Offer<HexCell>,
>
    decreases upto,
{
    if upto <= 0 {
        Seq::empty()
    } else {
        transition_offers(transitions, upto - 1).push(
            Offer {
                from: transitions[upto - 1].0,
                to: transitions[upto - 1].1,
                data: plain(Some(transitions[upto - 1].2)),
            },
        )
    }
}

/// The edges that one edge of a street layer gives to the graph: the edge
/// itself in both directions and, for a cycling edge, the changes between
/// the cycling and the walking layer at both of its ends, in both
/// directions.
pub open spec fn street_offers(edge: LayerEdge, penalty: u64) -> Seq<Offer<H3Cell>> {
    let from = H3Cell { cell: edge.0.1, layer: layer_id(edge.0.0) };
    let to = H3Cell { cell: edge.0.2, layer: layer_id(edge.0.0) };
    let from_base = H3Cell { cell: edge.0.1, layer: -1i16 };
    let to_base = H3Cell { cell: edge.0.2, layer: -1i16 };
    let both = seq![
        Offer { from, to, data: plain(Some(edge.1)) },
        Offer { from: to, to: from, data: plain(Some(edge.1)) },
    ];
    if edge.0.0 == OSMLayer::Cycling {
        both + seq![
            Offer { from, to: from_base, data: plain(Some(penalty)) },
            Offer { from: to, to: to_base, data: plain(Some(penalty)) },
            Offer { from: from_base, to: from, data: plain(Some(penalty)) },
            Offer { from: to_base, to, data: plain(Some(penalty)) },
        ]
    } else {
        both
    }
}

/// The edges that the first `upto` edges of the street layers give to the
/// graph.
pub open spec fn osm_offers(edges: Seq<LayerEdge>, penalty: u64, upto: int) -> Seq<Offer<H3Cell>>
    decreases upto,
{
    if upto <= 0 {
        Seq::empty()
    } else {
        osm_offers(edges, penalty, upto - 1) + street_offers(edges[upto - 1], penalty)
    }
}

impl Graph<HexCell> {
    /// Connects a cell with its neighbours in the given directions; the
    /// nodes are created where the graph lacks them. A direction that leads
    /// out of the coordinate range is passed over.
    pub fn connect_cell(&mut self, cell: HexCell, neighbors: &[Direction], weight: Option<u64>)
        requires
            old(self).wf(),
        ensures
            final(self).built_from(
                old(self),
                cell_offers(cell, neighbors@, weight, neighbors@.len() as int),
            ),
    {
        let ghost start = *self;
        proof {
            lemma_offer_none(&start);
        }
        let mut i: usize = 0;
        while i < neighbors.len()
            invariant
                i <= neighbors@.len(),
                self.built_from(&start, cell_offers(cell, neighbors@, weight, i as int)),
            decreases neighbors@.len() - i,
        {
            match cell.try_neighbor(neighbors[i]) {
                Some(neighbor) => {
                    self.offer(
                        cell,
                        neighbor,
                        weight,
                        None,
                        None,
                        Ghost(&start),
                        Ghost(cell_offers(cell, neighbors@, weight, i as int)),
                    );
                },
                None => {},
            }
            i += 1;
        }
    }
}

/// The graph of flat hexagon cells with the given transitions as its edges.
pub fn cell_graph_from_mpk(transitions: &Vec<(HexCell, HexCell, u64)>) -> (g: Graph<HexCell>)
    ensures
        g.made_of(transition_offers(transitions@, transitions@.len() as int)),
{
    let mut graph = Graph::<HexCell>::new();
    let ghost start = graph;
    proof {
        lemma_offer_none(&start);
    }
    let mut i: usize = 0;
    while i < transitions.len()
        invariant
            i <= transitions@.len(),
            graph.built_from(&start, transition_offers(transitions@, i as int)),
        decreases transitions@.len() - i,
    {
        let t = transitions[i];
        graph.offer(
            t.0,
            t.1,
            Some(t.2),
            None,
            None,
            Ghost(&start),
            Ghost(transition_offers(transitions@, i as int)),
        );
        i += 1;
    }
    proof {
        lemma_made_of(&graph, &start, transition_offers(transitions@, transitions@.len() as int));
    }
    graph
}

/// The graph of the street layers: every edge in both directions, and for
/// every cycling edge the changes between cycling and walking at its ends,
/// each at the cost that `options` sets for them.
pub fn h3_network_from_osm(edge_data: &Vec<LayerEdge>, options: &OSMOptions) -> (g: Graph<H3Cell>)
    ensures
        g.made_of(
            osm_offers(edge_data@, options.weight_modifier.bike_penalty, edge_data@.len() as int),
        ),
{
    let penalty = options.weight_modifier.bike_penalty;
    let mut graph = Graph::<H3Cell>::new();
    let ghost start = graph;
    proof {
        lemma_offer_none(&start);
    }
    let mut i: usize = 0;
    while i < edge_data.len()
        invariant
            i <= edge_data@.len(),
            graph.built_from(&start, osm_offers(edge_data@, penalty, i as int)),
        decreases edge_data@.len() - i,
    {
        let ((layer, from, to), weight) = edge_data[i];
        let ghost done = osm_offers(edge_data@, penalty, i as int);
        let from_cell = H3Cell { cell: from, layer: layer.get_id() };
        let to_cell = H3Cell { cell: to, layer: layer.get_id() };
        // the edge itself, there and back
        graph.offer(from_cell, to_cell, Some(weight), None, None, Ghost(&start), Ghost(done));
        let ghost one = done.push(Offer { from: from_cell, to: to_cell, data: plain(Some(weight)) });
        graph.offer(to_cell, from_cell, Some(weight), None, None, Ghost(&start), Ghost(one));
        let ghost two = one.push(Offer { from: to_cell, to: from_cell, data: plain(Some(weight)) });
        match layer {
            OSMLayer::Cycling => {
                // the changes between cycling and walking at both ends
                let from_base = H3Cell { cell: from, layer: -1 };
                let to_base = H3Cell { cell: to, layer: -1 };
                graph.offer(from_cell, from_base, Some(penalty), None, None, Ghost(&start), Ghost(two));
                let ghost three = two.push(
                    Offer { from: from_cell, to: from_base, data: plain(Some(penalty)) },
                );
                graph.offer(to_cell, to_base, Some(penalty), None, None, Ghost(&start), Ghost(three));
                let ghost four = three.push(
                    Offer { from: to_cell, to: to_base, data: plain(Some(penalty)) },
                );
                graph.offer(from_base, from_cell, Some(penalty), None, None, Ghost(&start), Ghost(four));
                let ghost five = four.push(
                    Offer { from: from_base, to: from_cell, data: plain(Some(penalty)) },
                );
                graph.offer(to_base, to_cell, Some(penalty), None, None, Ghost(&start), Ghost(five));
                proof {
                    let six = five.push(
                        Offer { from: to_base, to: to_cell, data: plain(Some(penalty)) },
                    );
                    assert(six =~= done + street_offers(edge_data@[i as int], penalty));
                }
            },
            OSMLayer::Walking => {
                proof {
                    assert(two =~= done + street_offers(edge_data@[i as int], penalty));
                }
            },
        }
        i += 1;
    }
    proof {
        lemma_made_of(&graph, &start, osm_offers(edge_data@, penalty, edge_data@.len() as int));
    }
    graph
}

/// Whether `offer` is among the offers.
pub open spec fn holds_offer(offers: Seq<Offer<H3Cell>>, offer: Offer<H3Cell>) -> bool {
    exists|idx: int| 0 <= idx < offers.len() && #[trigger] offers[idx] == offer
}

/// Whether `offer` is one of those that one of the first `upto` edges of the
/// street layers gives.
pub open spec fn is_street_offer(
    edges: Seq<LayerEdge>,
    penalty: u64,
    upto: int,
    offer: Offer<H3Cell>,
) -> bool {
    exists|i: int, m: int|
        0 <= i < upto && 0 <= m < street_offers(edges[i], penalty).len() && #[trigger] street_offers(
            edges[i],
            penalty,
        )[m] == offer
}

/// Whether `k` is the key of an end of one of the edges of the street
/// layers, on the layer of the edge or, for a cycling edge, on the walking
/// layer.
pub open spec fn is_street_key(edges: Seq<LayerEdge>, k: (u64, i16)) -> bool {
    exists|i: int|
        0 <= i < edges.len() && (k.0 == (#[trigger] edges[i]).0.1 || k.0 == edges[i].0.2) && (k.1
            == layer_id(edges[i].0.0) || (edges[i].0.0 == OSMLayer::Cycling && k.1 == -1))
}

/// What an edge of the street layers gives is among what all of them give.
pub proof fn lemma_osm_offers_hold(edges: Seq<LayerEdge>, penalty: u64, upto: int, i: int, m: int)
    requires
        0 <= i < upto <= edges.len(),
        0 <= m < street_offers(edges[i], penalty).len(),
    ensures
        holds_offer(osm_offers(edges, penalty, upto), street_offers(edges[i], penalty)[m]),
    decreases upto,
{
    let before = osm_offers(edges, penalty, upto - 1);
    let part = street_offers(edges[upto - 1], penalty);
    let all = osm_offers(edges, penalty, upto);
    if i < upto - 1 {
        lemma_osm_offers_hold(edges, penalty, upto - 1, i, m);
        let idx = choose|idx: int|
            0 <= idx < before.len() && #[trigger] before[idx] == street_offers(edges[i], penalty)[m];
        assert(all[idx] == before[idx]);
    } else {
        assert(all[before.len() + m] == part[m]);
    }
}

/// What the edges of the street layers give together, one of them gives.
pub proof fn lemma_osm_offers_from(edges: Seq<LayerEdge>, penalty: u64, upto: int, idx: int)
    requires
        0 <= upto <= edges.len(),
        0 <= idx < osm_offers(edges, penalty, upto).len(),
    ensures
        is_street_offer(edges, penalty, upto, osm_offers(edges, penalty, upto)[idx]),
    decreases upto,
{
    let before = osm_offers(edges, penalty, upto - 1);
    let part = street_offers(edges[upto - 1], penalty);
    let all = osm_offers(edges, penalty, upto);
    if idx < before.len() {
        lemma_osm_offers_from(edges, penalty, upto - 1, idx);
        let (i, m) = choose|i: int, m: int|
            0 <= i < upto - 1 && 0 <= m < street_offers(edges[i], penalty).len()
                && #[trigger] street_offers(edges[i], penalty)[m] == before[idx];
        assert(street_offers(edges[i], penalty)[m] == all[idx]);
    } else {
        assert(street_offers(edges[upto - 1], penalty)[idx - before.len()] == all[idx]);
    }
}

/// The graph of the street layers has every edge of the layers between two
/// different cells in both directions, at no more than the weight of that
/// edge.
pub proof fn lemma_streets_run_both_ways(
    g: &Graph<H3Cell>,
    edges: Seq<LayerEdge>,
    penalty: u64,
    i: int,
)
    requires
        g.made_of(osm_offers(edges, penalty, edges.len() as int)),
        0 <= i < edges.len(),
        edges[i].0.1 != edges[i].0.2,
    ensures
        ({
            let from = (edges[i].0.1, layer_id(edges[i].0.0));
            let to = (edges[i].0.2, layer_id(edges[i].0.0));
            &&& g.edge_between(from, to) is Some
            &&& g.edge_between(from, to)->0.weight is Some
            &&& g.edge_between(from, to)->0.weight->0 <= edges[i].1
            &&& g.edge_between(to, from) is Some
            &&& g.edge_between(to, from)->0.weight is Some
            &&& g.edge_between(to, from)->0.weight->0 <= edges[i].1
        }),
{
    let offers = osm_offers(edges, penalty, edges.len() as int);
    let from = (edges[i].0.1, layer_id(edges[i].0.0));
    let to = (edges[i].0.2, layer_id(edges[i].0.0));
    let part = street_offers(edges[i], penalty);
    lemma_osm_offers_hold(edges, penalty, edges.len() as int, i, 0);
    lemma_osm_offers_hold(edges, penalty, edges.len() as int, i, 1);
    let there = choose|idx: int| 0 <= idx < offers.len() && #[trigger] offers[idx] == part[0];
    let back = choose|idx: int| 0 <= idx < offers.len() && #[trigger] offers[idx] == part[1];
    assert(acceptable(offers[there]) && acceptable(offers[back]));
    lemma_lightest_offer_stays(offers, from, to, there);
    lemma_lightest_offer_stays(offers, to, from, back);
    lemma_street_weights(edges, penalty, from, to);
    lemma_street_weights(edges, penalty, to, from);
}

/// Every edge that the street layers offer between two keys has a weight.
proof fn lemma_street_weights(
    edges: Seq<LayerEdge>,
    penalty: u64,
    a: (u64, i16),
    b: (u64, i16),
)
    ensures
        forall|d: EdgeData|
            #[trigger] crate::graph::offered_data(
                osm_offers(edges, penalty, edges.len() as int),
                a,
                b,
                d,
            ) ==> d.weight is Some,
{
    let offers = osm_offers(edges, penalty, edges.len() as int);
    assert forall|d: EdgeData| #[trigger]
        crate::graph::offered_data(offers, a, b, d) implies d.weight is Some by {
        let idx = choose|idx: int|
            0 <= idx < offers.len() && acceptable(#[trigger] offers[idx])
                && offers[idx].from.key_spec() == a && offers[idx].to.key_spec() == b
                && offers[idx].data == d;
        lemma_osm_offers_from(edges, penalty, edges.len() as int, idx);
    }
}

/// Every node of the graph of the street layers is an end of one of their
/// edges, on the layer of the edge or, for a cycling edge, on the walking
/// layer.
pub proof fn lemma_street_nodes(g: &Graph<H3Cell>, edges: Seq<LayerEdge>, penalty: u64, k: (u64, i16))
    requires
        g.made_of(osm_offers(edges, penalty, edges.len() as int)),
        g.index().contains_key(k),
    ensures
        is_street_key(edges, k),
{
    let offers = osm_offers(edges, penalty, edges.len() as int);
    lemma_keys_after(Set::<(u64, i16)>::empty(), offers, k);
    let idx = choose|idx: int|
        0 <= idx < offers.len() && ((#[trigger] offers[idx]).from.key_spec() == k
            || offers[idx].to.key_spec() == k);
    lemma_osm_offers_from(edges, penalty, edges.len() as int, idx);
    let (i, m) = choose|i: int, m: int|
        0 <= i < edges.len() && 0 <= m < street_offers(edges[i], penalty).len()
            && #[trigger] street_offers(edges[i], penalty)[m] == offers[idx];
    assert((k.0 == edges[i].0.1 || k.0 == edges[i].0.2) && (k.1 == layer_id(edges[i].0.0) || (
    edges[i].0.0 == OSMLayer::Cycling && k.1 == -1)));
}

/// What it costs to wait for a departure at a stop that is served `freq`
/// times an hour: half the time between two departures, counted by
/// `multiplier` thousandths; and no passage where the stop is not served.
pub open spec fn wait_cost(freq: u64, multiplier: u64) -> u64 {
    if freq == 0 {
        INFINITE
    } else {
        let cost = (60 * MINUTE / (freq as int) / 2) * multiplier / 1000;
        if cost >= INFINITE {
            INFINITE
        } else {
            cost as u64
        }
    }
}

/// The highest frequency of a list, and 1 where none is higher.
pub open spec fn most(list: Seq<u64>) -> u64
    decreases list.len(),
{
    if list.len() == 0 {
        1
    } else if list.last() > most(list.drop_last()) {
        list.last()
    } else {
        most(list.drop_last())
    }
}

/// The cost of waiting in each hour for which `list` gives the frequency.
pub open spec fn wait_list(list: Seq<u64>, multiplier: u64) -> Seq<u64> {
    Seq::new(list.len(), |h: int| wait_cost(list[h], multiplier))
}

/// The place of the first entry of the table for a cell and a layer.
pub open spec fn first_place(table: Seq<StopFrequency>, cell: u64, r: usize) -> Option<int>
    decreases table.len(),
{
    if table.len() == 0 {
        None
    } else {
        match first_place(table.drop_last(), cell, r) {
            Some(p) => Some(p),
            None => if table.last().0 == (cell, r) {
                Some(table.len() - 1)
            } else {
                None
            },
        }
    }
}

/// What the edge carries that leads from the walking layer onto the layer
/// of a route at a stop: where the frequencies of the stop are known for
/// each hour of the week, the cost of waiting in each hour, and as its
/// weight that of the hour served best; five minutes otherwise.
pub open spec fn boarding(table: Seq<StopFrequency>, cell: u64, r: usize, multiplier: u64) -> EdgeData {
    match first_place(table, cell, r) {
        Some(p) => if table[p].1@.len() == HOURS_PER_WEEK {
            EdgeData {
                weight: Some(wait_cost(most(table[p].1@), multiplier)),
                weight_list: Some(wait_list(table[p].1@, multiplier)),
                capacity: None,
            }
        } else {
            plain(Some((5 * MINUTE) as u64))
        },
        None => plain(Some((5 * MINUTE) as u64)),
    }
}

/// The edges that one ride gives to the graph: the edge onto the layer of
/// the route at the first stop, the ride itself, and the edge back to the
/// walking layer at the first stop, which costs a minute. A ride whose
/// layer is beyond the numbers of layers gives none.
pub open spec fn ride_offers(ride: RideEdge, table: Seq<StopFrequency>, multiplier: u64) -> Seq<
    Offer<H3Cell>,
> {
    if ride.0.0 <= i16::MAX {
        let from = H3Cell { cell: ride.0.1, layer: ride.0.0 as i16 };
        let to = H3Cell { cell: ride.0.2, layer: ride.0.0 as i16 };
        let base = H3Cell { cell: ride.0.1, layer: -1i16 };
        seq![
            Offer { from: base, to: from, data: boarding(table, ride.0.1, ride.0.0, multiplier) },
            Offer { from, to, data: plain(Some(ride.1)) },
            Offer { from, to: base, data: plain(Some(MINUTE)) },
        ]
    } else {
        Seq::empty()
    }
}

/// The edges that the first `upto` rides give to the graph.
pub open spec fn gtfs_offers(
    rides: Seq<RideEdge>,
    table: Seq<StopFrequency>,
    multiplier: u64,
    upto: int,
) -> Seq<Offer<H3Cell>>
    decreases upto,
{
    if upto <= 0 {
        Seq::empty()
    } else {
        gtfs_offers(rides, table, multiplier, upto - 1) + ride_offers(
            rides[upto - 1],
            table,
            multiplier,
        )
    }
}

/// The cost of waiting at a stop that is served `freq` times an hour.
pub fn waiting_cost(freq: u64, multiplier: u64) -> (c: u64)
    ensures
        c == wait_cost(freq, multiplier),
{
    if freq == 0 {
        return INFINITE;
    }
    let half: u128 = (60 * MINUTE as u128) / (freq as u128) / 2;
    assert(half <= 30_000_000);
    assert(half * multiplier <= 30_000_000 * 0xffff_ffff_ffff_ffff) by (nonlinear_arith)
        requires
            half <= 30_000_000,
            multiplier <= 0xffff_ffff_ffff_ffff,
    ;
    let cost: u128 = half * (multiplier as u128) / 1000;
    if cost >= INFINITE as u128 {
        INFINITE
    } else {
        cost as u64
    }
}

/// The highest frequency of a list, and 1 where none is higher.
pub fn highest_frequency(list: &Vec<u64>) -> (m: u64)
    ensures
        m == most(list@),
{
    let mut m: u64 = 1;
    let mut i: usize = 0;
    assert(list@.subrange(0, 0) =~= Seq::<u64>::empty());
    while i < list.len()
        invariant
            i <= list@.len(),
            m == most(list@.subrange(0, i as int)),
        decreases list@.len() - i,
    {
        assert(list@.subrange(0, i + 1).drop_last() =~= list@.subrange(0, i as int));
        if list[i] > m {
            m = list[i];
        }
        i += 1;
    }
    assert(list@.subrange(0, list@.len() as int) =~= list@);
    m
}

/// No entry before a first place names the pair, and the entry there does;
/// where there is no first place, no entry names it.
pub proof fn lemma_first_place(table: Seq<StopFrequency>, cell: u64, r: usize)
    ensures
        match first_place(table, cell, r) {
            Some(p) => 0 <= p < table.len() && table[p].0 == (cell, r) && forall|q: int|
                0 <= q < p ==> (#[trigger] table[q]).0 != (cell, r),
            None => forall|q: int| 0 <= q < table.len() ==> (#[trigger] table[q]).0 != (cell, r),
        },
    decreases table.len(),
{
    if table.len() > 0 {
        lemma_first_place(table.drop_last(), cell, r);
        match first_place(table.drop_last(), cell, r) {
            Some(p) => {
                assert(table[p] == table.drop_last()[p]);
                assert forall|q: int| 0 <= q < p implies (#[trigger] table[q]).0 != (cell, r) by {
                    assert(table[q] == table.drop_last()[q]);
                }
            },
            None => {
                assert forall|q: int| 0 <= q < table.len() - 1 implies (#[trigger] table[q]).0 != (
                    cell,
                    r,
                ) by {
                    assert(table[q] == table.drop_last()[q]);
                }
            },
        }
    }
}

/// For each cell and layer the place of its first entry in the table.
fn frequency_index(table: &Vec<StopFrequency>) -> (index: HashMap<u128, usize>)
    ensures
        forall|cell: u64, r: usize|
            match first_place(table@, cell, r) {
                Some(p) => index@.contains_key(#[trigger] pair_key(cell, r)) && index@[pair_key(
                    cell,
                    r,
                )] == p,
                None => !index@.contains_key(pair_key(cell, r)),
            },
{
    broadcast use vstd::std_specs::hash::group_hash_axioms;

    let mut index: HashMap<u128, usize> = HashMap::new();
    let mut i: usize = 0;
    assert(table@.subrange(0, 0) =~= Seq::<StopFrequency>::empty());
    while i < table.len()
        invariant
            i <= table@.len(),
            forall|k: u128| #[trigger]
                index@.contains_key(k) ==> exists|p: int|
                    0 <= p < i && pair_key((#[trigger] table@[p]).0.0, table@[p].0.1) == k,
            forall|cell: u64, r: usize|
                match first_place(table@.subrange(0, i as int), cell, r) {
                    Some(p) => index@.contains_key(#[trigger] pair_key(cell, r)) && index@[pair_key(
                        cell,
                        r,
                    )] == p,
                    None => !index@.contains_key(pair_key(cell, r)),
                },
        decreases table@.len() - i,
    {
        let (cell, r) = table[i].0;
        let key = (cell as u128) * 0x1_0000_0000_0000_0000 + (r as u128);
        assert(key == pair_key(cell, r)) by {
            assert(cell * 0x1_0000_0000_0000_0000 + r <= u128::MAX) by (nonlinear_arith)
                requires
                    0 <= cell <= 0xffff_ffff_ffff_ffff,
                    0 <= r <= 0xffff_ffff_ffff_ffff,
            ;
        }
        let ghost before = index@;
        let ghost seen = table@.subrange(0, i as int);
        let ghost next = table@.subrange(0, i + 1);
        proof {
            assert(next.drop_last() =~= seen);
            assert(next.last() == table@[i as int]);
        }
        if !index.contains_key(&key) {
            index.insert(key, i);
        }
        proof {
            assert forall|k: u128| #[trigger] index@.contains_key(k) implies exists|p: int|
                0 <= p < i + 1 && pair_key((#[trigger] table@[p]).0.0, table@[p].0.1) == k by {
                if before.contains_key(k) {
                    let p = choose|p: int|
                        0 <= p < i && pair_key((#[trigger] table@[p]).0.0, table@[p].0.1) == k;
                    assert(pair_key(table@[p].0.0, table@[p].0.1) == k);
                } else {
                    assert(pair_key(table@[i as int].0.0, table@[i as int].0.1) == k);
                }
            }
            assert forall|c: u64, q: usize|
                match first_place(next, c, q) {
                    Some(p) => index@.contains_key(#[trigger] pair_key(c, q)) && index@[pair_key(
                        c,
                        q,
                    )] == p,
                    None => !index@.contains_key(pair_key(c, q)),
                } by {
                lemma_first_place(seen, c, q);
                if pair_key(c, q) == key {
                    lemma_pair_key(c, q, cell, r);
                    if first_place(seen, c, q) is None && before.contains_key(key) {
                        let p = choose|p: int|
                            0 <= p < i && pair_key((#[trigger] table@[p]).0.0, table@[p].0.1)
                                == key;
                        lemma_pair_key(table@[p].0.0, table@[p].0.1, cell, r);
                        assert(seen[p].0 == (cell, r));
                    }
                } else {
                    if (c, q) == (cell, r) {
                        assert(false);
                    }
                }
            }
        }
        i += 1;
    }
    assert(table@.subrange(0, table@.len() as int) =~= table@);
    index
}

/// The graph of the layers of the routes of a timetable.
///
/// Every ride becomes an edge on the layer of its route. At its first stop
/// an edge leads from the walking layer onto the layer of the route, at the
/// cost of waiting for a departure, and one leads back, at the cost of a
/// minute.
pub fn h3_network_from_gtfs(options: &WeightModifier, gtfs: &GtfsProcessingResult) -> (g: Graph<
    H3Cell,
>)
    ensures
        g.made_of(
            gtfs_offers(
                gtfs.edge_data@,
                gtfs.stop_frequencies@,
                options.wait_time_multiplier,
                gtfs.edge_data@.len() as int,
            ),
        ),
{
    let multiplier = options.wait_time_multiplier;
    let index = frequency_index(&gtfs.stop_frequencies);
    let mut graph = Graph::<H3Cell>::new();
    let ghost start = graph;
    let ghost table = gtfs.stop_frequencies@;
    proof {
        lemma_offer_none(&start);
    }
    let mut i: usize = 0;
    while i < gtfs.edge_data.len()
        invariant
            i <= gtfs.edge_data@.len(),
            table == gtfs.stop_frequencies@,
            forall|cell: u64, r: usize|
                match first_place(table, cell, r) {
                    Some(p) => index@.contains_key(#[trigger] pair_key(cell, r)) && index@[pair_key(
                        cell,
                        r,
                    )] == p,
                    None => !index@.contains_key(pair_key(cell, r)),
                },
            graph.built_from(&start, gtfs_offers(gtfs.edge_data@, table, multiplier, i as int)),
        decreases gtfs.edge_data@.len() - i,
    {
        broadcast use vstd::std_specs::hash::group_hash_axioms;

        let ((layer, from, to), weight) = gtfs.edge_data[i];
        let ghost done = gtfs_offers(gtfs.edge_data@, table, multiplier, i as int);
        if layer <= i16::MAX as usize {
            let from_cell = H3Cell { cell: from, layer: layer as i16 };
            let to_cell = H3Cell { cell: to, layer: layer as i16 };
            let base_cell = H3Cell { cell: from, layer: -1 };
            let key = (from as u128) * 0x1_0000_0000_0000_0000 + (layer as u128);
            proof {
                assert(from * 0x1_0000_0000_0000_0000 + layer <= u128::MAX) by (nonlinear_arith)
                    requires
                        0 <= from <= 0xffff_ffff_ffff_ffff,
                        0 <= layer <= 0xffff_ffff_ffff_ffff,
                ;
                assert(key == pair_key(from, layer));
                lemma_first_place(table, from, layer);
            }
            let mut list: Option<Vec<u64>> = None;
            let mut scalar: u64 = 5 * MINUTE;
            match index.get(&key) {
                Some(p) => {
                    let frequencies = &gtfs.stop_frequencies[*p].1;
                    if frequencies.len() == HOURS_PER_WEEK {
                        scalar = waiting_cost(highest_frequency(frequencies), multiplier);
                        let mut waits: Vec<u64> = Vec::new();
                        let mut h: usize = 0;
                        while h < frequencies.len()
                            invariant
                                h <= frequencies@.len(),
                                waits@.len() == h,
                                forall|k: int|
                                    0 <= k < h ==> waits@[k] == wait_cost(frequencies@[k], multiplier),
                            decreases frequencies@.len() - h,
                        {
                            waits.push(waiting_cost(frequencies[h], multiplier));
                            h += 1;
                        }
                        assert(waits@ =~= wait_list(frequencies@, multiplier));
                        list = Some(waits);
                    }
                },
                None => {},
            }
            let ghost board = (Edge {
                from: 0,
                to: 0,
                weight: Some(scalar),
                weight_list: list,
                capacity: None,
            }).data();
            assert(board == boarding(table, from, layer, multiplier));
            // the way from the base layer onto the layer of the route
            graph.offer(base_cell, from_cell, Some(scalar), list, None, Ghost(&start), Ghost(done));
            let ghost one = done.push(Offer { from: base_cell, to: from_cell, data: board });
            // the ride
            graph.offer(from_cell, to_cell, Some(weight), None, None, Ghost(&start), Ghost(one));
            let ghost two = one.push(
                Offer { from: from_cell, to: to_cell, data: plain(Some(weight)) },
            );
            // the way back to the base layer
            graph.offer(from_cell, base_cell, Some(MINUTE), None, None, Ghost(&start), Ghost(two));
            proof {
                let three = two.push(
                    Offer { from: from_cell, to: base_cell, data: plain(Some(MINUTE)) },
                );
                assert(three =~= done + ride_offers(gtfs.edge_data@[i as int], table, multiplier));
            }
        } else {
            proof {
                assert(done =~= done + ride_offers(gtfs.edge_data@[i as int], table, multiplier));
            }
        }
        i += 1;
    }
    proof {
        lemma_made_of(
            &graph,
            &start,
            gtfs_offers(gtfs.edge_data@, table, multiplier, gtfs.edge_data@.len() as int),
        );
    }
    graph
}

/// Each node is a cell of the H3 grid on a layer.
impl Graph<H3Cell> {
    /// The edge of the H3 grid that an edge of the graph runs along. The
    /// grid knows no layers: only the cells of the two ends count.
    pub fn get_h3_edge(&self, edge: &Edge) -> (r: Result<u64, GraphError>)
        requires
            self.wf(),
        ensures
            r == if !self.occupied(edge.from as int) || !self.occupied(edge.to as int) {
                Err(GraphError::InputNotFound)
            } else {
                match h3_edge(
                    self.nodes@[edge.from as int]->0.id.cell,
                    self.nodes@[edge.to as int]->0.id.cell,
                ) {
                    Some(e) => Ok(e),
                    None => Err(GraphError::NotNeighbors),
                }
            },
    {
        if edge.from >= self.nodes.len() || edge.to >= self.nodes.len() {
            return Err(GraphError::InputNotFound);
        }
        match (&self.nodes[edge.from], &self.nodes[edge.to]) {
            (Some(start), Some(end)) => match edge_between(start.id.cell, end.id.cell) {
                Some(e) => Ok(e),
                None => Err(GraphError::NotNeighbors),
            },
            _ => Err(GraphError::InputNotFound),
        }
    }
}

/// The first of the first `upto` cells of `ring` that the graph has on the
/// walking layer.
pub open spec fn ring_hit(g: &Graph<H3Cell>, ring: Seq<u64>, upto: int) -> Option<H3Cell>
    decreases upto,
{
    if upto <= 0 {
        None
    } else {
        match ring_hit(g, ring, upto - 1) {
            Some(c) => Some(c),
            None => if g.contains(H3Cell { cell: ring[upto - 1], layer: -1i16 }) {
                Some(H3Cell { cell: ring[upto - 1], layer: -1i16 })
            } else {
                None
            },
        }
    }
}

/// The first cell that the graph has on the walking layer among the rings
/// around `cell`, from the ring at one step to the ring at `k` steps.
pub open spec fn rings_hit(g: &Graph<H3Cell>, cell: u64, k: int) -> Option<H3Cell>
    decreases k,
{
    if k <= 0 {
        None
    } else {
        match rings_hit(g, cell, k - 1) {
            Some(c) => Some(c),
            None => ring_hit(
                g,
                h3_grid_ring(cell, k as u32),
                h3_grid_ring(cell, k as u32).len() as int,
            ),
        }
    }
}

/// The number of rings that are searched where `k_ring` are asked for: no
/// more than the widest ring that is asked of the grid.
pub open spec fn rings_searched(k_ring: u32) -> int {
    if k_ring <= MAX_RING {
        k_ring as int
    } else {
        MAX_RING as int
    }
}

/// The node that stands for `cell` in the graph: the cell itself on the
/// walking layer where the graph has it, else the first that the graph has
/// among the rings around it, up to the ring at `k_ring` steps.
pub open spec fn snapped(g: &Graph<H3Cell>, cell: u64, k_ring: u32) -> Option<H3Cell> {
    if g.contains(H3Cell { cell, layer: -1i16 }) {
        Some(H3Cell { cell, layer: -1i16 })
    } else {
        rings_hit(g, cell, rings_searched(k_ring))
    }
}

/// The node that stands for a number in the graph, if the number is a cell
/// at all.
pub open spec fn resolved(g: &Graph<H3Cell>, cell: u64, k_ring: u32) -> Option<H3Cell> {
    if h3_is_cell(cell) {
        snapped(g, cell, k_ring)
    } else {
        None
    }
}

/// The first `upto` numbers of the list that are cells, each with the node
/// that stands for it.
pub open spec fn snap_rows(g: &Graph<H3Cell>, list: Seq<u64>, k_ring: u32, upto: int) -> Seq<
    (u64, Option<H3Cell>),
>
    decreases upto,
{
    if upto <= 0 {
        Seq::empty()
    } else if h3_is_cell(list[upto - 1]) {
        snap_rows(g, list, k_ring, upto - 1).push((list[upto - 1], snapped(g, list[upto - 1], k_ring)))
    } else {
        snap_rows(g, list, k_ring, upto - 1)
    }
}

/// The nodes among the first `upto` rows, in their order.
pub open spec fn nodes_of(rows: Seq<(u64, Option<H3Cell>)>, upto: int) -> Seq<H3Cell>
    decreases upto,
{
    if upto <= 0 {
        Seq::empty()
    } else {
        match rows[upto - 1].1 {
            Some(c) => nodes_of(rows, upto - 1).push(c),
            None => nodes_of(rows, upto - 1),
        }
    }
}

impl Graph<H3Cell> {
    /// The first cell of `ring` that the graph has on the walking layer.
    pub fn first_in_ring(&self, ring: &Vec<u64>) -> (r: Option<H3Cell>)
        requires
            self.wf(),
        ensures
            r == ring_hit(self, ring@, ring@.len() as int),
    {
        let mut i: usize = 0;
        while i < ring.len()
            invariant
                i <= ring@.len(),
                ring_hit(self, ring@, i as int) is None,
            decreases ring@.len() - i,
        {
            let cell = H3Cell { cell: ring[i], layer: -1 };
            if self.find(&cell).is_some() {
                proof {
                    let n = ring@.len() as int;
                    let first = i as int;
                    assert forall|m: int| first < m <= n implies ring_hit(self, ring@, m) == Some(
                        cell,
                    ) by {
                        lemma_ring_hit_stays(self, ring@, first + 1, m);
                    }
                }
                return Some(cell);
            }
            i += 1;
        }
        None
    }

    /// The node that stands for `cell` in the graph: the cell itself on the
    /// walking layer, else the first node on the walking layer in the rings
    /// around it, from the nearest ring to the ring at `k_ring` steps, and
    /// no farther than the widest ring that is asked of the grid.
    pub fn snap(&self, cell: u64, k_ring: u32) -> (r: Option<H3Cell>)
        requires
            self.wf(),
        ensures
            r == snapped(self, cell, k_ring),
    {
        let own = H3Cell { cell, layer: -1 };
        if self.find(&own).is_some() {
            return Some(own);
        }
        let rings = if k_ring <= MAX_RING {
            k_ring
        } else {
            MAX_RING
        };
        let mut k: u32 = 0;
        while k < rings
            invariant
                k <= rings <= MAX_RING,
                rings == rings_searched(k_ring),
                self.wf(),
                !self.contains(H3Cell { cell, layer: -1i16 }),
                rings_hit(self, cell, k as int) is None,
            decreases rings - k,
        {
            k += 1;
            let ring = grid_ring(cell, k);
            proof {
                assert((k as int) as u32 == k);
                assert(rings_hit(self, cell, k as int) == ring_hit(
                    self,
                    h3_grid_ring(cell, k),
                    h3_grid_ring(cell, k).len() as int,
                ));
            }
            match self.first_in_ring(&ring) {
                Some(hit) => {
                    proof {
                        lemma_rings_hit_stays(self, cell, k as int, rings as int);
                    }
                    return Some(hit);
                },
                None => {},
            }
        }
        None
    }
}

/// A hit in a ring stays the hit when more of the ring is looked at.
pub proof fn lemma_ring_hit_stays(g: &Graph<H3Cell>, ring: Seq<u64>, from: int, upto: int)
    requires
        ring_hit(g, ring, from) is Some,
        from <= upto,
    ensures
        ring_hit(g, ring, upto) == ring_hit(g, ring, from),
    decreases upto - from,
{
    if from < upto {
        lemma_ring_hit_stays(g, ring, from, upto - 1);
    }
}

/// A hit among the rings stays the hit when more rings are looked at.
pub proof fn lemma_rings_hit_stays(g: &Graph<H3Cell>, cell: u64, from: int, upto: int)
    requires
        rings_hit(g, cell, from) is Some,
        from <= upto,
    ensures
        rings_hit(g, cell, upto) == rings_hit(g, cell, from),
    decreases upto - from,
{
    if from < upto {
        lemma_rings_hit_stays(g, cell, from, upto - 1);
    }
}

/// For each number of the list that is a cell, the node that stands for it
/// in the graph, if there is one within `k_ring` steps.
pub fn u64list_to_h3cells(graph: &Graph<H3Cell>, list: &Vec<u64>, k_ring: u32) -> (rows: Vec<
    (u64, Option<H3Cell>),
>)
    requires
        graph.wf(),
    ensures
        rows@ == snap_rows(graph, list@, k_ring, list@.len() as int),
{
    let mut rows: Vec<(u64, Option<H3Cell>)> = Vec::new();
    let mut i: usize = 0;
    while i < list.len()
        invariant
            i <= list@.len(),
            graph.wf(),
            rows@ == snap_rows(graph, list@, k_ring, i as int),
        decreases list@.len() - i,
    {
        if is_cell(list[i]) {
            rows.push((list[i], graph.snap(list[i], k_ring)));
        }
        i += 1;
    }
    rows
}

/// The nodes among the rows, in their order.
pub fn row_nodes(rows: &Vec<(u64, Option<H3Cell>)>) -> (nodes: Vec<H3Cell>)
    ensures
        nodes@ == nodes_of(rows@, rows@.len() as int),
{
    let mut nodes: Vec<H3Cell> = Vec::new();
    let mut i: usize = 0;
    while i < rows.len()
        invariant
            i <= rows@.len(),
            nodes@ == nodes_of(rows@, i as int),
        decreases rows@.len() - i,
    {
        match rows[i].1 {
            Some(c) => nodes.push(c),
            None => {},
        }
        i += 1;
    }
    nodes
}

/// A graph of H3 cells with the settings it is built and asked by.
pub struct PyH3Graph {
    pub graph: Graph<H3Cell>,
    pub options: OSMOptions,
    /// How many rings around a cell are searched for a node that stands
    /// for it.
    pub k_ring: u32,
}

/// What a choice of layers by name means: whether timetables are added, and
/// the one street layer that is built, if not both.
pub open spec fn layers_choice(layers: Seq<char>) -> (bool, Option<OSMLayer>) {
    if layers == "walk+bike"@ {
        (false, None)
    } else if layers == "walk"@ {
        (false, Some(OSMLayer::Walking))
    } else if layers == "walk+transit"@ {
        (true, Some(OSMLayer::Walking))
    } else {
        (true, None)
    }
}

/// The cell of a node that was drawn, and an error where none was.
pub open spec fn cell_drawn(node: Option<H3Cell>) -> Result<u64, GraphError> {
    match node {
        Some(c) => Ok(c.cell),
        None => Err(GraphError::InputNotFound),
    }
}

/// The cells of the nodes of a path.
pub open spec fn cells_of(path: Seq<H3Cell>) -> Seq<u64> {
    Seq::new(path.len(), |i: int| path[i].cell)
}

/// The estimate that the grid gives for two cells: a minute for each step
/// between them, and beyond all distances where the grid cannot tell.
pub open spec fn grid_estimate(steps: Option<i32>) -> u64 {
    match steps {
        Some(d) => if d >= 0 {
            (d * MINUTE) as u64
        } else {
            0
        },
        None => (i32::MAX * MINUTE) as u64,
    }
}

/// The estimate for a number of steps between two cells.
pub fn estimate_for(steps: Option<i32>) -> (r: u64)
    ensures
        r == grid_estimate(steps),
{
    match steps {
        Some(d) => {
            if d >= 0 {
                assert(d * MINUTE <= u64::MAX) by (nonlinear_arith)
                    requires
                        0 <= d <= i32::MAX,
                        MINUTE == 1_000_000,
                ;
                (d as u64) * MINUTE
            } else {
                0
            }
        },
        None => {
            assert(i32::MAX * MINUTE <= u64::MAX) by (nonlinear_arith)
                requires
                    MINUTE == 1_000_000,
            ;
            (i32::MAX as u64) * MINUTE
        },
    }
}

impl PyH3Graph {
    /// An empty graph with its settings. `layers` is one of `walk`,
    /// `walk+bike`, `walk+transit` and `all`; any other name means `all`.
    pub fn new(weight_options: Option<WeightModifier>, k_ring: u32, layers: &str) -> (r: Self)
        ensures
            r.graph.wf(),
            r.graph.nodes@.len() == 0,
            r.k_ring == k_ring,
            (r.options.gtfs_layer, r.options.osm_layer) == layers_choice(layers@),
            weight_options is Some ==> r.options.weight_modifier == weight_options->0,
            weight_options is None ==> r.options.weight_modifier == (WeightModifier {
                bike_penalty: MINUTE,
                wait_time_multiplier: 1000,
                walk_speed: 1400,
                bike_speed: 4500,
            }),
    {
        let (gtfs_layer, osm_layer) = if same_text(layers, "walk+bike") {
            (false, None)
        } else if same_text(layers, "walk") {
            (false, Some(OSMLayer::Walking))
        } else if same_text(layers, "walk+transit") {
            (true, Some(OSMLayer::Walking))
        } else {
            (true, None)
        };
        let weight_modifier = match weight_options {
            Some(w) => w,
            None => WeightModifier::default(),
        };
        PyH3Graph {
            graph: Graph::<H3Cell>::new(),
            options: OSMOptions { osm_layer, gtfs_layer, weight_modifier },
            k_ring,
        }
    }

    /// The cell of a node picked at random.
    pub fn get_random_node(&self) -> (r: Result<u64, GraphError>)
        ensures
            exists|draw: usize| r == cell_drawn(#[trigger] self.graph.drawn(draw)),
    {
        match self.graph.get_random_node() {
            Some(c) => Ok(c.cell),
            None => Err(GraphError::InputNotFound),
        }
    }

    /// Whether `r` is what a search for a path between two cells owes.
    ///
    /// Both cells are replaced by the nodes that stand for them; where one
    /// has none the search fails. Else the path is that of a search by cost
    /// for the one target, as the cells of its nodes, with its distance.
    pub open spec fn path_ok(
        &self,
        r: Result<(Vec<u64>, u64), GraphError>,
        origin: u64,
        destination: u64,
        hour: Option<usize>,
        flat: bool,
    ) -> bool {
        match (
            resolved(&self.graph, origin, self.k_ring),
            resolved(&self.graph, destination, self.k_ring),
        ) {
            (Some(o), Some(d)) => exists|found: Result<AStarResult<H3Cell>, GraphError>|
                {
                    &&& #[trigger] self.graph.astar_ok(found, o, Some(&d), None, None, None, hour, flat)
                    &&& match r {
                        Ok(p) => found is Ok && p.0@ == cells_of(found->Ok_0.path->0@) && Some(p.1)
                            == found->Ok_0.distances@[0],
                        Err(e) => found is Err && e == GraphError::NoPath,
                    }
                },
            _ => r matches Err(e) && e == GraphError::InputNotFound,
        }
    }

    /// The node that stands for a number in the graph, if the number is a
    /// cell and a node lies within reach of it.
    pub fn resolve(&self, cell: u64) -> (r: Option<H3Cell>)
        requires
            self.graph.wf(),
        ensures
            r == resolved(&self.graph, cell, self.k_ring),
    {
        if is_cell(cell) {
            self.graph.snap(cell, self.k_ring)
        } else {
            None
        }
    }

    /// The path between two cells that a search by cost with the given
    /// heuristic finds.
    pub fn path_between<F: Fn(&H3Cell, &H3Cell) -> u64>(
        &self,
        origin: u64,
        destination: u64,
        hour_of_week: Option<usize>,
        heuristic: &F,
    ) -> (r: Result<(Vec<u64>, u64), GraphError>)
        requires
            self.graph.wf(),
            hour_valid(hour_of_week),
            is_total(*heuristic),
        ensures
            self.path_ok(r, origin, destination, hour_of_week, is_constant(*heuristic)),
    {
        let from = match self.resolve(origin) {
            Some(c) => c,
            None => {
                return Err(GraphError::InputNotFound);
            },
        };
        let to = match self.resolve(destination) {
            Some(c) => c,
            None => {
                return Err(GraphError::InputNotFound);
            },
        };
        let found = self.graph.astar_with(&from, Some(&to), None, None, None, hour_of_week, heuristic);
        let ghost kept = found;
        let r = match found {
            Ok(res) => match (res.path, res.distances.len()) {
                (Some(path), 1) => {
                    let mut cells: Vec<u64> = Vec::new();
                    let mut i: usize = 0;
                    while i < path.len()
                        invariant
                            i <= path@.len(),
                            cells@.len() == i,
                            forall|k: int| 0 <= k < i ==> cells@[k] == path@[k].cell,
                        decreases path@.len() - i,
                    {
                        cells.push(path[i].cell);
                        i += 1;
                    }
                    assert(cells@ =~= cells_of(path@));
                    match res.distances[0] {
                        Some(d) => Ok((cells, d)),
                        None => Err(GraphError::NoPath),
                    }
                },
                _ => Err(GraphError::NoPath),
            },
            Err(_) => Err(GraphError::NoPath),
        };
        proof {
            assert(Graph::<H3Cell>::targets(Some(&to), None) =~= seq![to]);
            assert(self.graph.astar_ok(
                kept,
                from,
                Some(&to),
                None,
                None,
                None,
                hour_of_week,
                is_constant(*heuristic),
            ));
        }
        r
    }

    /// The shortest path between two cells and what it costs, at the given
    /// hour of the week where one is given.
    pub fn dijkstra_path(&self, origin: u64, destination: u64, hour_of_week: Option<usize>) -> (r:
        Result<(Vec<u64>, u64), GraphError>)
        requires
            self.graph.wf(),
            hour_valid(hour_of_week),
        ensures
            self.path_ok(r, origin, destination, hour_of_week, true),
    {
        let h = |a: &H3Cell, b: &H3Cell| -> (r: u64)
            ensures
                r == MINUTE,
            { MINUTE };
        assert(gives_only(h, MINUTE));
        self.path_between(origin, destination, hour_of_week, &h)
    }

    /// A path between two cells found with the steps of the grid between a
    /// node and its predecessor as the heuristic, and what the search took
    /// it to cost.
    pub fn astar_path(&self, origin: u64, destination: u64, hour_of_week: Option<usize>) -> (r:
        Result<(Vec<u64>, u64), GraphError>)
        requires
            self.graph.wf(),
            hour_valid(hour_of_week),
        ensures
            self.path_ok(r, origin, destination, hour_of_week, false),
    {
        let h = |a: &H3Cell, b: &H3Cell| -> (r: u64) {
            estimate_for(self::h3cell::grid_distance(a.cell, b.cell))
        };
        let r = self.path_between(origin, destination, hour_of_week, &h);
        proof {
            match (
                resolved(&self.graph, origin, self.k_ring),
                resolved(&self.graph, destination, self.k_ring),
            ) {
                (Some(o), Some(d)) => {
                    let found = choose|found: Result<AStarResult<H3Cell>, GraphError>|
                        {
                            &&& #[trigger] self.graph.astar_ok(
                                found,
                                o,
                                Some(&d),
                                None,
                                None,
                                None,
                                hour_of_week,
                                is_constant(h),
                            )
                            &&& match r {
                                Ok(p) => found is Ok && p.0@ == cells_of(found->Ok_0.path->0@)
                                    && Some(p.1) == found->Ok_0.distances@[0],
                                Err(e) => found is Err && e == GraphError::NoPath,
                            }
                        };
                    lemma_any_heuristic(
                        &self.graph,
                        found,
                        o,
                        Some(&d),
                        None,
                        None,
                        None,
                        hour_of_week,
                        is_constant(h),
                    );
                },
                _ => {},
            }
        }
        r
    }
}

/// Every row of numbers and the nodes that stand for them holds a number of
/// the list that is a cell, with the node that stands for it.
pub proof fn lemma_snap_rows(g: &Graph<H3Cell>, list: Seq<u64>, k_ring: u32, upto: int)
    requires
        0 <= upto <= list.len(),
    ensures
        forall|i: int|
            0 <= i < snap_rows(g, list, k_ring, upto).len() ==> {
                let row = #[trigger] snap_rows(g, list, k_ring, upto)[i];
                &&& row.1 == resolved(g, row.0, k_ring)
                &&& h3_is_cell(row.0)
                &&& exists|m: int| 0 <= m < upto && list[m] == row.0
            },
    decreases upto,
{
    if upto > 0 {
        lemma_snap_rows(g, list, k_ring, upto - 1);
        let before = snap_rows(g, list, k_ring, upto - 1);
        let rows = snap_rows(g, list, k_ring, upto);
        assert forall|i: int| 0 <= i < rows.len() implies {
            let row = #[trigger] rows[i];
            &&& row.1 == resolved(g, row.0, k_ring)
            &&& h3_is_cell(row.0)
            &&& exists|m: int| 0 <= m < upto && list[m] == row.0
        } by {
            if i < before.len() {
                assert(rows[i] == before[i]);
                let m = choose|m: int| 0 <= m < upto - 1 && list[m] == before[i].0;
                assert(list[m] == rows[i].0);
            } else {
                assert(list[upto - 1] == rows[i].0);
            }
        }
    }
}

/// The node that stands for the number at place `e` of a list.
pub open spec fn resolved_at(g: &Graph<H3Cell>, list: Seq<u64>, k_ring: u32, e: int) -> Option<H3Cell> {
    resolved(g, list[e], k_ring)
}

/// Whether the number at place `m` of the list is the first for which
/// `node` stands.
pub open spec fn is_first_for(
    g: &Graph<H3Cell>,
    list: Seq<u64>,
    k_ring: u32,
    m: int,
    node: H3Cell,
) -> bool {
    &&& 0 <= m < list.len()
    &&& resolved(g, list[m], k_ring) == Some(node)
    &&& forall|e: int| 0 <= e < m ==> #[trigger] resolved_at(g, list, k_ring, e) != Some(node)
}

/// Whether row `r` comes from a number among the first `upto` of the list.
pub open spec fn comes_from(g: &Graph<H3Cell>, list: Seq<u64>, k_ring: u32, upto: int, r: int) -> bool {
    exists|m: int|
        0 <= m < upto && h3_is_cell(list[m]) && #[trigger] snap_rows(g, list, k_ring, m).len() == r
}

/// The rows of fewer numbers are the first of the rows of more numbers.
pub proof fn lemma_snap_rows_grow(
    g: &Graph<H3Cell>,
    list: Seq<u64>,
    k_ring: u32,
    a: int,
    b: int,
    r: int,
)
    requires
        0 <= a <= b <= list.len(),
    ensures
        snap_rows(g, list, k_ring, a).len() <= snap_rows(g, list, k_ring, b).len(),
        0 <= r < snap_rows(g, list, k_ring, a).len() ==> snap_rows(g, list, k_ring, a)[r]
            == snap_rows(g, list, k_ring, b)[r],
    decreases b - a,
{
    if a < b {
        lemma_snap_rows_grow(g, list, k_ring, a, b - 1, r);
    }
}

/// A number of the list that is a cell has its row: as many rows come
/// before it as cells come before the number.
pub proof fn lemma_row_of(g: &Graph<H3Cell>, list: Seq<u64>, k_ring: u32, upto: int, m: int)
    requires
        0 <= m < upto <= list.len(),
        h3_is_cell(list[m]),
    ensures
        snap_rows(g, list, k_ring, m).len() < snap_rows(g, list, k_ring, upto).len(),
        snap_rows(g, list, k_ring, upto)[snap_rows(g, list, k_ring, m).len() as int] == (
            list[m],
            snapped(g, list[m], k_ring),
        ),
{
    let r = snap_rows(g, list, k_ring, m).len() as int;
    assert(snap_rows(g, list, k_ring, m + 1) == snap_rows(g, list, k_ring, m).push(
        (list[m], snapped(g, list[m], k_ring)),
    ));
    lemma_snap_rows_grow(g, list, k_ring, m + 1, upto, r);
}

/// Every row comes from a number of the list that is a cell.
pub proof fn lemma_row_source(g: &Graph<H3Cell>, list: Seq<u64>, k_ring: u32, upto: int, r: int)
    requires
        0 <= upto <= list.len(),
        0 <= r < snap_rows(g, list, k_ring, upto).len(),
    ensures
        comes_from(g, list, k_ring, upto, r),
    decreases upto,
{
    if upto > 0 {
        let before = snap_rows(g, list, k_ring, upto - 1);
        if r < before.len() {
            lemma_row_source(g, list, k_ring, upto - 1, r);
            let m = choose|m: int|
                0 <= m < upto - 1 && h3_is_cell(list[m]) && #[trigger] snap_rows(
                    g,
                    list,
                    k_ring,
                    m,
                ).len() == r;
            assert(snap_rows(g, list, k_ring, m).len() == r);
        } else {
            assert(h3_is_cell(list[upto - 1]));
            assert(snap_rows(g, list, k_ring, upto - 1).len() == r);
        }
    }
}

/// The number behind the first row that holds `node` is the first number of
/// the list for which `node` stands.
pub proof fn lemma_first_row(
    g: &Graph<H3Cell>,
    list: Seq<u64>,
    k_ring: u32,
    i: int,
    node: H3Cell,
)
    requires
        0 <= i < snap_rows(g, list, k_ring, list.len() as int).len(),
        snap_rows(g, list, k_ring, list.len() as int)[i].1 == Some(node),
        forall|l: int|
            0 <= l < i ==> (#[trigger] snap_rows(g, list, k_ring, list.len() as int)[l]).1 != Some(
                node,
            ),
    ensures
        exists|m: int| #[trigger]
            is_first_for(g, list, k_ring, m, node) && list[m] == snap_rows(
                g,
                list,
                k_ring,
                list.len() as int,
            )[i].0,
{
    let n = list.len() as int;
    let rows = snap_rows(g, list, k_ring, n);
    lemma_row_source(g, list, k_ring, n, i);
    let m = choose|m: int|
        0 <= m < n && h3_is_cell(list[m]) && #[trigger] snap_rows(g, list, k_ring, m).len() == i;
    lemma_row_of(g, list, k_ring, n, m);
    assert(rows[i] == (list[m], snapped(g, list[m], k_ring)));
    assert forall|e: int| 0 <= e < m implies #[trigger] resolved_at(g, list, k_ring, e) != Some(
        node,
    ) by {
        if h3_is_cell(list[e]) {
            lemma_row_of(g, list, k_ring, n, e);
            lemma_snap_rows_grow(g, list, k_ring, e + 1, m, 0);
            let r = snap_rows(g, list, k_ring, e).len() as int;
            assert(snap_rows(g, list, k_ring, e + 1).len() == r + 1);
            assert(r < i);
            assert(rows[r].1 != Some(node));
        }
    }
    assert(is_first_for(g, list, k_ring, m, node));
}

/// Whether `node` is one of the nodes.
pub open spec fn is_listed(nodes: Seq<H3Cell>, node: H3Cell) -> bool {
    exists|j: int| 0 <= j < nodes.len() && #[trigger] nodes[j] == node
}

/// The node of a row is among the nodes of the rows.
pub proof fn lemma_nodes_hold(rows: Seq<(u64, Option<H3Cell>)>, upto: int, i: int)
    requires
        0 <= i < upto <= rows.len(),
        rows[i].1 is Some,
    ensures
        is_listed(nodes_of(rows, upto), rows[i].1->0),
    decreases upto,
{
    let all = nodes_of(rows, upto);
    let before = nodes_of(rows, upto - 1);
    if i < upto - 1 {
        lemma_nodes_hold(rows, upto - 1, i);
        let j = choose|j: int| 0 <= j < before.len() && #[trigger] before[j] == rows[i].1->0;
        assert(all[j] == before[j]);
    } else {
        assert(all[before.len() as int] == rows[i].1->0);
    }
}

/// Every node among rows stands in one of the rows.
pub proof fn lemma_nodes_of(rows: Seq<(u64, Option<H3Cell>)>, upto: int)
    requires
        0 <= upto <= rows.len(),
    ensures
        forall|j: int|
            0 <= j < nodes_of(rows, upto).len() ==> exists|i: int|
                0 <= i < upto && (#[trigger] rows[i]).1 == Some(#[trigger] nodes_of(rows, upto)[j]),
    decreases upto,
{
    if upto > 0 {
        lemma_nodes_of(rows, upto - 1);
        let before = nodes_of(rows, upto - 1);
        let nodes = nodes_of(rows, upto);
        assert forall|j: int| 0 <= j < nodes.len() implies exists|i: int|
            0 <= i < upto && (#[trigger] rows[i]).1 == Some(#[trigger] nodes[j]) by {
            if j < before.len() {
                assert(nodes[j] == before[j]);
                let i = choose|i: int| 0 <= i < upto - 1 && (#[trigger] rows[i]).1 == Some(before[j]);
                assert(rows[i].1 == Some(nodes[j]));
            } else {
                assert(rows[upto - 1].1 == Some(nodes[j]));
            }
        }
    }
}

/// The nodes that stand for the cells of a list, in the order of the list.
pub open spec fn nodes_for(g: &Graph<H3Cell>, list: Seq<u64>, k_ring: u32) -> Seq<H3Cell> {
    nodes_of(
        snap_rows(g, list, k_ring, list.len() as int),
        snap_rows(g, list, k_ring, list.len() as int).len() as int,
    )
}

/// A copy of a row of distances.
fn copy_row(row: &Vec<Option<u64>>) -> (out: Vec<Option<u64>>)
    ensures
        out@ == row@,
{
    let mut out: Vec<Option<u64>> = Vec::new();
    let mut i: usize = 0;
    while i < row.len()
        invariant
            i <= row@.len(),
            out@ == row@.subrange(0, i as int),
        decreases row@.len() - i,
    {
        out.push(row[i]);
        assert(out@ =~= row@.subrange(0, i + 1));
        i += 1;
    }
    assert(row@.subrange(0, row@.len() as int) =~= row@);
    out
}

impl PyH3Graph {
    /// Whether `data` is the row of distances from the node `origin` to the
    /// nodes `to`: what a search by cost for all of them owes, and the one
    /// entry `None` where that search fails.
    pub open spec fn row_ok(
        &self,
        data: Seq<Option<u64>>,
        origin: H3Cell,
        to: Seq<H3Cell>,
        hour: Option<usize>,
        infinity: Option<u64>,
        dynamic_infinity: Option<bool>,
    ) -> bool {
        exists|row: Result<Vec<Option<u64>>, GraphError>, dests: Vec<H3Cell>|
            {
                &&& dests@ == to
                &&& #[trigger] self.graph.cost_row_ok(
                    row,
                    origin,
                    Some(&dests),
                    infinity,
                    dynamic_infinity,
                    hour,
                    true,
                )
                &&& data == match row {
                    Ok(d) => d@,
                    Err(_) => seq![None::<u64>],
                }
            }
    }

    /// Whether `rows` are the distances from the origins to the
    /// destinations: one row for each node that stands for an origin, in
    /// the order in which these nodes first occur, under the first origin
    /// that the node stands for.
    pub open spec fn matrix_ok(
        &self,
        rows: Seq<(u64, Vec<Option<u64>>)>,
        origins: Seq<u64>,
        destinations: Seq<u64>,
        hour: Option<usize>,
        infinity: Option<u64>,
        dynamic_infinity: Option<bool>,
    ) -> bool {
        let from = unique_origins(nodes_for(&self.graph, origins, self.k_ring));
        let to = nodes_for(&self.graph, destinations, self.k_ring);
        &&& rows.len() == from.len()
        &&& forall|k: int|
            0 <= k < rows.len() ==> {
                &&& self.keyed_by_first(origins, (#[trigger] rows[k]).0, from[k])
                &&& resolved(&self.graph, rows[k].0, self.k_ring) == Some(from[k])
                &&& self.row_ok(rows[k].1@, from[k], to, hour, infinity, dynamic_infinity)
            }
    }

    /// Whether `asked` is the first of the origins for which `node` stands.
    pub open spec fn keyed_by_first(&self, origins: Seq<u64>, asked: u64, node: H3Cell) -> bool {
        exists|m: int| #[trigger]
            is_first_for(&self.graph, origins, self.k_ring, m, node) && origins[m] == asked
    }

    /// The distances from each origin to each destination.
    ///
    /// Origins and destinations are replaced by the nodes that stand for
    /// them; those without one are left out. Each node that stands for an
    /// origin is searched from once.
    pub fn matrix_distance(
        &self,
        origins: &Vec<u64>,
        destinations: &Vec<u64>,
        hour_of_week: Option<usize>,
        infinity: Option<u64>,
        dynamic_infinity: Option<bool>,
    ) -> (rows: Vec<(u64, Vec<Option<u64>>)>)
        requires
            self.graph.wf(),
            hour_valid(hour_of_week),
        ensures
            self.matrix_ok(rows@, origins@, destinations@, hour_of_week, infinity, dynamic_infinity),
    {
        let h = |a: &H3Cell, b: &H3Cell| -> (r: u64)
            ensures
                r == MINUTE,
            { MINUTE };
        assert(gives_only(h, MINUTE));
        // the nodes that stand for the origins and the destinations
        let origin_rows = u64list_to_h3cells(&self.graph, origins, self.k_ring);
        let destination_rows = u64list_to_h3cells(&self.graph, destinations, self.k_ring);
        let from = row_nodes(&origin_rows);
        let to = row_nodes(&destination_rows);
        let found = self.graph.matrix_astar_distance(
            &from,
            Some(&to),
            false,
            hour_of_week,
            infinity,
            dynamic_infinity,
            h,
        );
        proof {
            lemma_snap_rows(&self.graph, origins@, self.k_ring, origins@.len() as int);
            lemma_nodes_of(origin_rows@, origin_rows@.len() as int);
            lemma_unique_origins(from@);
        }
        let ghost unique = unique_origins(from@);
        let mut rows: Vec<(u64, Vec<Option<u64>>)> = Vec::new();
        let mut k: usize = 0;
        while k < found.len()
            invariant
                k <= found@.len(),
                rows@.len() == k,
                found@.len() == unique.len(),
                unique == unique_origins(from@),
                from@ == nodes_for(&self.graph, origins@, self.k_ring),
                to@ == nodes_for(&self.graph, destinations@, self.k_ring),
                origin_rows@ == snap_rows(
                    &self.graph,
                    origins@,
                    self.k_ring,
                    origins@.len() as int,
                ),
                forall|i: int|
                    0 <= i < origin_rows@.len() ==> {
                        let row = #[trigger] origin_rows@[i];
                        &&& row.1 == resolved(&self.graph, row.0, self.k_ring)
                        &&& exists|m: int| 0 <= m < origins@.len() && origins@[m] == row.0
                    },
                forall|j: int|
                    0 <= j < from@.len() ==> exists|i: int|
                        0 <= i < origin_rows@.len() && (#[trigger] origin_rows@[i]).1 == Some(
                            #[trigger] from@[j],
                        ),
                forall|j: int| 0 <= j < unique.len() ==> named_in(from@, #[trigger] unique[j]),
                forall|j: int|
                    0 <= j < found@.len() ==> (#[trigger] found@[j]).0 == unique[j]
                        && self.graph.cost_row_ok(
                        found@[j].1,
                        found@[j].0,
                        Some(&to),
                        infinity,
                        dynamic_infinity,
                        hour_of_week,
                        true,
                    ),
                forall|j: int|
                    0 <= j < k ==> {
                        &&& self.keyed_by_first(origins@, (#[trigger] rows@[j]).0, unique[j])
                        &&& resolved(&self.graph, rows@[j].0, self.k_ring) == Some(unique[j])
                        &&& self.row_ok(
                            rows@[j].1@,
                            unique[j],
                            to@,
                            hour_of_week,
                            infinity,
                            dynamic_infinity,
                        )
                    },
            decreases found@.len() - k,
        {
            let node = found[k].0;
            let data = match &found[k].1 {
                Ok(d) => copy_row(d),
                Err(_) => {
                    let mut none: Vec<Option<u64>> = Vec::new();
                    none.push(None);
                    assert(none@ =~= seq![None::<u64>]);
                    none
                },
            };
            proof {
                assert(named_in(from@, unique[k as int]));
                let j = choose|j: int|
                    0 <= j < from@.len() && (#[trigger] from@[j]).key_spec() == unique[k as int].key_spec();
                assert(from@[j] == node);
                let i = choose|i: int|
                    0 <= i < origin_rows@.len() && (#[trigger] origin_rows@[i]).1 == Some(from@[j]);
                assert(origin_rows@[i].1 == Some(node));
            }
            let mut i: usize = 0;
            while i < origin_rows.len() && !is_row_of(&origin_rows[i], &node)
                invariant
                    i <= origin_rows@.len(),
                    forall|l: int| 0 <= l < i ==> (#[trigger] origin_rows@[l]).1 != Some(node),
                    exists|m: int|
                        i <= m < origin_rows@.len() && (#[trigger] origin_rows@[m]).1 == Some(node),
                decreases origin_rows@.len() - i,
            {
                i += 1;
            }
            let asked = origin_rows[i].0;
            proof {
                assert(origin_rows@[i as int].1 == Some(node));
                lemma_first_row(&self.graph, origins@, self.k_ring, i as int, node);
                assert(self.keyed_by_first(origins@, asked, node));
                assert(self.graph.cost_row_ok(
                    found@[k as int].1,
                    node,
                    Some(&to),
                    infinity,
                    dynamic_infinity,
                    hour_of_week,
                    true,
                ));
            }
            rows.push((asked, data));
            k += 1;
        }
        rows
    }
}

/// Whether a row holds the given node.
fn is_row_of(row: &(u64, Option<H3Cell>), node: &H3Cell) -> (b: bool)
    ensures
        b == (row.1 == Some(*node)),
{
    match row.1 {
        Some(c) => c.cell == node.cell && c.layer == node.layer,
        None => false,
    }
}

/// Whether `r` is what is read from a feed whose routes are counted from
/// `offset`: its routes in order, the rides of its trips, and the
/// frequencies at its stops.
pub open spec fn feed_read(r: GtfsProcessingResult, feed: GtfsFeed, offset: usize) -> bool {
    &&& r.edge_data@ == feed_rides(feed.trips@, r.routes@, offset, feed.trips@.len() as int)
    &&& frequencies_ok(
        r.stop_frequencies@,
        total_count(feed.trips@, feed.calendar@, r.routes@, offset),
    )
    &&& in_order(r.routes@)
    &&& forall|id: Seq<char>| lists(r.routes@, id) <==> lists(feed.routes@, id)
    &&& r.nr_routes == r.routes@.len()
}

/// The number from which the routes of the feed at place `upto` are
/// counted: each feed before it takes up one number more than it has
/// routes.
pub open spec fn offset_at(results: Seq<GtfsProcessingResult>, upto: int) -> usize
    decreases upto,
{
    if upto <= 0 {
        0
    } else {
        let next = offset_at(results, upto - 1) + results[upto - 1].nr_routes + 1;
        if next > usize::MAX {
            usize::MAX
        } else {
            next as usize
        }
    }
}

/// What joins two keys after the graphs of the first `upto` feeds have
/// been merged into a graph in which `base` joined them.
pub open spec fn joined_edge(
    base: Option<EdgeData>,
    results: Seq<GtfsProcessingResult>,
    multiplier: u64,
    a: (u64, i16),
    b: (u64, i16),
    upto: int,
) -> Option<EdgeData>
    decreases upto,
{
    if upto <= 0 {
        base
    } else {
        Graph::<H3Cell>::merged_edge(
            joined_edge(base, results, multiplier, a, b, upto - 1),
            edge_after(
                None,
                gtfs_offers(
                    results[upto - 1].edge_data@,
                    results[upto - 1].stop_frequencies@,
                    multiplier,
                    results[upto - 1].edge_data@.len() as int,
                ),
                a,
                b,
            ),
        )
    }
}

/// Whether a graph has the key `k` after the graphs of the first `upto`
/// feeds have been merged into it, where `base` tells whether it had the key
/// before: it has the keys it had and those at which an edge of one of the
/// feeds starts or ends.
pub open spec fn joined_key(
    base: bool,
    results: Seq<GtfsProcessingResult>,
    multiplier: u64,
    k: (u64, i16),
    upto: int,
) -> bool
    decreases upto,
{
    if upto <= 0 {
        base
    } else {
        joined_key(base, results, multiplier, k, upto - 1) || offers_touch(
            gtfs_offers(
                results[upto - 1].edge_data@,
                results[upto - 1].stop_frequencies@,
                multiplier,
                results[upto - 1].edge_data@.len() as int,
            ),
            k,
        )
    }
}

/// Reads the feeds one after the other; the routes of each are counted
/// from where those of the feed before it end, one number left out between
/// them.
pub fn process_feeds(feeds: &Vec<GtfsFeed>) -> (results: Vec<GtfsProcessingResult>)
    ensures
        results@.len() == feeds@.len(),
        forall|k: int|
            0 <= k < feeds@.len() ==> feed_read(
                #[trigger] results@[k],
                feeds@[k],
                offset_at(results@, k),
            ),
{
    let mut results: Vec<GtfsProcessingResult> = Vec::new();
    let mut offset: usize = 0;
    let mut i: usize = 0;
    while i < feeds.len()
        invariant
            i <= feeds@.len(),
            results@.len() == i,
            offset == offset_at(results@, i as int),
            forall|k: int|
                0 <= k < i ==> feed_read(#[trigger] results@[k], feeds@[k], offset_at(results@, k)),
        decreases feeds@.len() - i,
    {
        let ghost before = results@;
        let read = process_gtfs(&feeds[i], offset);
        let next = offset.saturating_add(read.nr_routes).saturating_add(1);
        results.push(read);
        proof {
            assert forall|k: int| 0 <= k <= i implies offset_at(results@, k) == offset_at(before, k) by {
                lemma_offset_at(before, results@, k);
            }
            assert(results@[i as int].nr_routes == read.nr_routes);
        }
        offset = next;
        i += 1;
    }
    results
}

/// The number from which a feed is counted depends on the feeds before it
/// alone.
pub proof fn lemma_offset_at(a: Seq<GtfsProcessingResult>, b: Seq<GtfsProcessingResult>, upto: int)
    requires
        0 <= upto <= a.len(),
        upto <= b.len(),
        forall|k: int| 0 <= k < upto ==> a[k] == b[k],
    ensures
        offset_at(a, upto) == offset_at(b, upto),
    decreases upto,
{
    if upto > 0 {
        lemma_offset_at(a, b, upto - 1);
    }
}

/// Merges the graphs of the feeds into `graph`, one after the other. The
/// graph keeps its nodes at their positions and gains those at which an
/// edge of a feed starts or ends; between two keys the lighter edge stays.
pub fn assemble(
    graph: Graph<H3Cell>,
    results: &Vec<GtfsProcessingResult>,
    options: &WeightModifier,
) -> (g: Graph<H3Cell>)
    requires
        graph.wf(),
    ensures
        g.wf(),
        g.extends(&graph),
        forall|k: (u64, i16)|
            #![trigger g.index().contains_key(k)]
            g.index().contains_key(k) <==> joined_key(
                graph.index().contains_key(k),
                results@,
                options.wait_time_multiplier,
                k,
                results@.len() as int,
            ),
        forall|a: (u64, i16), b: (u64, i16)|
            #![trigger g.edge_between(a, b)]
            g.edge_between(a, b) == joined_edge(
                graph.edge_between(a, b),
                results@,
                options.wait_time_multiplier,
                a,
                b,
                results@.len() as int,
            ),
{
    let mut g = graph;
    let mut i: usize = 0;
    while i < results.len()
        invariant
            i <= results@.len(),
            g.wf(),
            g.extends(&graph),
            forall|k: (u64, i16)|
                #![trigger g.index().contains_key(k)]
                g.index().contains_key(k) <==> joined_key(
                    graph.index().contains_key(k),
                    results@,
                    options.wait_time_multiplier,
                    k,
                    i as int,
                ),
            forall|a: (u64, i16), b: (u64, i16)|
                #![trigger g.edge_between(a, b)]
                g.edge_between(a, b) == joined_edge(
                    graph.edge_between(a, b),
                    results@,
                    options.wait_time_multiplier,
                    a,
                    b,
                    i as int,
                ),
        decreases results@.len() - i,
    {
        let other = h3_network_from_gtfs(options, &results[i]);
        let ghost before = g;
        g.merge(&other);
        proof {
            assert forall|k: (u64, i16)|
                #![trigger g.index().contains_key(k)]
                g.index().contains_key(k) <==> joined_key(
                    graph.index().contains_key(k),
                    results@,
                    options.wait_time_multiplier,
                    k,
                    i + 1,
                ) by {
                lemma_made_of_touches(
                    &other,
                    gtfs_offers(
                        results@[i as int].edge_data@,
                        results@[i as int].stop_frequencies@,
                        options.wait_time_multiplier,
                        results@[i as int].edge_data@.len() as int,
                    ),
                    k,
                );
                assert(g.index().contains_key(k) <==> before.index().contains_key(k)
                    || other.touches(k));
            }
            assert forall|a: (u64, i16), b: (u64, i16)|
                #![trigger g.edge_between(a, b)]
                g.edge_between(a, b) == joined_edge(
                    graph.edge_between(a, b),
                    results@,
                    options.wait_time_multiplier,
                    a,
                    b,
                    i + 1,
                ) by {
                assert(g.edge_between(a, b) == Graph::<H3Cell>::merged_edge(
                    before.edge_between(a, b),
                    other.edge_between(a, b),
                ));
            }
            assert forall|k: int| 0 <= k < graph.nodes@.len() implies g.nodes@[k]
                == #[trigger] graph.nodes@[k] by {
                assert(before.nodes@[k] == graph.nodes@[k]);
            }
        }
        i += 1;
    }
    g
}

impl PyH3Graph {
    /// Whether `graph` is what `create` builds from the ways and the feeds.
    pub open spec fn created(
        graph: &Graph<H3Cell>,
        options: OSMOptions,
        ways: Seq<Way>,
        cell_distance: u64,
        feeds: Seq<GtfsFeed>,
    ) -> bool {
        let streets = ways_output(
            ways,
            layers_of(options.osm_layer),
            cell_distance,
            ways.len() as int,
        );
        exists|results: Seq<GtfsProcessingResult>|
            {
                &&& results.len() == if options.gtfs_layer {
                    feeds.len()
                } else {
                    0
                }
                &&& forall|k: int|
                    0 <= k < results.len() ==> feed_read(
                        #[trigger] results[k],
                        feeds[k],
                        offset_at(results, k),
                    )
                &&& forall|k: (u64, i16)|
                    #![trigger graph.index().contains_key(k)]
                    graph.index().contains_key(k) <==> joined_key(
                        keys_after(
                            Set::<(u64, i16)>::empty(),
                            osm_offers(streets, options.weight_modifier.bike_penalty, streets.len() as int),
                        ).contains(k),
                        results,
                        options.weight_modifier.wait_time_multiplier,
                        k,
                        results.len() as int,
                    )
                &&& forall|a: (u64, i16), b: (u64, i16)|
                    #![trigger graph.edge_between(a, b)]
                    graph.edge_between(a, b) == joined_edge(
                        edge_after(
                            None,
                            osm_offers(streets, options.weight_modifier.bike_penalty, streets.len() as int),
                            a,
                            b,
                        ),
                        results,
                        options.weight_modifier.wait_time_multiplier,
                        a,
                        b,
                        results.len() as int,
                    )
            }
    }

    /// Builds the graph: the street layers from the ways and, where the
    /// settings ask for timetables, the layers of the routes of each feed,
    /// merged into the streets one feed after the other.
    pub fn create(&mut self, ways: &Vec<Way>, cell_distance: u64, feeds: &Vec<GtfsFeed>)
        ensures
            final(self).graph.wf(),
            final(self).options == old(self).options,
            final(self).k_ring == old(self).k_ring,
            Self::created(&final(self).graph, old(self).options, ways@, cell_distance, feeds@),
    {
        let edges = process_osm_pbf(ways, &self.options, cell_distance);
        let osm_graph = h3_network_from_osm(&edges, &self.options);
        if self.options.gtfs_layer {
            let results = process_feeds(feeds);
            let ghost streets = osm_graph;
            let graph = assemble(osm_graph, &results, &self.options.weight_modifier);
            proof {
                assert forall|a: (u64, i16), b: (u64, i16)|
                    #![trigger graph.edge_between(a, b)]
                    graph.edge_between(a, b) == joined_edge(
                        edge_after(
                            None,
                            osm_offers(
                                edges@,
                                self.options.weight_modifier.bike_penalty,
                                edges@.len() as int,
                            ),
                            a,
                            b,
                        ),
                        results@,
                        self.options.weight_modifier.wait_time_multiplier,
                        a,
                        b,
                        results@.len() as int,
                    ) by {
                    assert(streets.edge_between(a, b) == edge_after(
                        None,
                        osm_offers(
                            edges@,
                            self.options.weight_modifier.bike_penalty,
                            edges@.len() as int,
                        ),
                        a,
                        b,
                    ));
                }
                assert(Self::created(&graph, self.options, ways@, cell_distance, feeds@));
            }
            self.graph = graph;
        } else {
            proof {
                let none = Seq::<GtfsProcessingResult>::empty();
                assert forall|a: (u64, i16), b: (u64, i16)|
                    #![trigger osm_graph.edge_between(a, b)]
                    osm_graph.edge_between(a, b) == joined_edge(
                        edge_after(
                            None,
                            osm_offers(
                                edges@,
                                self.options.weight_modifier.bike_penalty,
                                edges@.len() as int,
                            ),
                            a,
                            b,
                        ),
                        none,
                        self.options.weight_modifier.wait_time_multiplier,
                        a,
                        b,
                        none.len() as int,
                    ) by {}
                assert(none.len() == 0);
                assert(Self::created(&osm_graph, self.options, ways@, cell_distance, feeds@));
            }
            self.graph = osm_graph;
        }
    }
}

/// A graph of flat hexagon cells.
pub struct PyCellGraph {
    pub graph: Graph<HexCell>,
}

/// The distance between two numbers.
pub open spec fn gap(x: int, y: int) -> int {
    if x >= y {
        x - y
    } else {
        y - x
    }
}

/// The estimate for the way between two hexagon cells: the steps within
/// the layer and the layers between them, times the width of a cell, a
/// minute for each unit.
pub open spec fn hex_estimate(a: HexCell, b: HexCell) -> u64 {
    let steps = (gap(a.a as int, b.a as int) + gap(a.b as int, b.b as int) + gap(
        a.a + a.b,
        b.a + b.b,
    )) / 2 + gap(a.layer as int, b.layer as int);
    let width = a.radius * 2;
    if width <= 0 {
        0
    } else {
        (steps * width * MINUTE) as u64
    }
}

/// The first neighbour of `cell`, among the first `upto` directions, that
/// the graph has.
pub open spec fn neighbor_hit(g: &Graph<HexCell>, cell: HexCell, upto: int) -> Option<HexCell>
    decreases upto,
{
    if upto <= 0 {
        None
    } else {
        match neighbor_hit(g, cell, upto - 1) {
            Some(c) => Some(c),
            None => {
                let d = all_directions()[upto - 1];
                if cell.has_neighbor(d) && g.contains(cell.spec_neighbor(d)) {
                    Some(cell.spec_neighbor(d))
                } else {
                    None
                }
            },
        }
    }
}

/// The node that stands for an identifier in the graph: the cell it
/// identifies where the graph has it, else the first neighbour of that
/// cell that the graph has.
pub open spec fn adjusted(g: &Graph<HexCell>, id: u64) -> Option<HexCell> {
    if g.contains(HexCell::spec_from_id(id)) {
        Some(HexCell::spec_from_id(id))
    } else {
        neighbor_hit(g, HexCell::spec_from_id(id), 8)
    }
}

/// The first `upto` identifiers that a node stands for, each with its node.
pub open spec fn adjusted_rows(g: &Graph<HexCell>, list: Seq<u64>, upto: int) -> Seq<(u64, HexCell)>
    decreases upto,
{
    if upto <= 0 {
        Seq::empty()
    } else {
        match adjusted(g, list[upto - 1]) {
            Some(c) => adjusted_rows(g, list, upto - 1).push((list[upto - 1], c)),
            None => adjusted_rows(g, list, upto - 1),
        }
    }
}

/// The nodes of rows of identifiers and nodes.
pub open spec fn cells_in(rows: Seq<(u64, HexCell)>) -> Seq<HexCell> {
    Seq::new(rows.len(), |i: int| rows[i].1)
}

/// The estimate for the way between two hexagon cells.
pub fn hex_heuristic(a: &HexCell, b: &HexCell) -> (r: u64)
    ensures
        r == hex_estimate(*a, *b),
{
    let dx: i64 = if a.a >= b.a {
        a.a as i64 - b.a as i64
    } else {
        b.a as i64 - a.a as i64
    };
    let dy: i64 = if a.b >= b.b {
        a.b as i64 - b.b as i64
    } else {
        b.b as i64 - a.b as i64
    };
    let sa: i64 = a.a as i64 + a.b as i64;
    let sb: i64 = b.a as i64 + b.b as i64;
    let dz: i64 = if sa >= sb {
        sa - sb
    } else {
        sb - sa
    };
    let dl: i64 = if a.layer >= b.layer {
        a.layer as i64 - b.layer as i64
    } else {
        b.layer as i64 - a.layer as i64
    };
    let steps: i64 = (dx + dy + dz) / 2 + dl;
    let width: i64 = a.radius as i64 * 2;
    if width <= 0 {
        return 0;
    }
    assert(0 <= steps <= 200_000);
    assert(0 < width <= 70_000);
    assert(steps * width * MINUTE <= 200_000 * 70_000 * 1_000_000 && 0 <= steps * width <= 200_000
        * 70_000) by (nonlinear_arith)
        requires
            0 <= steps <= 200_000,
            0 < width <= 70_000,
            MINUTE == 1_000_000,
    ;
    ((steps * width) as u64) * MINUTE
}

impl Graph<HexCell> {
    /// The node that stands for an identifier in the graph.
    pub fn adjust(&self, id: u64) -> (r: Option<HexCell>)
        requires
            self.wf(),
        ensures
            r == adjusted(self, id),
    {
        let cell = HexCell::from_id(id);
        if self.find(&cell).is_some() {
            return Some(cell);
        }
        let mut i: usize = 0;
        while i < 8
            invariant
                i <= 8,
                self.wf(),
                cell == HexCell::spec_from_id(id),
                !self.contains(cell),
                neighbor_hit(self, cell, i as int) is None,
            decreases 8 - i,
        {
            match cell.try_neighbor(direction_at(i)) {
                Some(n) => {
                    if self.find(&n).is_some() {
                        proof {
                            lemma_neighbor_hit_stays(self, cell, i + 1, 8);
                        }
                        return Some(n);
                    }
                },
                None => {},
            }
            i += 1;
        }
        None
    }
}

/// A neighbour that was found stays the one found when more directions
/// are looked at.
pub proof fn lemma_neighbor_hit_stays(g: &Graph<HexCell>, cell: HexCell, from: int, upto: int)
    requires
        neighbor_hit(g, cell, from) is Some,
        from <= upto,
    ensures
        neighbor_hit(g, cell, upto) == neighbor_hit(g, cell, from),
    decreases upto - from,
{
    if from < upto {
        lemma_neighbor_hit_stays(g, cell, from, upto - 1);
    }
}

impl PyCellGraph {
    /// An empty graph.
    pub fn new() -> (r: Self)
        ensures
            r.graph.wf(),
            r.graph.nodes@.len() == 0,
    {
        PyCellGraph { graph: Graph::<HexCell>::new() }
    }

    /// Replaces the graph by the one with the given transitions as edges.
    pub fn create_from_mpk(&mut self, transitions: &Vec<(HexCell, HexCell, u64)>)
        ensures
            final(self).graph.made_of(transition_offers(transitions@, transitions@.len() as int)),
    {
        self.graph = cell_graph_from_mpk(transitions);
    }

    /// The identifiers of a list that a node stands for, each with its
    /// node.
    pub fn adjust_all(&self, list: &Vec<u64>) -> (rows: Vec<(u64, HexCell)>)
        requires
            self.graph.wf(),
        ensures
            rows@ == adjusted_rows(&self.graph, list@, list@.len() as int),
    {
        let mut rows: Vec<(u64, HexCell)> = Vec::new();
        let mut i: usize = 0;
        while i < list.len()
            invariant
                i <= list@.len(),
                self.graph.wf(),
                rows@ == adjusted_rows(&self.graph, list@, i as int),
            decreases list@.len() - i,
        {
            match self.graph.adjust(list[i]) {
                Some(c) => rows.push((list[i], c)),
                None => {},
            }
            i += 1;
        }
        rows
    }

    /// Whether `data` is the row of distances from the node `origin` to the
    /// nodes `to`: what a search by cost for all of them owes, and an empty
    /// row where that search fails.
    pub open spec fn row_ok(&self, data: Seq<Option<u64>>, origin: HexCell, to: Seq<HexCell>) -> bool {
        exists|row: Result<Vec<Option<u64>>, GraphError>, dests: Vec<HexCell>|
            {
                &&& dests@ == to
                &&& #[trigger] self.graph.cost_row_ok(
                    row,
                    origin,
                    Some(&dests),
                    None,
                    None,
                    None,
                    false,
                )
                &&& data == match row {
                    Ok(d) => d@,
                    Err(_) => Seq::<Option<u64>>::empty(),
                }
            }
    }

    /// Whether `rows` are the distances from the origins to the
    /// destinations: one row for each origin that a node stands for, in the
    /// order of the origins.
    pub open spec fn matrix_ok(
        &self,
        rows: Seq<(u64, Vec<Option<u64>>)>,
        origins: Seq<u64>,
        destinations: Seq<u64>,
    ) -> bool {
        let from = adjusted_rows(&self.graph, origins, origins.len() as int);
        let to = cells_in(adjusted_rows(&self.graph, destinations, destinations.len() as int));
        &&& rows.len() == from.len()
        &&& forall|k: int|
            0 <= k < rows.len() ==> (#[trigger] rows[k]).0 == from[k].0 && self.row_ok(
                rows[k].1@,
                from[k].1,
                to,
            )
    }

    /// The distances from each origin to each destination, found with the
    /// distance on the hexagon grid as the heuristic.
    pub fn matrix_distance(&self, origins: &Vec<u64>, destinations: &Vec<u64>) -> (rows: Vec<
        (u64, Vec<Option<u64>>),
    >)
        requires
            self.graph.wf(),
        ensures
            self.matrix_ok(rows@, origins@, destinations@),
    {
        let from = self.adjust_all(origins);
        let to = self.adjust_all(destinations);
        let mut starts: Vec<HexCell> = Vec::new();
        let mut i: usize = 0;
        while i < from.len()
            invariant
                i <= from@.len(),
                starts@.len() == i,
                forall|k: int| 0 <= k < i ==> starts@[k] == from@[k].1,
            decreases from@.len() - i,
        {
            starts.push(from[i].1);
            i += 1;
        }
        let mut ends: Vec<HexCell> = Vec::new();
        let mut i: usize = 0;
        while i < to.len()
            invariant
                i <= to@.len(),
                ends@.len() == i,
                forall|k: int| 0 <= k < i ==> ends@[k] == to@[k].1,
            decreases to@.len() - i,
        {
            ends.push(to[i].1);
            i += 1;
        }
        assert(ends@ =~= cells_in(to@));
        let h = |a: &HexCell, b: &HexCell| -> (r: u64) { hex_heuristic(a, b) };
        let found = self.graph.matrix_astar_distance(&starts, Some(&ends), true, None, None, None, h);
        let mut rows: Vec<(u64, Vec<Option<u64>>)> = Vec::new();
        let mut k: usize = 0;
        assert(origins_searched(starts@, true) == starts@);
        while k < found.len()
            invariant
                k <= found@.len(),
                rows@.len() == k,
                found@.len() == from@.len(),
                starts@.len() == from@.len(),
                ends@ == cells_in(to@),
                forall|j: int| 0 <= j < starts@.len() ==> starts@[j] == from@[j].1,
                forall|j: int|
                    0 <= j < found@.len() ==> (#[trigger] found@[j]).0 == starts@[j]
                        && self.graph.cost_row_ok(
                        found@[j].1,
                        found@[j].0,
                        Some(&ends),
                        None,
                        None,
                        None,
                        is_constant(h),
                    ),
                forall|j: int|
                    0 <= j < k ==> (#[trigger] rows@[j]).0 == from@[j].0 && self.row_ok(
                        rows@[j].1@,
                        from@[j].1,
                        cells_in(to@),
                    ),
            decreases found@.len() - k,
        {
            let data = match &found[k].1 {
                Ok(d) => copy_row(d),
                Err(_) => Vec::new(),
            };
            proof {
                let row = found@[k as int].1;
                lemma_any_heuristic(
                    &self.graph,
                    match row {
                        Ok(d) => Ok(AStarResult { path: None, single_target: false, distances: d }),
                        Err(e) => Err(e),
                    },
                    from@[k as int].1,
                    None,
                    Some(&ends),
                    None,
                    None,
                    None,
                    is_constant(h),
                );
                assert(self.graph.cost_row_ok(
                    row,
                    from@[k as int].1,
                    Some(&ends),
                    None,
                    None,
                    None,
                    false,
                ));
            }
            let ghost before = rows@;
            rows.push((from[k].0, data));
            proof {
                let row = found@[k as int].1;
                assert(self.graph.cost_row_ok(
                    row,
                    from@[k as int].1,
                    Some(&ends),
                    None,
                    None,
                    None,
                    false,
                ) && rows@[k as int].1@ == match row {
                    Ok(d) => d@,
                    Err(_) => Seq::<Option<u64>>::empty(),
                });
                assert(self.row_ok(rows@[k as int].1@, from@[k as int].1, cells_in(to@)));
                assert forall|j: int| 0 <= j < k implies (#[trigger] rows@[j]).0 == from@[j].0
                    && self.row_ok(rows@[j].1@, from@[j].1, cells_in(to@)) by {
                    assert(rows@[j] == before[j]);
                }
            }
            k += 1;
        }
        rows
    }
}

impl Default for PyH3Graph {
    /// An empty graph of all layers with the usual weights, asked within
    /// two rings.
    fn default() -> (r: Self)
        ensures
            r.graph.wf(),
            r.graph.nodes@.len() == 0,
            r.k_ring == 2,
            r.options.gtfs_layer,
            r.options.osm_layer is None,
            r.options.weight_modifier == (WeightModifier {
                bike_penalty: MINUTE,
                wait_time_multiplier: 1000,
                walk_speed: 1400,
                bike_speed: 4500,
            }),
    {
        let r = Self::new(Some(WeightModifier::default()), 2, "all");
        proof {
            reveal_strlit("all");
            reveal_strlit("walk+bike");
            reveal_strlit("walk");
            reveal_strlit("walk+transit");
            assert("all"@.len() == 3);
        }
        r
    }
}

impl Default for PyCellGraph {
    fn default() -> (r: Self)
        ensures
            r.graph.wf(),
            r.graph.nodes@.len() == 0,
    {
        Self::new()
    }
}

/// The first origin for which a node stands has a row: the row under that
/// origin holds the distances from the node. An origin for which no node
/// stands has none.
pub proof fn lemma_origin_has_row(
    graph: &PyH3Graph,
    rows: Seq<(u64, Vec<Option<u64>>)>,
    origins: Seq<u64>,
    destinations: Seq<u64>,
    hour: Option<usize>,
    infinity: Option<u64>,
    dynamic_infinity: Option<bool>,
    m: int,
    node: H3Cell,
)
    requires
        graph.matrix_ok(rows, origins, destinations, hour, infinity, dynamic_infinity),
        is_first_for(&graph.graph, origins, graph.k_ring, m, node),
    ensures
        exists|k: int|
            0 <= k < rows.len() && (#[trigger] rows[k]).0 == origins[m] && graph.row_ok(
                rows[k].1@,
                node,
                nodes_for(&graph.graph, destinations, graph.k_ring),
                hour,
                infinity,
                dynamic_infinity,
            ),
        forall|k: int|
            0 <= k < rows.len() ==> resolved(&graph.graph, (#[trigger] rows[k]).0, graph.k_ring)
                is Some,
{
    let g = &graph.graph;
    let k_ring = graph.k_ring;
    let n = origins.len() as int;
    let snaps = snap_rows(g, origins, k_ring, n);
    let nodes = nodes_for(g, origins, k_ring);
    let unique = unique_origins(nodes);
    assert(h3_is_cell(origins[m]));
    lemma_row_of(g, origins, k_ring, n, m);
    let r = snap_rows(g, origins, k_ring, m).len() as int;
    assert(snaps[r].1 == Some(node));
    lemma_nodes_hold(snaps, snaps.len() as int, r);
    let j = choose|j: int| 0 <= j < nodes.len() && #[trigger] nodes[j] == node;
    assert(nodes[j].key_spec() == node.key_spec());
    lemma_unique_origins(nodes);
    assert(named_in(unique, nodes[j]));
    let k = choose|k: int|
        0 <= k < unique.len() && (#[trigger] unique[k]).key_spec() == nodes[j].key_spec();
    assert(unique[k] == node);
    assert(graph.keyed_by_first(origins, rows[k].0, unique[k]));
    let first = choose|first: int| #[trigger]
        is_first_for(g, origins, k_ring, first, node) && origins[first] == rows[k].0;
    if first < m {
        assert(resolved_at(g, origins, k_ring, first) != Some(node));
    } else if m < first {
        assert(resolved_at(g, origins, k_ring, m) != Some(node));
    }
    assert(rows[k].0 == origins[m]);
}

} // verus!
