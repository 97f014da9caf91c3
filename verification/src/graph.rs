//! The node and edge store: a dense node list, one adjacency list per node,
//! and a two-way index between node keys and node positions.

use crate::bytes::{low_bytes, low_bytes_of};
use bimap::BiHashMap;
use std::collections::hash_map::DefaultHasher;
use std::hash::Hasher;
use vstd::prelude::*;
use vstd::relations::{sorted_by, total_ordering};
use vstd::std_specs::hash::DefaultHasherAdditionalSpecFns;

verus! {

/// The number of cost units in one minute. Every weight, and every distance
/// that a search by cost reports, is a whole number of these units.
///
/// Breadth-first search does not count in these units: its distances are
/// numbers of edges. On a graph whose edges all cost a minute the two agree
/// once the number of edges is multiplied by `MINUTE`.
pub const MINUTE: u64 = 1_000_000;

/// The cost that stands for "no passage": an edge of this weight is never
/// taken, and no distance reaches it.
pub const INFINITE: u64 = u64::MAX;

/// The number of hours in a week, and the length of every weight list.
pub const HOURS_PER_WEEK: usize = 168;

/// The bimap crate's two-way hash map, opaque to the verifier.
#[verifier::external_type_specification]
#[verifier::external_body]
#[verifier::reject_recursive_types(L)]
#[verifier::reject_recursive_types(R)]
#[verifier::reject_recursive_types(LS)]
#[verifier::reject_recursive_types(RS)]
pub struct ExBiHashMap<L, R, LS, RS>(BiHashMap<L, R, LS, RS>);

/// The pairs that a key index holds, as a map from key to position.
pub uninterp spec fn index_pairs(m: BiHashMap<(u64, i16), usize>) -> Map<(u64, i16), usize>;

/// The index without any pair.
pub open spec fn no_pairs() -> Map<(u64, i16), usize> {
    Map::empty()
}

/// The pairs of an index after `key` has been paired with `position`: the new
/// pair, and every earlier pair that shares neither its key nor its position.
pub open spec fn pairs_after_insert(
    pairs: Map<(u64, i16), usize>,
    key: (u64, i16),
    position: usize,
) -> Map<(u64, i16), usize> {
    Map::new(
        |k: (u64, i16)| k == key || (pairs.contains_key(k) && pairs[k] != position),
        |k: (u64, i16)|
            if k == key {
                position
            } else {
                pairs[k]
            },
    )
}

/// `BiHashMap::new`: a fresh index holds no pair.
#[verifier::external_body]
fn index_new() -> (m: BiHashMap<(u64, i16), usize>)
    ensures
        index_pairs(m) == no_pairs(),
{
    BiHashMap::new()
}

/// `BiHashMap::get_by_left`: the position paired with `key`, if there is one.
#[verifier::external_body]
fn index_get_by_left(m: &BiHashMap<(u64, i16), usize>, key: &(u64, i16)) -> (r: Option<usize>)
    ensures
        r == if index_pairs(*m).contains_key(*key) {
            Some(index_pairs(*m)[*key])
        } else {
            None::<usize>
        },
{
    m.get_by_left(key).copied()
}

/// `BiHashMap::insert`: the new pair is held, every other pair with the same
/// key or the same position is dropped, and the rest stay.
#[verifier::external_body]
fn index_insert(m: &mut BiHashMap<(u64, i16), usize>, key: (u64, i16), position: usize)
    ensures
        index_pairs(*final(m)) == pairs_after_insert(index_pairs(*old(m)), key, position),
{
    m.insert(key, position);
}

/// The order of keys: by cell, and by layer where the cells are the same.
pub open spec fn key_le() -> spec_fn((u64, i16), (u64, i16)) -> bool {
    |a: (u64, i16), b: (u64, i16)| a.0 < b.0 || (a.0 == b.0 && a.1 <= b.1)
}

/// What is fed to the hasher for the first `upto` keys: for each the eight
/// bytes of the cell and the two bytes of the layer.
pub open spec fn key_writes(keys: Seq<(u64, i16)>, upto: int) -> Seq<Seq<u8>>
    decreases upto,
{
    if upto <= 0 {
        Seq::empty()
    } else {
        key_writes(keys, upto - 1).push(low_bytes(keys[upto - 1].0, 8)).push(
            low_bytes(keys[upto - 1].1 as u16 as u64, 2),
        )
    }
}

/// What is fed to the hasher for a list of keys: the eight bytes of their
/// number, and then each key.
pub open spec fn hash_writes(keys: Seq<(u64, i16)>) -> Seq<Seq<u8>> {
    seq![low_bytes(keys.len() as u64, 8)] + key_writes(keys, keys.len() as int)
}

/// `slice::sort_unstable`: the keys are put in ascending order, and none is
/// lost or added.
#[verifier::external_body]
fn sort_keys(keys: &mut Vec<(u64, i16)>)
    ensures
        final(keys)@.to_multiset() == old(keys)@.to_multiset(),
        sorted_by(final(keys)@, key_le()),
{
    keys.sort_unstable();
}

/// The order of keys is a total order.
pub proof fn lemma_key_order()
    ensures
        total_ordering(key_le()),
{
    let le = key_le();
    assert(vstd::relations::reflexive(le));
    assert(vstd::relations::antisymmetric(le));
    assert(vstd::relations::transitive(le));
    assert(vstd::relations::strongly_connected(le));
}

/// `rand::random`: a number drawn by the thread's random generator. Nothing
/// is known of it in advance.
#[verifier::external_body]
fn random_draw() -> usize {
    rand::random::<usize>()
}

/// A type whose values name the nodes of a graph. Two values name the same
/// node exactly when their keys are equal.
pub trait NodeKey: Copy {
    /// The key of the value: a spatial cell and a layer.
    spec fn key_spec(&self) -> (u64, i16);

    /// The key of the value.
    fn key(&self) -> (k: (u64, i16))
        ensures
            k == self.key_spec(),
    ;

    /// Values with equal keys are equal.
    proof fn lemma_key_injective(a: Self, b: Self)
        requires
            a.key_spec() == b.key_spec(),
        ensures
            a == b,
    ;
}

/// A node of the graph: its key, and a layer annotation that searches ignore.
#[derive(Debug, PartialEq, Eq)]
pub struct Node<T> {
    pub id: T,
    pub layer: Option<i32>,
}

/// A directed edge, described by the positions of its source and target.
///
/// `weight` is the cost of the edge; `weight_list`, where present, gives a cost
/// for each hour of the week; `capacity` is carried along unused.
#[derive(Debug)]
pub struct Edge {
    pub from: usize,
    pub to: usize,
    pub weight: Option<u64>,
    pub weight_list: Option<Vec<u64>>,
    pub capacity: Option<u64>,
}

/// What an edge carries besides its two ends.
pub struct EdgeData {
    pub weight: Option<u64>,
    pub weight_list: Option<Seq<u64>>,
    pub capacity: Option<u64>,
}

/// Why a query or an update could not be carried out.
#[derive(Debug, Clone, Copy, PartialEq, Eq, Structural)]
pub enum GraphError {
    /// A node that the call names is not in the graph.
    InputNotFound,
    /// A search was asked for without any target.
    NoTarget,
    /// No path of finite cost leads to the target within the cutoff.
    NoPath,
    /// Two cells that should share an edge of the grid are no neighbours.
    NotNeighbors,
    /// The grid gives no plane coordinates for a cell.
    NoLocalCoordinates,
}

/// The weight by which two edges between the same nodes are compared: an
/// absent weight counts as sixty minutes.
pub open spec fn compare_weight(weight: Option<u64>) -> u64 {
    match weight {
        Some(w) => w,
        None => (60 * MINUTE) as u64,
    }
}

/// The edge that stays when `new` meets what is already there: the one of
/// smaller weight, and the old one where they weigh the same.
pub open spec fn lighter(held: Option<EdgeData>, new: EdgeData) -> EdgeData {
    match held {
        Some(h) => if compare_weight(h.weight) > compare_weight(new.weight) {
            new
        } else {
            h
        },
        None => new,
    }
}

/// Whether a weight list has one entry for each hour of the week.
pub open spec fn list_well_formed(weight_list: Option<Seq<u64>>) -> bool {
    match weight_list {
        Some(l) => l.len() == HOURS_PER_WEEK,
        None => true,
    }
}

/// An edge that is offered to a graph: the keys of its two ends, and what
/// it carries.
pub struct Offer<T> {
    pub from: T,
    pub to: T,
    pub data: EdgeData,
}

/// Whether the store takes up an offered edge: it joins two different nodes
/// and its weight list, if it has one, covers the week.
pub open spec fn acceptable<T: NodeKey>(offer: Offer<T>) -> bool {
    offer.from.key_spec() != offer.to.key_spec() && list_well_formed(offer.data.weight_list)
}

/// What joins the keys `a` and `b` after edges have been offered one after
/// the other, where `held` joined them before: each acceptable offer
/// between these two keys meets what is held then, and the lighter stays.
pub open spec fn edge_after<T: NodeKey>(
    held: Option<EdgeData>,
    offers: Seq<Offer<T>>,
    a: (u64, i16),
    b: (u64, i16),
) -> Option<EdgeData>
    decreases offers.len(),
{
    if offers.len() == 0 {
        held
    } else {
        let before = edge_after(held, offers.drop_last(), a, b);
        let offer = offers.last();
        if acceptable(offer) && a == offer.from.key_spec() && b == offer.to.key_spec() {
            Some(lighter(before, offer.data))
        } else {
            before
        }
    }
}

/// The keys of a graph after edges have been offered: those it had, and
/// both ends of every offer.
pub open spec fn keys_after<T: NodeKey>(keys: Set<(u64, i16)>, offers: Seq<Offer<T>>) -> Set<
    (u64, i16),
>
    decreases offers.len(),
{
    if offers.len() == 0 {
        keys
    } else {
        keys_after(keys, offers.drop_last()).insert(offers.last().from.key_spec()).insert(
            offers.last().to.key_spec(),
        )
    }
}

/// The keys that offers add to a graph that has `keys`, each once, in the
/// order in which the offers name them first: of each offer first the key
/// it leads from, then the key it leads to.
pub open spec fn keys_added<T: NodeKey>(keys: Set<(u64, i16)>, offers: Seq<Offer<T>>) -> Seq<
    (u64, i16),
>
    decreases offers.len(),
{
    if offers.len() == 0 {
        Seq::empty()
    } else {
        let before = keys_added(keys, offers.drop_last());
        let from = offers.last().from.key_spec();
        let to = offers.last().to.key_spec();
        let with_from = if keys.contains(from) || before.contains(from) {
            before
        } else {
            before.push(from)
        };
        if keys.contains(to) || with_from.contains(to) {
            with_from
        } else {
            with_from.push(to)
        }
    }
}

/// A sequence with one more entry holds what it held and that entry.
pub proof fn lemma_contains_push(s: Seq<(u64, i16)>, x: (u64, i16), k: (u64, i16))
    ensures
        s.push(x).contains(k) <==> s.contains(k) || k == x,
{
    if s.contains(k) {
        let i = choose|i: int| 0 <= i < s.len() && s[i] == k;
        assert(s.push(x)[i] == k);
    }
    if k == x {
        assert(s.push(x)[s.len() as int] == k);
    }
    if s.push(x).contains(k) {
        let i = choose|i: int| 0 <= i < s.push(x).len() && s.push(x)[i] == k;
        if i < s.len() {
            assert(s[i] == k);
        }
    }
}

/// A key belongs to a graph after offers if the graph had it or the offers
/// add it.
pub proof fn lemma_key_added<T: NodeKey>(
    keys: Set<(u64, i16)>,
    offers: Seq<Offer<T>>,
    k: (u64, i16),
)
    ensures
        keys_after(keys, offers).contains(k) <==> keys.contains(k) || keys_added(
            keys,
            offers,
        ).contains(k),
    decreases offers.len(),
{
    if offers.len() > 0 {
        lemma_key_added(keys, offers.drop_last(), k);
        let before = keys_added(keys, offers.drop_last());
        let from = offers.last().from.key_spec();
        let to = offers.last().to.key_spec();
        let with_from = if keys.contains(from) || before.contains(from) {
            before
        } else {
            before.push(from)
        };
        lemma_contains_push(before, from, k);
        lemma_contains_push(with_from, to, k);
        assert(keys_after(keys, offers) == keys_after(keys, offers.drop_last()).insert(from).insert(
            to,
        ));
        assert(keys_added(keys, offers) == if keys.contains(to) || with_from.contains(to) {
            with_from
        } else {
            with_from.push(to)
        });
    } else {
        assert(keys_added(keys, offers) =~= Seq::<(u64, i16)>::empty());
        assert(keys_after(keys, offers) == keys);
    }
}

impl Edge {
    /// What the edge carries besides its two ends.
    pub open spec fn data(&self) -> EdgeData {
        EdgeData {
            weight: self.weight,
            weight_list: match self.weight_list {
                Some(l) => Some(l@),
                None => None,
            },
            capacity: self.capacity,
        }
    }

    /// An edge without a weight list.
    pub fn new(from: usize, to: usize, weight: Option<u64>, capacity: Option<u64>) -> (e: Edge)
        ensures
            e.from == from,
            e.to == to,
            e.data() == (EdgeData { weight, weight_list: None, capacity }),
    {
        Edge { from, to, weight, weight_list: None, capacity }
    }
}

/// A directed graph whose nodes are named by keys of type `T`.
#[derive(Debug)]
pub struct Graph<T> {
    /// The nodes by position; a slot may be empty.
    pub nodes: Vec<Option<Node<T>>>,
    /// For each position, the edges that leave it.
    pub edges: Vec<Vec<Edge>>,
    /// The position of each key, and the key of each position.
    pub node_map: BiHashMap<(u64, i16), usize>,
}

impl<T: NodeKey> Graph<T> {
    /// The position of each key in the graph.
    pub open spec fn index(&self) -> Map<(u64, i16), usize> {
        index_pairs(self.node_map)
    }

    /// Whether the graph has a node named by `id`.
    pub open spec fn contains(&self, id: T) -> bool {
        self.index().contains_key(id.key_spec())
    }

    /// The position of the node named by `id`.
    pub open spec fn position(&self, id: T) -> int
        recommends
            self.contains(id),
    {
        self.index()[id.key_spec()] as int
    }

    /// Whether position `i` holds a node.
    pub open spec fn occupied(&self, i: int) -> bool {
        0 <= i < self.nodes.len() && self.nodes[i] is Some
    }

    /// The key of the node at position `i`.
    pub open spec fn key_at(&self, i: int) -> (u64, i16)
        recommends
            self.occupied(i),
    {
        self.nodes[i]->0.id.key_spec()
    }

    /// Whether an edge leads from position `u` to position `v`.
    pub open spec fn has_edge(&self, u: int, v: int) -> bool {
        0 <= u < self.edges.len() && exists|j: int|
            0 <= j < self.edges[u].len() && (#[trigger] self.edges[u][j]).to == v
    }

    /// The place of the edge from `u` to `v` in the adjacency list of `u`.
    pub open spec fn slot(&self, u: int, v: int) -> int
        recommends
            self.has_edge(u, v),
    {
        choose|j: int| 0 <= j < self.edges[u].len() && (#[trigger] self.edges[u][j]).to == v
    }

    /// What the edge from `u` to `v` carries, if there is such an edge.
    pub open spec fn edge_data(&self, u: int, v: int) -> Option<EdgeData> {
        if self.has_edge(u, v) {
            Some(self.edges[u][self.slot(u, v)].data())
        } else {
            None
        }
    }

    /// What the edge between the nodes of two keys carries, if both nodes
    /// exist and such an edge joins them.
    pub open spec fn edge_between(&self, a: (u64, i16), b: (u64, i16)) -> Option<EdgeData> {
        if self.index().contains_key(a) && self.index().contains_key(b) {
            self.edge_data(self.index()[a] as int, self.index()[b] as int)
        } else {
            None
        }
    }

    /// The invariant of the store: index and node list agree, every edge sits
    /// in the list of its source and joins two distinct nodes, no two edges
    /// join the same ordered pair, and weight lists cover the week.
    pub open spec fn wf(&self) -> bool {
        &&& self.edges.len() == self.nodes.len()
        &&& forall|i: int| #[trigger]
            self.occupied(i) ==> self.index().contains_key(self.key_at(i)) && self.index()[self.key_at(
                i,
            )] == i
        &&& forall|k: (u64, i16)| #[trigger]
            self.index().contains_key(k) ==> self.occupied(self.index()[k] as int) && self.key_at(
                self.index()[k] as int,
            ) == k
        &&& forall|u: int, j: int|
            0 <= u < self.edges.len() && 0 <= j < self.edges[u].len() ==> {
                let e = #[trigger] self.edges[u][j];
                &&& e.from == u
                &&& e.to != u
                &&& self.occupied(u)
                &&& self.occupied(e.to as int)
                &&& list_well_formed(e.data().weight_list)
            }
        &&& forall|u: int, j: int, k: int|
            0 <= u < self.edges.len() && 0 <= j < k < self.edges[u].len() ==> (
            #[trigger] self.edges[u][j]).to != (#[trigger] self.edges[u][k]).to
    }

    /// Whether this graph has grown out of `earlier`: the nodes of `earlier`
    /// are still there, each at its position.
    pub open spec fn extends(&self, earlier: &Self) -> bool {
        &&& earlier.nodes@.len() <= self.nodes@.len()
        &&& forall|i: int| 0 <= i < earlier.nodes@.len() ==> self.nodes@[i] == #[trigger] earlier.nodes@[i]
        &&& forall|k: (u64, i16)| #[trigger]
            earlier.index().contains_key(k) ==> self.index().contains_key(k) && self.index()[k]
                == earlier.index()[k]
    }

    /// Whether the same edges join the same keys here as in `earlier`.
    pub open spec fn same_edges(&self, earlier: &Self) -> bool {
        forall|a: (u64, i16), b: (u64, i16)|
            #![trigger self.edge_between(a, b)]
            self.edge_between(a, b) == earlier.edge_between(a, b)
    }

    /// Whether an edge from `from` to `to` that carries `data` is taken up by
    /// the store: it joins two different nodes and its weight list, if it has
    /// one, covers the week.
    pub open spec fn accepts(from: T, to: T, data: EdgeData) -> bool {
        acceptable(Offer { from, to, data })
    }

    /// Whether the edges here are those of `earlier` after an edge from
    /// `from` to `to` has been offered: between these two keys the lighter of
    /// the offered edge and the one held before, everywhere else what was
    /// there before.
    pub open spec fn edge_offered(&self, earlier: &Self, from: T, to: T, data: EdgeData) -> bool {
        forall|a: (u64, i16), b: (u64, i16)|
            #![trigger self.edge_between(a, b)]
            self.edge_between(a, b) == if Self::accepts(from, to, data) && a == from.key_spec() && b
                == to.key_spec() {
                Some(lighter(earlier.edge_between(a, b), data))
            } else {
                earlier.edge_between(a, b)
            }
    }

    /// Whether some edge of the graph starts or ends at the node of key `k`.
    pub open spec fn touches(&self, k: (u64, i16)) -> bool {
        exists|u: int, j: int|
            0 <= u < self.edges.len() && 0 <= j < self.edges[u].len() && (self.key_at(u) == k
                || self.key_at((#[trigger] self.edges[u][j]).to as int) == k)
    }

    /// What joins two keys after the edges of another graph have been merged
    /// in: where the other graph has an edge, the lighter of it and the one
    /// held before; elsewhere what was held before.
    pub open spec fn merged_edge(held: Option<EdgeData>, other: Option<EdgeData>) -> Option<
        EdgeData,
    > {
        match other {
            Some(d) => Some(lighter(held, d)),
            None => held,
        }
    }

    /// Whether this graph is `earlier` with `other` merged into it.
    pub open spec fn merged_from(&self, earlier: &Self, other: &Self) -> bool {
        &&& self.wf()
        &&& self.extends(earlier)
        &&& forall|k: (u64, i16)|
            #![trigger self.index().contains_key(k)]
            self.index().contains_key(k) <==> earlier.index().contains_key(k) || other.touches(k)
        &&& forall|a: (u64, i16), b: (u64, i16)|
            #![trigger self.edge_between(a, b)]
            self.edge_between(a, b) == Self::merged_edge(
                earlier.edge_between(a, b),
                other.edge_between(a, b),
            )
    }

    /// Whether place `(x, y)` of the adjacency lists comes before `(u, j)`
    /// when the lists are read one after the other.
    pub open spec fn comes_before(x: int, y: int, u: int, j: int) -> bool {
        x < u || (x == u && y < j)
    }

    /// Whether some edge at a place before `(u, j)` starts or ends at the node
    /// of key `k`.
    pub open spec fn touches_before(&self, k: (u64, i16), u: int, j: int) -> bool {
        exists|x: int, y: int|
            0 <= x < self.edges.len() && 0 <= y < self.edges[x].len() && Self::comes_before(
                x,
                y,
                u,
                j,
            ) && (self.key_at(x) == k || self.key_at((#[trigger] self.edges[x][y]).to as int) == k)
    }

    /// What the edge between two keys carries, if it sits at a place before
    /// `(u, j)`.
    pub open spec fn edge_between_before(
        &self,
        a: (u64, i16),
        b: (u64, i16),
        u: int,
        j: int,
    ) -> Option<EdgeData> {
        if self.edge_between(a, b) is Some && Self::comes_before(
            self.index()[a] as int,
            self.slot(self.index()[a] as int, self.index()[b] as int),
            u,
            j,
        ) {
            self.edge_between(a, b)
        } else {
            None
        }
    }

    /// Whether this graph is `earlier` after the edges of `offers` have been
    /// offered to it one after the other.
    pub open spec fn built_from(&self, earlier: &Self, offers: Seq<Offer<T>>) -> bool {
        &&& self.wf()
        &&& self.extends(earlier)
        &&& self.index().dom() == keys_after(earlier.index().dom(), offers)
        &&& self.placed(earlier.nodes@.len() as int, keys_added(earlier.index().dom(), offers))
        &&& forall|a: (u64, i16), b: (u64, i16)|
            #![trigger self.edge_between(a, b)]
            self.edge_between(a, b) == edge_after(earlier.edge_between(a, b), offers, a, b)
    }

    /// Whether the position `i` places after `first` holds the node of the
    /// key at place `i` of `keys`, without a layer annotation.
    pub open spec fn placed_at(&self, first: int, keys: Seq<(u64, i16)>, i: int) -> bool {
        &&& self.occupied(first + i)
        &&& self.key_at(first + i) == keys[i]
        &&& self.nodes@[first + i]->0.layer is None
    }

    /// Whether the positions from `first` on hold the nodes of `keys`, in
    /// their order, and none else.
    pub open spec fn placed(&self, first: int, keys: Seq<(u64, i16)>) -> bool {
        &&& self.nodes@.len() == first + keys.len()
        &&& forall|i: int| 0 <= i < keys.len() ==> #[trigger] self.placed_at(first, keys, i)
    }

    /// Whether this graph is what the edges of `offers`, offered one after
    /// the other to an empty graph, leave.
    pub open spec fn made_of(&self, offers: Seq<Offer<T>>) -> bool {
        &&& self.wf()
        &&& self.index().dom() == keys_after(Set::<(u64, i16)>::empty(), offers)
        &&& self.placed(0, keys_added(Set::<(u64, i16)>::empty(), offers))
        &&& forall|a: (u64, i16), b: (u64, i16)|
            #![trigger self.edge_between(a, b)]
            self.edge_between(a, b) == edge_after(None, offers, a, b)
    }

    /// The edge at place `j` of position `u`, as an offer between the keys
    /// of its ends.
    pub open spec fn offer_at(&self, u: int, j: int) -> Offer<T> {
        Offer {
            from: self.nodes@[u]->0.id,
            to: self.nodes@[self.edges[u][j].to as int]->0.id,
            data: self.edges[u][j].data(),
        }
    }

    /// The edges at the places before `(u, j)`, as offers, in the order of
    /// the places.
    pub open spec fn offers_before(&self, u: int, j: int) -> Seq<Offer<T>>
        decreases u, j,
    {
        if j > 0 {
            self.offers_before(u, j - 1).push(self.offer_at(u, j - 1))
        } else if u > 0 {
            self.offers_before(u - 1, self.edges[u - 1].len() as int)
        } else {
            Seq::empty()
        }
    }

    /// The edges of the graph as offers, position by position.
    pub open spec fn offers(&self) -> Seq<Offer<T>> {
        self.offers_before(self.edges.len() as int, 0)
    }

    /// An empty graph.
    pub fn new() -> (g: Self)
        ensures
            g.wf(),
            g.nodes@.len() == 0,
            g.index() == no_pairs(),
    {
        Graph { nodes: Vec::new(), edges: Vec::new(), node_map: index_new() }
    }

    /// The number of node positions.
    pub fn nr_nodes(&self) -> (n: usize)
        ensures
            n == self.nodes@.len(),
    {
        self.nodes.len()
    }

    /// The position of the node named by `id`, if the graph has it.
    pub fn find(&self, id: &T) -> (r: Option<usize>)
        ensures
            r == if self.contains(*id) {
                Some(self.position(*id) as usize)
            } else {
                None::<usize>
            },
    {
        let k = id.key();
        index_get_by_left(&self.node_map, &k)
    }

    /// Adds a node and returns its position. A key that the graph already has
    /// keeps its node and position, and nothing changes.
    pub fn add_node(&mut self, node: Node<T>) -> (idx: usize)
        requires
            old(self).wf(),
        ensures
            final(self).wf(),
            final(self).contains(node.id),
            final(self).position(node.id) == idx,
            old(self).contains(node.id) ==> *final(self) == *old(self),
            !old(self).contains(node.id) ==> {
                &&& idx == old(self).nodes@.len()
                &&& final(self).nodes@ == old(self).nodes@.push(Some(node))
                &&& final(self).index() == old(self).index().insert(node.id.key_spec(), idx)
                &&& final(self).edges@.len() == idx + 1
                &&& final(self).edges@[idx as int]@.len() == 0
                &&& forall|u: int|
                    0 <= u < idx ==> #[trigger] final(self).edges@[u] == old(self).edges@[u]
            },
            final(self).extends(old(self)),
            final(self).same_edges(old(self)),
    {
        let k = node.id.key();
        match index_get_by_left(&self.node_map, &k) {
            Some(i) => i,
            None => {
                let idx = self.nodes.len();
                index_insert(&mut self.node_map, k, idx);
                self.nodes.push(Some(node));
                self.edges.push(Vec::new());
                proof {
                    assert(final(self).index() =~= old(self).index().insert(k, idx)) by {
                        assert forall|q: (u64, i16)| old(self).index().contains_key(q) implies old(
                            self,
                        ).index()[q] != idx by {
                            assert(old(self).occupied(old(self).index()[q] as int));
                        }
                    }
                    assert forall|i: int| #[trigger] self.occupied(i) implies self.index().contains_key(
                        self.key_at(i),
                    ) && self.index()[self.key_at(i)] == i by {
                        if i < idx {
                            assert(old(self).occupied(i));
                            assert(self.key_at(i) == old(self).key_at(i));
                        }
                    }
                    assert forall|q: (u64, i16)| #[trigger]
                        self.index().contains_key(q) implies self.occupied(self.index()[q] as int)
                        && self.key_at(self.index()[q] as int) == q by {
                        if q != k {
                            assert(old(self).index().contains_key(q));
                            assert(old(self).occupied(old(self).index()[q] as int));
                        }
                    }
                    self.lemma_wf_kept(old(self), -1);
                    assert forall|a: (u64, i16), b: (u64, i16)|
                        self.edge_between(a, b) == old(self).edge_between(a, b) by {
                        self.lemma_node_added(old(self), a, b);
                    }
                }
                idx
            },
        }
    }

    /// The weight by which an edge is compared with another between the same
    /// nodes.
    fn weight_for_comparison(weight: Option<u64>) -> (w: u64)
        ensures
            w == compare_weight(weight),
    {
        match weight {
            Some(w) => w,
            None => 60 * MINUTE,
        }
    }

    /// Puts an edge between two existing nodes. Where an edge already joins
    /// them, the lighter of the two stays.
    fn put_edge(&mut self, edge: Edge)
        requires
            old(self).wf(),
            edge.from != edge.to,
            old(self).occupied(edge.from as int),
            old(self).occupied(edge.to as int),
            list_well_formed(edge.data().weight_list),
        ensures
            final(self).wf(),
            final(self).nodes == old(self).nodes,
            final(self).node_map == old(self).node_map,
            forall|u: int, v: int|
                #![trigger final(self).edge_data(u, v)]
                final(self).edge_data(u, v) == if u == edge.from && v == edge.to {
                    Some(lighter(old(self).edge_data(u, v), edge.data()))
                } else {
                    old(self).edge_data(u, v)
                },
    {
        let u = edge.from;
        let v = edge.to;
        let ghost data = edge.data();
        let n = self.edges[u].len();
        let mut j: usize = 0;
        while j < n
            invariant
                j <= n,
                n == self.edges[u as int].len(),
                0 <= u < self.edges.len(),
                forall|k: int| 0 <= k < j ==> (#[trigger] self.edges[u as int][k]).to != v,
            ensures
                j <= n,
                j < n ==> self.edges[u as int][j as int].to == v,
                forall|k: int| 0 <= k < j ==> (#[trigger] self.edges[u as int][k]).to != v,
            decreases n - j,
        {
            if self.edges[u][j].to == v {
                break;
            }
            j += 1;
        }
        if j < n {
            proof {
                old(self).lemma_slot(u as int, j as int);
            }
            let held = Self::weight_for_comparison(self.edges[u][j].weight);
            let new = Self::weight_for_comparison(edge.weight);
            if held > new {
                self.edges[u][j] = edge;
                proof {
                    assert forall|y: int| 0 <= y < self.edges[u as int].len() implies self.fits(
                        u as int,
                        #[trigger] self.edges[u as int][y],
                    ) by {
                        if y != j {
                            assert(self.edges[u as int][y] == old(self).edges[u as int][y]);
                            assert(old(self).occupied(old(self).edges[u as int][y].to as int));
                        }
                    }
                    assert forall|y: int, z: int|
                        0 <= y < z < self.edges[u as int].len() implies (
                    #[trigger] self.edges[u as int][y]).to != (
                    #[trigger] self.edges[u as int][z]).to by {
                        assert(self.edges[u as int][y].to == old(self).edges[u as int][y].to);
                        assert(self.edges[u as int][z].to == old(self).edges[u as int][z].to);
                    }
                    self.lemma_wf_kept(old(self), u as int);
                    assert forall|a: int, b: int|
                        #![trigger self.edge_data(a, b)]
                        self.edge_data(a, b) == if a == u && b == v {
                            Some(lighter(old(self).edge_data(a, b), data))
                        } else {
                            old(self).edge_data(a, b)
                        } by {
                        self.lemma_edges_replaced(old(self), u as int, j as int, a, b);
                    }
                }
            } else {
                proof {
                    assert forall|a: int, b: int|
                        #![trigger self.edge_data(a, b)]
                        self.edge_data(a, b) == if a == u && b == v {
                            Some(lighter(old(self).edge_data(a, b), data))
                        } else {
                            old(self).edge_data(a, b)
                        } by {}
                }
            }
        } else {
            self.edges[u].push(edge);
            proof {
                assert(!old(self).has_edge(u as int, v as int));
                    assert forall|y: int| 0 <= y < self.edges[u as int].len() implies self.fits(
                    u as int,
                    #[trigger] self.edges[u as int][y],
                ) by {
                    if y != n {
                        assert(self.edges[u as int][y] == old(self).edges[u as int][y]);
                        assert(old(self).occupied(old(self).edges[u as int][y].to as int));
                    }
                }
                assert forall|y: int, z: int| 0 <= y < z < self.edges[u as int].len() implies (
                #[trigger] self.edges[u as int][y]).to != (#[trigger] self.edges[u as int][z]).to by {
                    assert(self.edges[u as int][y].to == old(self).edges[u as int][y].to);
                    if z < n {
                        assert(self.edges[u as int][z].to == old(self).edges[u as int][z].to);
                    }
                }
                self.lemma_wf_kept(old(self), u as int);
                assert forall|a: int, b: int|
                    #![trigger self.edge_data(a, b)]
                    self.edge_data(a, b) == if a == u && b == v {
                        Some(lighter(old(self).edge_data(a, b), data))
                    } else {
                        old(self).edge_data(a, b)
                    } by {
                    self.lemma_edges_pushed(old(self), u as int, a, b);
                }
            }
        }
    }

    /// Whether index and node list agree: every node is indexed at its
    /// position, and every indexed key is that of the node at its position.
    pub open spec fn index_sound(&self) -> bool {
        &&& forall|i: int| #[trigger]
            self.occupied(i) ==> self.index().contains_key(self.key_at(i)) && self.index()[self.key_at(
                i,
            )] == i
        &&& forall|k: (u64, i16)| #[trigger]
            self.index().contains_key(k) ==> self.occupied(self.index()[k] as int) && self.key_at(
                self.index()[k] as int,
            ) == k
    }

    /// Whether `e` may stand in the adjacency list of `u`: it leaves `u`,
    /// leads to another node, and its weight list, if any, covers the week.
    pub open spec fn fits(&self, u: int, e: Edge) -> bool {
        &&& e.from == u
        &&& e.to != u
        &&& self.occupied(u)
        &&& self.occupied(e.to as int)
        &&& list_well_formed(e.data().weight_list)
    }

    /// A graph stays well-formed when it grows out of a well-formed one by
    /// new nodes without edges and a changed adjacency list of `u`, as long
    /// as index and node list agree, every edge of the changed list fits
    /// and no two of them lead to the same node.
    pub proof fn lemma_wf_kept(&self, earlier: &Self, u: int)
        requires
            earlier.wf(),
            self.edges.len() == self.nodes.len(),
            earlier.edges.len() <= self.edges.len(),
            (self.nodes == earlier.nodes && self.node_map == earlier.node_map) || (
            self.index_sound() && forall|i: int| #[trigger]
                earlier.occupied(i) ==> self.occupied(i)),
            forall|x: int|
                0 <= x < earlier.edges.len() && x != u ==> #[trigger] self.edges[x]
                    == earlier.edges[x],
            forall|x: int|
                earlier.edges.len() <= x < self.edges.len() && x != u ==> (
                #[trigger] self.edges[x])@.len() == 0,
            0 <= u < self.edges.len() ==> forall|y: int|
                0 <= y < self.edges[u].len() ==> self.fits(u, #[trigger] self.edges[u][y]),
            0 <= u < self.edges.len() ==> forall|y: int, z: int|
                0 <= y < z < self.edges[u].len() ==> (#[trigger] self.edges[u][y]).to != (
                #[trigger] self.edges[u][z]).to,
        ensures
            self.wf(),
    {
        assert(self.index_sound()) by {
            if self.nodes == earlier.nodes && self.node_map == earlier.node_map {
                assert forall|i: int| #[trigger] self.occupied(i) implies self.index().contains_key(
                    self.key_at(i),
                ) && self.index()[self.key_at(i)] == i by {
                    assert(earlier.occupied(i));
                }
                assert forall|q: (u64, i16)| #[trigger]
                    self.index().contains_key(q) implies self.occupied(self.index()[q] as int)
                    && self.key_at(self.index()[q] as int) == q by {
                    assert(earlier.occupied(earlier.index()[q] as int));
                }
            }
        }
        assert forall|i: int| #[trigger] earlier.occupied(i) implies self.occupied(i) by {}
        assert forall|x: int, y: int|
            0 <= x < self.edges.len() && 0 <= y < self.edges[x].len() implies {
            let e = #[trigger] self.edges[x][y];
            &&& e.from == x
            &&& e.to != x
            &&& self.occupied(x)
            &&& self.occupied(e.to as int)
            &&& list_well_formed(e.data().weight_list)
        } by {
            if x != u {
                assert(self.edges[x] == earlier.edges[x]);
                let e = earlier.edges[x][y];
                assert(earlier.occupied(x));
                assert(earlier.occupied(e.to as int));
            } else {
                assert(self.fits(u, self.edges[u][y]));
            }
        }
        assert forall|x: int, y: int, z: int|
            0 <= x < self.edges.len() && 0 <= y < z < self.edges[x].len() implies (
        #[trigger] self.edges[x][y]).to != (#[trigger] self.edges[x][z]).to by {
            if x != u {
                assert(self.edges[x] == earlier.edges[x]);
            }
        }
    }

    /// In a well-formed graph the edge from `u` to its `j`-th target sits at
    /// place `j` and nowhere else.
    pub proof fn lemma_slot(&self, u: int, j: int)
        requires
            self.wf(),
            0 <= u < self.edges.len(),
            0 <= j < self.edges[u].len(),
        ensures
            self.has_edge(u, self.edges[u][j].to as int),
            self.slot(u, self.edges[u][j].to as int) == j,
            self.edge_data(u, self.edges[u][j].to as int) == Some(self.edges[u][j].data()),
    {
        let v = self.edges[u][j].to as int;
        let s = self.slot(u, v);
        assert(0 <= s < self.edges[u].len() && self.edges[u][s].to == v);
        if s < j {
            assert(self.edges[u][s].to != self.edges[u][j].to);
        } else if j < s {
            assert(self.edges[u][j].to != self.edges[u][s].to);
        }
    }

    /// How the edges read after the edge at place `j` of `u` has been
    /// replaced by another with the same target.
    proof fn lemma_edges_replaced(&self, earlier: &Self, u: int, j: int, a: int, b: int)
        requires
            earlier.wf(),
            0 <= u < earlier.edges.len(),
            0 <= j < earlier.edges[u].len(),
            self.edges.len() == earlier.edges.len(),
            forall|x: int| 0 <= x < earlier.edges.len() && x != u ==> self.edges[x] == earlier.edges[x],
            self.edges[u]@.len() == earlier.edges[u]@.len(),
            forall|k: int|
                0 <= k < earlier.edges[u].len() && k != j ==> self.edges[u][k] == earlier.edges[u][k],
            self.edges[u][j].to == earlier.edges[u][j].to,
        ensures
            self.edge_data(a, b) == if a == u && b == earlier.edges[u][j].to {
                Some(self.edges[u][j].data())
            } else {
                earlier.edge_data(a, b)
            },
    {
        if 0 <= a < self.edges.len() {
            if a != u {
                assert(self.edges[a] == earlier.edges[a]);
            } else {
                assert forall|k: int| 0 <= k < self.edges[u].len() implies (
                #[trigger] self.edges[u][k]).to == earlier.edges[u][k].to by {}
                if self.has_edge(a, b) {
                    let s = self.slot(a, b);
                    assert(earlier.edges[u][s].to == b);
                    earlier.lemma_slot(u, s);
                }
                if earlier.has_edge(a, b) {
                    let s = earlier.slot(a, b);
                    assert(self.edges[u][s].to == b);
                    earlier.lemma_slot(u, s);
                    let t = self.slot(a, b);
                    assert(earlier.edges[u][t].to == b);
                    earlier.lemma_slot(u, t);
                }
            }
        }
    }

    /// How the edges read after an edge to a new target has been added at the
    /// end of the list of `u`.
    proof fn lemma_edges_pushed(&self, earlier: &Self, u: int, a: int, b: int)
        requires
            earlier.wf(),
            0 <= u < earlier.edges.len(),
            self.edges.len() == earlier.edges.len(),
            forall|x: int| 0 <= x < earlier.edges.len() && x != u ==> self.edges[x] == earlier.edges[x],
            self.edges[u]@.len() == earlier.edges[u]@.len() + 1,
            forall|k: int| 0 <= k < earlier.edges[u].len() ==> self.edges[u][k] == earlier.edges[u][k],
            !earlier.has_edge(u, self.edges[u]@.last().to as int),
        ensures
            self.edge_data(a, b) == if a == u && b == self.edges[u]@.last().to {
                Some(self.edges[u]@.last().data())
            } else {
                earlier.edge_data(a, b)
            },
    {
        let n = earlier.edges[u].len() as int;
        let v = self.edges[u]@.last().to as int;
        if 0 <= a < self.edges.len() {
            if a != u {
                assert(self.edges[a] == earlier.edges[a]);
            } else if b == v {
                assert(self.edges[u][n].to == v);
                let s = self.slot(u, v);
                if s < n {
                    assert(earlier.edges[u][s].to == v);
                }
            } else {
                if self.has_edge(a, b) {
                    let s = self.slot(a, b);
                    assert(s < n);
                    assert(earlier.edges[u][s].to == b);
                    earlier.lemma_slot(u, s);
                }
                if earlier.has_edge(a, b) {
                    let s = earlier.slot(a, b);
                    assert(self.edges[u][s].to == b);
                    earlier.lemma_slot(u, s);
                    let t = self.slot(a, b);
                    assert(t < n);
                    assert(earlier.edges[u][t].to == b);
                    earlier.lemma_slot(u, t);
                }
            }
        }
    }

    /// Adding a node leaves every edge where it was.
    proof fn lemma_node_added(&self, earlier: &Self, a: (u64, i16), b: (u64, i16))
        requires
            earlier.wf(),
            self.edges@.len() == earlier.edges@.len() + 1,
            self.edges@.last()@.len() == 0,
            forall|u: int| 0 <= u < earlier.edges@.len() ==> #[trigger] self.edges@[u] == earlier.edges@[u],
            exists|k: (u64, i16)|
                !earlier.index().contains_key(k) && self.index() == earlier.index().insert(
                    k,
                    earlier.edges@.len() as usize,
                ),
        ensures
            self.edge_between(a, b) == earlier.edge_between(a, b),
    {
        let n = earlier.edges@.len() as int;
        let k = choose|k: (u64, i16)|
            !earlier.index().contains_key(k) && self.index() == earlier.index().insert(
                k,
                earlier.edges@.len() as usize,
            );
        if self.index().contains_key(a) && self.index().contains_key(b) {
            let u = self.index()[a] as int;
            let v = self.index()[b] as int;
            if a == k {
                assert(u == n);
                assert(!self.has_edge(u, v));
            } else {
                assert(earlier.occupied(earlier.index()[a] as int));
                assert(self.edges[u] == earlier.edges[u]);
                if b == k {
                    assert(v == n);
                    if self.has_edge(u, v) {
                        let j = self.slot(u, v);
                        assert(earlier.occupied(earlier.edges[u][j].to as int));
                    }
                }
            }
        }
    }

    /// A copy of a weight list.
    fn copy_list(list: &Option<Vec<u64>>) -> (r: Option<Vec<u64>>)
        ensures
            match (r, *list) {
                (Some(a), Some(b)) => a@ == b@,
                (None, None) => true,
                _ => false,
            },
    {
        match list {
            Some(l) => {
                let mut out: Vec<u64> = Vec::new();
                let mut i: usize = 0;
                while i < l.len()
                    invariant
                        i <= l.len(),
                        out@ == l@.subrange(0, i as int),
                    decreases l.len() - i,
                {
                    out.push(l[i]);
                    assert(out@ =~= l@.subrange(0, i + 1));
                    i += 1;
                }
                assert(out@ =~= l@);
                Some(out)
            },
            None => None,
        }
    }

    /// Adds an edge to the graph.
    ///
    /// Nodes that do not exist yet are created, `from` before `to`. An edge
    /// from a node to itself, or one whose weight list does not cover the
    /// week, is dropped without a trace. Where an edge already joins the two
    /// nodes, the lighter of the two stays.
    #[allow(clippy::too_many_arguments)]
    pub fn build_and_add_egde(
        &mut self,
        from: T,
        to: T,
        weight: Option<u64>,
        weight_list: Option<Vec<u64>>,
        capacity: Option<u64>,
    )
        requires
            old(self).wf(),
        ensures
            final(self).wf(),
            final(self).extends(old(self)),
            final(self).index().dom() == old(self).index().dom().insert(from.key_spec()).insert(
                to.key_spec(),
            ),
            !old(self).contains(from) ==> final(self).position(from) == old(self).nodes@.len(),
            !old(self).contains(to) && to.key_spec() != from.key_spec() ==> final(self).position(to)
                == old(self).nodes@.len() + (if old(self).contains(from) {
                0int
            } else {
                1int
            }),
            final(self).nodes@.len() == old(self).nodes@.len() + (if old(self).contains(from) {
                0int
            } else {
                1int
            }) + (if old(self).contains(to) || to.key_spec() == from.key_spec() {
                0int
            } else {
                1int
            }),
            !old(self).contains(from) ==> final(self).nodes@[final(self).position(from)] == Some(
                Node { id: from, layer: None },
            ),
            !old(self).contains(to) && to.key_spec() != from.key_spec() ==> final(self).nodes@[
                final(self).position(to)
            ] == Some(Node { id: to, layer: None }),
            final(self).edge_offered(
                old(self),
                from,
                to,
                (Edge { from: 0, to: 0, weight, weight_list, capacity }).data(),
            ),
    {
        let ghost data = (Edge { from: 0, to: 0, weight, weight_list, capacity }).data();
        let start = self.add_node(Node { id: from, layer: None });
        let ghost mid = *self;
        let end = self.add_node(Node { id: to, layer: None });
        let ghost grown = *self;
        proof {
            assert(self.index().dom() =~= old(self).index().dom().insert(from.key_spec()).insert(
                to.key_spec(),
            ));
            assert(self.same_edges(old(self))) by {
                assert forall|a: (u64, i16), b: (u64, i16)|
                    #![trigger self.edge_between(a, b)]
                    self.edge_between(a, b) == old(self).edge_between(a, b) by {
                    assert(mid.edge_between(a, b) == old(self).edge_between(a, b));
                }
            }
        }
        if start == end {
            proof {
                if from.key_spec() != to.key_spec() {
                    assert(self.key_at(start as int) == from.key_spec());
                    assert(self.key_at(end as int) == to.key_spec());
                }
            }
            return ;
        }
        let well_formed = match &weight_list {
            Some(l) => l.len() == HOURS_PER_WEEK,
            None => true,
        };
        if !well_formed {
            return ;
        }
        self.put_edge(Edge { from: start, to: end, weight, weight_list, capacity });
        proof {
            assert(self.index() == grown.index());
            assert forall|a: (u64, i16), b: (u64, i16)|
                #![trigger self.edge_between(a, b)]
                self.edge_between(a, b) == if Self::accepts(from, to, data) && a == from.key_spec()
                    && b == to.key_spec() {
                    Some(lighter(old(self).edge_between(a, b), data))
                } else {
                    old(self).edge_between(a, b)
                } by {
                assert(grown.edge_between(a, b) == old(self).edge_between(a, b));
                if self.index().contains_key(a) && self.index().contains_key(b) {
                    let u = self.index()[a] as int;
                    let v = self.index()[b] as int;
                    assert(grown.occupied(u) && grown.key_at(u) == a);
                    assert(grown.occupied(v) && grown.key_at(v) == b);
                    assert(self.edge_data(u, v) == if u == start && v == end {
                        Some(lighter(grown.edge_data(u, v), data))
                    } else {
                        grown.edge_data(u, v)
                    });
                }
            }
            assert forall|i: int| 0 <= i < old(self).nodes@.len() implies self.nodes@[i]
                == #[trigger] old(self).nodes@[i] by {
                assert(mid.nodes@[i] == old(self).nodes@[i]);
            }
        }
    }

    /// Removes the edge from `from` to `to`, if there is one. Fails where the
    /// graph lacks one of the two nodes, and then changes nothing.
    pub fn remove_edge(&mut self, from: T, to: T) -> (r: Result<(), GraphError>)
        requires
            old(self).wf(),
        ensures
            final(self).wf(),
            final(self).nodes == old(self).nodes,
            final(self).node_map == old(self).node_map,
            r is Ok <==> old(self).contains(from) && old(self).contains(to),
            r is Err ==> r == Err::<(), GraphError>(GraphError::InputNotFound) && *final(self)
                == *old(self),
            r is Ok ==> forall|a: (u64, i16), b: (u64, i16)|
                #![trigger final(self).edge_between(a, b)]
                final(self).edge_between(a, b) == if a == from.key_spec() && b == to.key_spec() {
                    None
                } else {
                    old(self).edge_between(a, b)
                },
    {
        let u = match self.find(&from) {
            Some(u) => u,
            None => {
                return Err(GraphError::InputNotFound);
            },
        };
        let v = match self.find(&to) {
            Some(v) => v,
            None => {
                return Err(GraphError::InputNotFound);
            },
        };
        assert(self.occupied(u as int) && self.occupied(v as int));
        let n = self.edges[u].len();
        let mut j: usize = 0;
        while j < n
            invariant
                j <= n,
                n == self.edges[u as int].len(),
                0 <= u < self.edges.len(),
                forall|k: int| 0 <= k < j ==> (#[trigger] self.edges[u as int][k]).to != v,
            ensures
                j <= n,
                j < n ==> self.edges[u as int][j as int].to == v,
                forall|k: int| 0 <= k < j ==> (#[trigger] self.edges[u as int][k]).to != v,
            decreases n - j,
        {
            if self.edges[u][j].to == v {
                break;
            }
            j += 1;
        }
        if j < n {
            self.edges[u].remove(j);
            proof {
                let before = old(self);
                assert forall|y: int| 0 <= y < self.edges[u as int].len() implies self.fits(
                    u as int,
                    #[trigger] self.edges[u as int][y],
                ) by {
                    let y0 = if y >= j {
                        y + 1
                    } else {
                        y
                    };
                    assert(self.edges[u as int][y] == before.edges[u as int][y0]);
                    assert(before.occupied(before.edges[u as int][y0].to as int));
                }
                assert forall|y: int, z: int| 0 <= y < z < self.edges[u as int].len() implies (
                #[trigger] self.edges[u as int][y]).to != (#[trigger] self.edges[u as int][z]).to by {
                    let y0 = if y >= j {
                        y + 1
                    } else {
                        y
                    };
                    let z0 = if z >= j {
                        z + 1
                    } else {
                        z
                    };
                    assert(self.edges[u as int][y] == before.edges[u as int][y0]);
                    assert(self.edges[u as int][z] == before.edges[u as int][z0]);
                }
                self.lemma_wf_kept(before, u as int);
                assert(self.wf());
                assert forall|a: (u64, i16), b: (u64, i16)|
                    #![trigger self.edge_between(a, b)]
                    self.edge_between(a, b) == if a == from.key_spec() && b == to.key_spec() {
                        None
                    } else {
                        before.edge_between(a, b)
                    } by {
                    if self.index().contains_key(a) && self.index().contains_key(b) {
                        let x = self.index()[a] as int;
                        let w = self.index()[b] as int;
                        assert(before.occupied(x) && before.key_at(x) == a);
                        assert(before.occupied(w) && before.key_at(w) == b);
                        self.lemma_edge_removed(before, u as int, j as int, x, w);
                    }
                }
            }
        } else {
            proof {
                assert(!self.has_edge(u as int, v as int));
                assert forall|a: (u64, i16), b: (u64, i16)|
                    #![trigger self.edge_between(a, b)]
                    self.edge_between(a, b) == if a == from.key_spec() && b == to.key_spec() {
                        None
                    } else {
                        old(self).edge_between(a, b)
                    } by {}
            }
        }
        Ok(())
    }

    /// How the edges read after the edge at place `j` of `u` has been taken
    /// out of its list.
    proof fn lemma_edge_removed(&self, earlier: &Self, u: int, j: int, a: int, b: int)
        requires
            earlier.wf(),
            self.wf(),
            0 <= u < earlier.edges.len(),
            0 <= j < earlier.edges[u].len(),
            self.edges.len() == earlier.edges.len(),
            forall|x: int| 0 <= x < earlier.edges.len() && x != u ==> self.edges[x] == earlier.edges[x],
            self.edges[u]@ == earlier.edges[u]@.remove(j),
        ensures
            self.edge_data(a, b) == if a == u && b == earlier.edges[u][j].to {
                None
            } else {
                earlier.edge_data(a, b)
            },
    {
        if 0 <= a < self.edges.len() {
            if a != u {
                assert(self.edges[a] == earlier.edges[a]);
            } else {
                if self.has_edge(a, b) {
                    let s = self.slot(a, b);
                    let s0 = if s >= j {
                        s + 1
                    } else {
                        s
                    };
                    assert(self.edges[u][s] == earlier.edges[u][s0]);
                    earlier.lemma_slot(u, s0);
                    self.lemma_slot(u, s);
                    if b == earlier.edges[u][j].to {
                        earlier.lemma_slot(u, j);
                    }
                }
                if earlier.has_edge(a, b) && b != earlier.edges[u][j].to {
                    let s0 = earlier.slot(a, b);
                    let s = if s0 > j {
                        s0 - 1
                    } else {
                        s0
                    };
                    assert(self.edges[u][s] == earlier.edges[u][s0]);
                    earlier.lemma_slot(u, s0);
                    self.lemma_slot(u, s);
                }
            }
        }
    }

    /// Adds all nodes and edges of `other` to this graph and joins the two
    /// where they share nodes. Nothing is removed; where both graphs have an
    /// edge between the same two nodes, the lighter stays.
    pub fn merge(&mut self, other: &Self)
        requires
            old(self).wf(),
            other.wf(),
        ensures
            final(self).merged_from(old(self), other),
            final(self).built_from(old(self), other.offers()),
    {
        let ghost start = *self;
        proof {
            lemma_offer_none(&start);
        }
        let mut u: usize = 0;
        while u < other.edges.len()
            invariant
                u <= other.edges.len(),
                other.wf(),
                self.wf(),
                start == *old(self),
                self.built_from(&start, other.offers_before(u as int, 0)),
                self.extends(old(self)),
                forall|k: (u64, i16)|
                    #![trigger self.index().contains_key(k)]
                    self.index().contains_key(k) <==> old(self).index().contains_key(k)
                        || other.touches_before(k, u as int, 0),
                forall|a: (u64, i16), b: (u64, i16)|
                    #![trigger self.edge_between(a, b)]
                    self.edge_between(a, b) == Self::merged_edge(
                        old(self).edge_between(a, b),
                        other.edge_between_before(a, b, u as int, 0),
                    ),
            decreases other.edges.len() - u,
        {
            let mut j: usize = 0;
            while j < other.edges[u].len()
                invariant
                    u < other.edges.len(),
                    j <= other.edges[u as int].len(),
                    other.wf(),
                    self.wf(),
                    start == *old(self),
                    self.built_from(&start, other.offers_before(u as int, j as int)),
                    self.extends(old(self)),
                    forall|k: (u64, i16)|
                        #![trigger self.index().contains_key(k)]
                        self.index().contains_key(k) <==> old(self).index().contains_key(k)
                            || other.touches_before(k, u as int, j as int),
                    forall|a: (u64, i16), b: (u64, i16)|
                        #![trigger self.edge_between(a, b)]
                        self.edge_between(a, b) == Self::merged_edge(
                            old(self).edge_between(a, b),
                            other.edge_between_before(a, b, u as int, j as int),
                        ),
                decreases other.edges[u as int].len() - j,
            {
                let edge = &other.edges[u][j];
                assert(other.occupied(u as int));
                assert(other.occupied(edge.to as int));
                assert(edge.from == u);
                let ghost prev = *self;
                if let Some(source) = &other.nodes[edge.from] {
                    if let Some(target) = &other.nodes[edge.to] {
                        let from = source.id;
                        let to = target.id;
                        let list = Self::copy_list(&edge.weight_list);
                        let ghost data = (Edge {
                            from: 0,
                            to: 0,
                            weight: edge.weight,
                            weight_list: list,
                            capacity: edge.capacity,
                        }).data();
                        assert(data == edge.data());
                        self.offer(
                            from,
                            to,
                            edge.weight,
                            list,
                            edge.capacity,
                            Ghost(&start),
                            Ghost(other.offers_before(u as int, j as int)),
                        );
                        proof {
                            assert(other.offer_at(u as int, j as int) == (Offer { from, to, data }));
                            other.lemma_slot(u as int, j as int);
                            let fk = from.key_spec();
                            let tk = to.key_spec();
                            assert(other.key_at(u as int) == fk);
                            assert(other.key_at(edge.to as int) == tk);
                            assert(fk != tk);
                            assert(Self::accepts(from, to, data));
                            assert(other.edge_between(fk, tk) == Some(data));
                            assert forall|i: int| 0 <= i < old(self).nodes@.len() implies self.nodes@[i]
                                == #[trigger] old(self).nodes@[i] by {
                                assert(prev.nodes@[i] == old(self).nodes@[i]);
                            }
                            assert forall|k: (u64, i16)|
                                #![trigger self.index().contains_key(k)]
                                self.index().contains_key(k) <==> old(self).index().contains_key(k)
                                    || other.touches_before(k, u as int, j + 1) by {
                                other.lemma_touches_step(k, u as int, j as int);
                                assert(self.index().dom().contains(k) <==> prev.index().contains_key(k)
                                    || k == fk || k == tk);
                            }
                            assert forall|a: (u64, i16), b: (u64, i16)|
                                #![trigger self.edge_between(a, b)]
                                self.edge_between(a, b) == Self::merged_edge(
                                    old(self).edge_between(a, b),
                                    other.edge_between_before(a, b, u as int, j + 1),
                                ) by {
                                other.lemma_edge_before_step(a, b, u as int, j as int);
                                assert(prev.edge_between(a, b) == Self::merged_edge(
                                    old(self).edge_between(a, b),
                                    other.edge_between_before(a, b, u as int, j as int),
                                ));
                            }
                        }
                    }
                }
                j += 1;
            }
            proof {
                let n = other.edges[u as int].len() as int;
                assert forall|k: (u64, i16)|
                    other.touches_before(k, u as int, n) == other.touches_before(k, u + 1, 0) by {
                    if other.touches_before(k, u as int, n) {
                        let (x, y) = choose|x: int, y: int|
                            0 <= x < other.edges.len() && 0 <= y < other.edges[x].len()
                                && Self::comes_before(x, y, u as int, n) && (other.key_at(x) == k
                                || other.key_at((#[trigger] other.edges[x][y]).to as int) == k);
                        assert(Self::comes_before(x, y, u + 1, 0));
                    }
                    if other.touches_before(k, u + 1, 0) {
                        let (x, y) = choose|x: int, y: int|
                            0 <= x < other.edges.len() && 0 <= y < other.edges[x].len()
                                && Self::comes_before(x, y, u + 1, 0) && (other.key_at(x) == k
                                || other.key_at((#[trigger] other.edges[x][y]).to as int) == k);
                        assert(Self::comes_before(x, y, u as int, n));
                    }
                }
                assert forall|a: (u64, i16), b: (u64, i16)|
                    other.edge_between_before(a, b, u as int, n) == other.edge_between_before(
                        a,
                        b,
                        u + 1,
                        0,
                    ) by {
                    if other.edge_between(a, b) is Some {
                        let x = other.index()[a] as int;
                        let y = other.slot(x, other.index()[b] as int);
                        assert(0 <= y < other.edges[x].len());
                    }
                }
            }
            u += 1;
        }
        proof {
            let n = other.edges.len() as int;
            assert forall|k: (u64, i16)|
                other.touches_before(k, n, 0) == other.touches(k) by {
                if other.touches(k) {
                    let (x, y) = choose|x: int, y: int|
                        0 <= x < other.edges.len() && 0 <= y < other.edges[x].len() && (
                        other.key_at(x) == k || other.key_at((#[trigger] other.edges[x][y]).to as int)
                            == k);
                    assert(Self::comes_before(x, y, n, 0));
                }
            }
            assert forall|a: (u64, i16), b: (u64, i16)|
                other.edge_between_before(a, b, n, 0) == other.edge_between(a, b) by {
                if other.edge_between(a, b) is Some {
                    let x = other.index()[a] as int;
                    assert(other.has_edge(x, other.index()[b] as int));
                }
            }
        }
    }

    /// The keys touched before a place and after the edge at that place has
    /// been read as well.
    proof fn lemma_touches_step(&self, k: (u64, i16), u: int, j: int)
        requires
            self.wf(),
            0 <= u < self.edges.len(),
            0 <= j < self.edges[u].len(),
        ensures
            self.touches_before(k, u, j + 1) <==> self.touches_before(k, u, j) || k == self.key_at(u)
                || k == self.key_at(self.edges[u][j].to as int),
    {
        if self.touches_before(k, u, j + 1) {
            let (x, y) = choose|x: int, y: int|
                0 <= x < self.edges.len() && 0 <= y < self.edges[x].len() && Self::comes_before(
                    x,
                    y,
                    u,
                    j + 1,
                ) && (self.key_at(x) == k || self.key_at((#[trigger] self.edges[x][y]).to as int)
                    == k);
            if !(x == u && y == j) {
                assert(Self::comes_before(x, y, u, j));
            }
        }
        if self.touches_before(k, u, j) {
            let (x, y) = choose|x: int, y: int|
                0 <= x < self.edges.len() && 0 <= y < self.edges[x].len() && Self::comes_before(
                    x,
                    y,
                    u,
                    j,
                ) && (self.key_at(x) == k || self.key_at((#[trigger] self.edges[x][y]).to as int)
                    == k);
            assert(Self::comes_before(x, y, u, j + 1));
        }
        if k == self.key_at(u) || k == self.key_at(self.edges[u][j].to as int) {
            assert(Self::comes_before(u, j, u, j + 1));
            assert(self.key_at(u) == k || self.key_at((#[trigger] self.edges[u][j]).to as int) == k);
        }
    }

    /// The edges read before a place and after the edge at that place has
    /// been read as well.
    proof fn lemma_edge_before_step(&self, a: (u64, i16), b: (u64, i16), u: int, j: int)
        requires
            self.wf(),
            0 <= u < self.edges.len(),
            0 <= j < self.edges[u].len(),
        ensures
            self.edge_between_before(a, b, u, j + 1) == if a == self.key_at(u) && b == self.key_at(
                self.edges[u][j].to as int,
            ) {
                Some(self.edges[u][j].data())
            } else {
                self.edge_between_before(a, b, u, j)
            },
            a == self.key_at(u) && b == self.key_at(self.edges[u][j].to as int)
                ==> self.edge_between_before(a, b, u, j) is None,
    {
        self.lemma_slot(u, j);
        let v = self.edges[u][j].to as int;
        assert(self.occupied(u) && self.occupied(v));
        if self.edge_between(a, b) is Some {
            let x = self.index()[a] as int;
            let w = self.index()[b] as int;
            let y = self.slot(x, w);
            assert(self.occupied(x) && self.key_at(x) == a);
            assert(self.occupied(w) && self.key_at(w) == b);
            assert(0 <= y < self.edges[x].len() && self.edges[x][y].to == w);
            if x == u && y == j {
                assert(w == v);
            }
            if a == self.key_at(u) && b == self.key_at(v) {
                assert(x == u && w == v);
            }
        } else {
            if a == self.key_at(u) && b == self.key_at(v) {
                assert(self.index()[a] == u && self.index()[b] == v);
                assert(false);
            }
        }
    }

    /// The keys of the first `upto` positions that hold a node, in the order
    /// of the positions.
    pub open spec fn keys_in_place(&self, upto: int) -> Seq<(u64, i16)>
        decreases upto,
    {
        if upto <= 0 {
            Seq::empty()
        } else if self.nodes@[upto - 1] is Some {
            self.keys_in_place(upto - 1).push(self.nodes@[upto - 1]->0.id.key_spec())
        } else {
            self.keys_in_place(upto - 1)
        }
    }

    /// The hash of the nodes of the graph: that of their keys in ascending
    /// order.
    pub open spec fn spec_node_hash(&self) -> u64 {
        DefaultHasher::spec_finish(
            hash_writes(self.keys_in_place(self.nodes@.len() as int).sort_by(key_le())),
        )
    }

    /// A hash of the nodes of the graph. It depends on the keys of the nodes
    /// alone, not on the order in which they were added.
    pub fn node_hash(&self) -> (h: u64)
        ensures
            h == self.spec_node_hash(),
    {
        let mut keys: Vec<(u64, i16)> = Vec::new();
        let mut i: usize = 0;
        while i < self.nodes.len()
            invariant
                i <= self.nodes@.len(),
                keys@ == self.keys_in_place(i as int),
            decreases self.nodes@.len() - i,
        {
            match &self.nodes[i] {
                Some(node) => keys.push(node.id.key()),
                None => {},
            }
            i += 1;
        }
        let ghost unsorted = keys@;
        sort_keys(&mut keys);
        proof {
            lemma_key_order();
            unsorted.lemma_sort_by_ensures(key_le());
            vstd::seq_lib::lemma_sorted_unique(keys@, unsorted.sort_by(key_le()), key_le());
        }
        let mut hasher = DefaultHasher::new();
        let count = low_bytes_of(keys.len() as u64, 8);
        hasher.write(count.as_slice());
        let mut k: usize = 0;
        while k < keys.len()
            invariant
                k <= keys@.len(),
                hasher@ == seq![low_bytes(keys@.len() as u64, 8)] + key_writes(keys@, k as int),
            decreases keys@.len() - k,
        {
            let (cell, layer) = keys[k];
            let cell_bytes = low_bytes_of(cell, 8);
            let low: u16 = #[verifier::truncate] (layer as u16);
            let layer_bytes = low_bytes_of(low as u64, 2);
            hasher.write(cell_bytes.as_slice());
            hasher.write(layer_bytes.as_slice());
            assert(hasher@ =~= seq![low_bytes(keys@.len() as u64, 8)] + key_writes(keys@, k + 1));
            k += 1;
        }
        hasher.finish()
    }

    /// The nodes of the first `upto` positions that hold one, in the order of
    /// the positions.
    pub open spec fn ids_in_place(&self, upto: int) -> Seq<T>
        decreases upto,
    {
        if upto <= 0 {
            Seq::empty()
        } else if self.nodes@[upto - 1] is Some {
            self.ids_in_place(upto - 1).push(self.nodes@[upto - 1]->0.id)
        } else {
            self.ids_in_place(upto - 1)
        }
    }

    /// The node that a draw selects: of the nodes in the order of their
    /// positions, empty slots passed over, the one at place `draw` modulo
    /// their number. Only a graph without nodes gives none.
    pub open spec fn drawn(&self, draw: usize) -> Option<T> {
        let held = self.ids_in_place(self.nodes@.len() as int);
        if held.len() == 0 {
            None
        } else {
            Some(held[draw as int % held.len() as int])
        }
    }

    /// The nodes of fewer positions are the first of the nodes of more
    /// positions.
    pub proof fn lemma_ids_in_place(&self, a: int, b: int, k: int)
        requires
            0 <= a <= b <= self.nodes@.len(),
        ensures
            self.ids_in_place(a).len() <= self.ids_in_place(b).len(),
            self.ids_in_place(b).len() <= self.ids_in_place(a).len() + (b - a),
            0 <= k < self.ids_in_place(a).len() ==> self.ids_in_place(a)[k] == self.ids_in_place(
                b,
            )[k],
        decreases b - a,
    {
        if a < b {
            self.lemma_ids_in_place(a, b - 1, k);
        }
    }

    /// The node that `draw` selects among the nodes of the graph.
    pub fn node_for_draw(&self, draw: usize) -> (r: Option<T>)
        ensures
            r == self.drawn(draw),
    {
        let n = self.nodes.len();
        let mut count: usize = 0;
        let mut i: usize = 0;
        while i < n
            invariant
                i <= n,
                n == self.nodes@.len(),
                count <= i,
                count == self.ids_in_place(i as int).len(),
            decreases n - i,
        {
            if self.nodes[i].is_some() {
                count += 1;
            }
            i += 1;
        }
        if count == 0 {
            return None;
        }
        let place = draw % count;
        let mut seen: usize = 0;
        let mut i: usize = 0;
        while i < n
            invariant
                i <= n,
                n == self.nodes@.len(),
                seen <= place < count,
                place as int == draw as int % count as int,
                count == self.ids_in_place(n as int).len(),
                seen == self.ids_in_place(i as int).len(),
            decreases n - i,
        {
            match &self.nodes[i] {
                Some(node) => {
                    if seen == place {
                        proof {
                            let held = self.ids_in_place(n as int);
                            assert(self.ids_in_place(i + 1) == self.ids_in_place(i as int).push(
                                node.id,
                            ));
                            assert(self.ids_in_place(i + 1)[place as int] == node.id);
                            self.lemma_ids_in_place(i + 1, n as int, place as int);
                            assert(held[place as int] == node.id);
                            assert(draw as int % held.len() as int == place);
                        }
                        return Some(node.id);
                    }
                    seen += 1;
                },
                None => {},
            }
            i += 1;
        }
        None
    }

    /// A node picked at random among the nodes of the graph; `None` where
    /// the graph has no node.
    pub fn get_random_node(&self) -> (r: Option<T>)
        ensures
            exists|draw: usize| r == self.drawn(draw),
    {
        let draw = random_draw();
        self.node_for_draw(draw)
    }

    /// Whether the node at place `k` of the nodes in place sits at one of
    /// the first `upto` positions.
    pub open spec fn sits(&self, upto: int, k: int) -> bool {
        exists|i: int|
            0 <= i < upto && #[trigger] self.occupied(i) && self.nodes@[i]->0.id
                == self.ids_in_place(upto)[k]
    }

    /// Whether the node at position `i` is among the nodes in place of the
    /// first `upto` positions.
    pub open spec fn listed(&self, upto: int, i: int) -> bool {
        exists|k: int|
            0 <= k < self.ids_in_place(upto).len() && self.ids_in_place(upto)[k]
                == self.nodes@[i]->0.id
    }

    /// Every node among the nodes in place sits at a position, and every
    /// node at a position is among them.
    pub proof fn lemma_ids_are_nodes(&self, upto: int)
        requires
            0 <= upto <= self.nodes@.len(),
        ensures
            forall|k: int| 0 <= k < self.ids_in_place(upto).len() ==> #[trigger] self.sits(upto, k),
            forall|i: int| 0 <= i < upto && self.occupied(i) ==> #[trigger] self.listed(upto, i),
        decreases upto,
    {
        if upto > 0 {
            self.lemma_ids_are_nodes(upto - 1);
            let before = self.ids_in_place(upto - 1);
            let all = self.ids_in_place(upto);
            assert forall|k: int| 0 <= k < all.len() implies #[trigger] self.sits(upto, k) by {
                if k < before.len() {
                    assert(all[k] == before[k]);
                    assert(self.sits(upto - 1, k));
                    let i = choose|i: int|
                        0 <= i < upto - 1 && #[trigger] self.occupied(i) && self.nodes@[i]->0.id
                            == before[k];
                    assert(self.occupied(i) && self.nodes@[i]->0.id == all[k]);
                } else {
                    assert(self.occupied(upto - 1) && self.nodes@[upto - 1]->0.id == all[k]);
                }
            }
            assert forall|i: int| 0 <= i < upto && self.occupied(i) implies #[trigger] self.listed(
                upto,
                i,
            ) by {
                if i < upto - 1 {
                    assert(self.listed(upto - 1, i));
                    let k = choose|k: int|
                        0 <= k < before.len() && before[k] == self.nodes@[i]->0.id;
                    assert(all[k] == self.nodes@[i]->0.id);
                } else {
                    assert(all[before.len() as int] == self.nodes@[i]->0.id);
                }
            }
        }
    }
}

/// A draw on a graph that has nodes gives one of them, and every node of the
/// graph is given by some draw; only on a graph without nodes a draw gives
/// nothing.
pub proof fn lemma_draws_give_nodes<T: NodeKey>(g: &Graph<T>)
    requires
        g.wf(),
    ensures
        forall|draw: usize| g.drawn(draw) is Some ==> g.contains((#[trigger] g.drawn(draw))->0),
        forall|draw: usize, i: int| (#[trigger] g.drawn(draw)) is None ==> !#[trigger] g.occupied(i),
        forall|i: int| #[trigger]
            g.occupied(i) ==> exists|draw: usize| g.drawn(draw) == Some(g.nodes@[i]->0.id),
{
    let n = g.nodes@.len() as int;
    let held = g.ids_in_place(n);
    g.lemma_ids_are_nodes(n);
    g.lemma_ids_in_place(0, n, 0);
    assert forall|draw: usize| g.drawn(draw) is Some implies g.contains(
        (#[trigger] g.drawn(draw))->0,
    ) by {
        let k = draw as int % held.len() as int;
        assert(g.sits(n, k));
        let i = choose|i: int|
            0 <= i < n && #[trigger] g.occupied(i) && g.nodes@[i]->0.id == held[k];
        g.lemma_position_of_node(i);
    }
    assert forall|draw: usize, i: int| (#[trigger] g.drawn(draw)) is None implies !#[trigger] g.occupied(
        i,
    ) by {
        if g.occupied(i) {
            assert(g.listed(n, i));
        }
    }
    assert forall|i: int| #[trigger] g.occupied(i) implies exists|draw: usize|
        g.drawn(draw) == Some(g.nodes@[i]->0.id) by {
        assert(g.listed(n, i));
        let k = choose|k: int| 0 <= k < held.len() && held[k] == g.nodes@[i]->0.id;
        assert(held.len() <= n);
        let draw = k as usize;
        assert(k % (held.len() as int) == k) by (nonlinear_arith)
            requires
                0 <= k < held.len(),
        ;
        assert(g.drawn(draw) == Some(g.nodes@[i]->0.id));
    }
}

impl<T: NodeKey> Graph<T> {
    /// The node at a position is a node of the graph.
    pub proof fn lemma_position_of_node(&self, v: int)
        requires
            self.wf(),
            self.occupied(v),
        ensures
            self.contains(self.nodes[v]->0.id),
            self.position(self.nodes[v]->0.id) == v,
    {
        assert(self.key_at(v) == self.nodes[v]->0.id.key_spec());
    }
}

impl<T: NodeKey> Graph<T> {
    /// Offers one more edge to a graph that was built from offers.
    pub(crate) fn offer(
        &mut self,
        from: T,
        to: T,
        weight: Option<u64>,
        weight_list: Option<Vec<u64>>,
        capacity: Option<u64>,
        Ghost(start): Ghost<&Self>,
        Ghost(offers): Ghost<Seq<Offer<T>>>,
    )
        requires
            old(self).built_from(start, offers),
        ensures
            final(self).built_from(
                start,
                offers.push(
                    Offer {
                        from,
                        to,
                        data: (Edge { from: 0, to: 0, weight, weight_list, capacity }).data(),
                    },
                ),
            ),
            final(self).extends(old(self)),
            final(self).index().dom() == old(self).index().dom().insert(from.key_spec()).insert(
                to.key_spec(),
            ),
            final(self).edge_offered(
                old(self),
                from,
                to,
                (Edge { from: 0, to: 0, weight, weight_list, capacity }).data(),
            ),
    {
        let ghost before = *self;
        let ghost data = (Edge { from: 0, to: 0, weight, weight_list, capacity }).data();
        self.build_and_add_egde(from, to, weight, weight_list, capacity);
        proof {
            lemma_offer_step(start, &before, self, offers, Offer { from, to, data });
        }
    }
}

/// A graph built from an empty graph is made of the offers alone.
pub proof fn lemma_made_of<T: NodeKey>(g: &Graph<T>, start: &Graph<T>, offers: Seq<Offer<T>>)
    requires
        g.built_from(start, offers),
        start.wf(),
        start.nodes@.len() == 0,
        start.index() == no_pairs(),
    ensures
        g.made_of(offers),
{
    assert(start.index().dom() =~= Set::<(u64, i16)>::empty());
    assert forall|a: (u64, i16), b: (u64, i16)|
        #![trigger g.edge_between(a, b)]
        g.edge_between(a, b) == edge_after(None, offers, a, b) by {
        assert(start.edge_between(a, b) is None);
    }
}

impl<T: NodeKey> Default for Graph<T> {
    fn default() -> (g: Self)
        ensures
            g.wf(),
            g.nodes@.len() == 0,
            g.index() == no_pairs(),
    {
        Self::new()
    }
}

/// Whether one of the offers is taken up and leads from key `a` to key `b`.
pub open spec fn offered_between<T: NodeKey>(
    offers: Seq<Offer<T>>,
    a: (u64, i16),
    b: (u64, i16),
) -> bool {
    exists|i: int|
        0 <= i < offers.len() && acceptable(#[trigger] offers[i]) && offers[i].from.key_spec() == a
            && offers[i].to.key_spec() == b
}

/// Whether one of the offers is taken up and starts or ends at key `k`.
pub open spec fn offers_touch<T: NodeKey>(offers: Seq<Offer<T>>, k: (u64, i16)) -> bool {
    exists|i: int|
        0 <= i < offers.len() && acceptable(#[trigger] offers[i]) && (offers[i].from.key_spec() == k
            || offers[i].to.key_spec() == k)
}

/// After offers an edge joins two keys exactly where one joined them before
/// or one of the offers between them is taken up.
pub proof fn lemma_edge_after_some<T: NodeKey>(
    held: Option<EdgeData>,
    offers: Seq<Offer<T>>,
    a: (u64, i16),
    b: (u64, i16),
)
    ensures
        edge_after(held, offers, a, b) is Some <==> held is Some || offered_between(offers, a, b),
    decreases offers.len(),
{
    if offers.len() > 0 {
        let rest = offers.drop_last();
        lemma_edge_after_some(held, rest, a, b);
        if offered_between(rest, a, b) {
            let i = choose|i: int|
                0 <= i < rest.len() && acceptable(#[trigger] rest[i]) && rest[i].from.key_spec() == a
                    && rest[i].to.key_spec() == b;
            assert(offers[i] == rest[i]);
        }
        if offered_between(offers, a, b) {
            let i = choose|i: int|
                0 <= i < offers.len() && acceptable(#[trigger] offers[i])
                    && offers[i].from.key_spec() == a && offers[i].to.key_spec() == b;
            if i < rest.len() {
                assert(rest[i] == offers[i]);
            }
        }
        if acceptable(offers.last()) && offers.last().from.key_spec() == a
            && offers.last().to.key_spec() == b {
            assert(offers[offers.len() - 1] == offers.last());
        }
    }
}

/// Whether one of the offers that are taken up between key `a` and key `b`
/// carries `d`.
pub open spec fn offered_data<T: NodeKey>(
    offers: Seq<Offer<T>>,
    a: (u64, i16),
    b: (u64, i16),
    d: EdgeData,
) -> bool {
    exists|i: int|
        0 <= i < offers.len() && acceptable(#[trigger] offers[i]) && offers[i].from.key_spec() == a
            && offers[i].to.key_spec() == b && offers[i].data == d
}

/// Of all the offers between two keys that are taken up, a lightest one
/// stays: after the offers an edge joins the two keys, it is one of those
/// offered, and it weighs no more than any of them.
pub proof fn lemma_lightest_offer_stays<T: NodeKey>(
    offers: Seq<Offer<T>>,
    a: (u64, i16),
    b: (u64, i16),
    i: int,
)
    requires
        0 <= i < offers.len(),
        acceptable(offers[i]),
        offers[i].from.key_spec() == a,
        offers[i].to.key_spec() == b,
    ensures
        edge_after(None, offers, a, b) is Some,
        compare_weight(edge_after(None, offers, a, b)->0.weight) <= compare_weight(
            offers[i].data.weight,
        ),
        offered_data(offers, a, b, edge_after(None, offers, a, b)->0),
    decreases offers.len(),
{
    let rest = offers.drop_last();
    let last = offers.last();
    let before = edge_after(None, rest, a, b);
    lemma_edge_after_some(None, rest, a, b);
    if before is Some {
        let j = choose|j: int|
            0 <= j < rest.len() && acceptable(#[trigger] rest[j]) && rest[j].from.key_spec() == a
                && rest[j].to.key_spec() == b;
        lemma_lightest_offer_stays(rest, a, b, j);
        let k = choose|k: int|
            0 <= k < rest.len() && acceptable(#[trigger] rest[k]) && rest[k].from.key_spec() == a
                && rest[k].to.key_spec() == b && rest[k].data == before->0;
        assert(offers[k] == rest[k]);
        assert(offered_data(offers, a, b, before->0));
    }
    if i < rest.len() {
        assert(rest[i] == offers[i]);
        lemma_lightest_offer_stays(rest, a, b, i);
    }
    if acceptable(last) && last.from.key_spec() == a && last.to.key_spec() == b {
        assert(offers[offers.len() - 1] == last);
        assert(offered_data(offers, a, b, last.data));
    }
}

/// Whether one of the offers starts or ends at key `k`.
pub open spec fn offers_name<T: NodeKey>(offers: Seq<Offer<T>>, k: (u64, i16)) -> bool {
    exists|i: int|
        0 <= i < offers.len() && ((#[trigger] offers[i]).from.key_spec() == k
            || offers[i].to.key_spec() == k)
}

/// The keys of a graph after offers are those it had and those at which an
/// offer starts or ends.
pub proof fn lemma_keys_after<T: NodeKey>(
    keys: Set<(u64, i16)>,
    offers: Seq<Offer<T>>,
    k: (u64, i16),
)
    ensures
        keys_after(keys, offers).contains(k) <==> keys.contains(k) || offers_name(offers, k),
    decreases offers.len(),
{
    if offers.len() > 0 {
        let rest = offers.drop_last();
        lemma_keys_after(keys, rest, k);
        if offers_name(rest, k) {
            let i = choose|i: int|
                0 <= i < rest.len() && ((#[trigger] rest[i]).from.key_spec() == k
                    || rest[i].to.key_spec() == k);
            assert(offers[i] == rest[i]);
        }
        if offers_name(offers, k) {
            let i = choose|i: int|
                0 <= i < offers.len() && ((#[trigger] offers[i]).from.key_spec() == k
                    || offers[i].to.key_spec() == k);
            if i < rest.len() {
                assert(rest[i] == offers[i]);
            }
        }
        if offers.last().from.key_spec() == k || offers.last().to.key_spec() == k {
            assert(offers[offers.len() - 1] == offers.last());
        }
    }
}

/// In a graph that is made of offers, the keys at which some edge starts or
/// ends are those at which an offer that is taken up starts or ends.
pub proof fn lemma_made_of_touches<T: NodeKey>(
    g: &Graph<T>,
    offers: Seq<Offer<T>>,
    k: (u64, i16),
)
    requires
        g.made_of(offers),
    ensures
        g.touches(k) <==> offers_touch(offers, k),
{
    if g.touches(k) {
        let (u, j) = choose|u: int, j: int|
            0 <= u < g.edges.len() && 0 <= j < g.edges[u].len() && (g.key_at(u) == k || g.key_at(
                (#[trigger] g.edges[u][j]).to as int,
            ) == k);
        let v = g.edges[u][j].to as int;
        let a = g.key_at(u);
        let b = g.key_at(v);
        assert(g.occupied(u) && g.occupied(v));
        g.lemma_slot(u, j);
        assert(g.edge_between(a, b) is Some);
        lemma_edge_after_some(None, offers, a, b);
        let i = choose|i: int|
            0 <= i < offers.len() && acceptable(#[trigger] offers[i]) && offers[i].from.key_spec() == a
                && offers[i].to.key_spec() == b;
        assert(acceptable(offers[i]) && (offers[i].from.key_spec() == k || offers[i].to.key_spec()
            == k));
    }
    if offers_touch(offers, k) {
        let i = choose|i: int|
            0 <= i < offers.len() && acceptable(#[trigger] offers[i]) && (
            offers[i].from.key_spec() == k || offers[i].to.key_spec() == k);
        let a = offers[i].from.key_spec();
        let b = offers[i].to.key_spec();
        assert(offered_between(offers, a, b));
        lemma_edge_after_some(None, offers, a, b);
        assert(g.edge_between(a, b) is Some);
        let u = g.index()[a] as int;
        let v = g.index()[b] as int;
        assert(g.has_edge(u, v));
        let j = g.slot(u, v);
        assert(0 <= j < g.edges[u].len() && g.edges[u][j].to == v);
        assert(g.occupied(u) && g.key_at(u) == a);
        assert(g.occupied(v) && g.key_at(v) == b);
        assert(g.key_at(u) == k || g.key_at((#[trigger] g.edges[u][j]).to as int) == k);
    }
}

/// A graph that was built from offers and is then offered one more edge
/// is built from the offers with that one at their end.
pub proof fn lemma_offer_step<T: NodeKey>(
    g0: &Graph<T>,
    g1: &Graph<T>,
    g2: &Graph<T>,
    offers: Seq<Offer<T>>,
    offer: Offer<T>,
)
    requires
        g1.built_from(g0, offers),
        g2.wf(),
        g2.extends(g1),
        g2.index().dom() == g1.index().dom().insert(offer.from.key_spec()).insert(
            offer.to.key_spec(),
        ),
        g2.edge_offered(g1, offer.from, offer.to, offer.data),
        !g1.contains(offer.from) ==> g2.position(offer.from) == g1.nodes@.len(),
        !g1.contains(offer.to) && offer.to.key_spec() != offer.from.key_spec() ==> g2.position(
            offer.to,
        ) == g1.nodes@.len() + (if g1.contains(offer.from) {
            0int
        } else {
            1int
        }),
        g2.nodes@.len() == g1.nodes@.len() + (if g1.contains(offer.from) {
            0int
        } else {
            1int
        }) + (if g1.contains(offer.to) || offer.to.key_spec() == offer.from.key_spec() {
            0int
        } else {
            1int
        }),
        !g1.contains(offer.from) ==> g2.nodes@[g2.position(offer.from)] == Some(
            Node { id: offer.from, layer: None },
        ),
        !g1.contains(offer.to) && offer.to.key_spec() != offer.from.key_spec() ==> g2.nodes@[
            g2.position(offer.to)
        ] == Some(Node { id: offer.to, layer: None }),
    ensures
        g2.built_from(g0, offers.push(offer)),
{
    let all = offers.push(offer);
    assert(all.drop_last() =~= offers);
    let keys = g0.index().dom();
    let first = g0.nodes@.len() as int;
    let before = keys_added(keys, offers);
    let from = offer.from.key_spec();
    let to = offer.to.key_spec();
    let with_from = if keys.contains(from) || before.contains(from) {
        before
    } else {
        before.push(from)
    };
    let added = keys_added(keys, all);
    lemma_key_added(keys, offers, from);
    lemma_key_added(keys, offers, to);
    assert(g1.index().dom().contains(from) <==> keys.contains(from) || before.contains(from));
    assert(g1.index().dom().contains(to) <==> keys.contains(to) || before.contains(to));
    assert(added == if keys.contains(to) || with_from.contains(to) {
        with_from
    } else {
        with_from.push(to)
    });
    lemma_contains_push(before, from, to);
    assert(g1.nodes@.len() == first + before.len());
    assert(with_from.len() == before.len() + if g1.contains(offer.from) {
        0int
    } else {
        1int
    });
    assert(added.len() == with_from.len() + if g1.contains(offer.to) || to == from {
        0int
    } else {
        1int
    });
    assert forall|i: int| 0 <= i < added.len() implies #[trigger] g2.placed_at(first, added, i) by {
        if i < before.len() {
            assert(with_from[i] == before[i]);
            assert(added[i] == with_from[i]);
            assert(g1.placed_at(first, before, i));
            assert(g2.nodes@[first + i] == g1.nodes@[first + i]);
        } else if i < with_from.len() {
            assert(added[i] == with_from[i]);
            assert(with_from[i] == from);
            assert(g2.position(offer.from) == first + i);
        } else {
            assert(added[i] == to);
            assert(g2.position(offer.to) == first + i);
        }
    }
    assert forall|a: (u64, i16), b: (u64, i16)|
        #![trigger g2.edge_between(a, b)]
        g2.edge_between(a, b) == edge_after(g0.edge_between(a, b), all, a, b) by {
        assert(g1.edge_between(a, b) == edge_after(g0.edge_between(a, b), offers, a, b));
    }
    assert forall|i: int| 0 <= i < g0.nodes@.len() implies g2.nodes@[i] == #[trigger] g0.nodes@[i] by {
        assert(g1.nodes@[i] == g0.nodes@[i]);
    }
}

/// A graph is built from itself by no offers.
pub proof fn lemma_offer_none<T: NodeKey>(g: &Graph<T>)
    requires
        g.wf(),
    ensures
        g.built_from(g, Seq::empty()),
{
}

/// Graphs with the same keys have the same node hash, in whatever order
/// their nodes were added.
pub proof fn lemma_node_hash_is_stable<T: NodeKey>(a: &Graph<T>, b: &Graph<T>)
    requires
        a.keys_in_place(a.nodes@.len() as int).to_multiset() == b.keys_in_place(
            b.nodes@.len() as int,
        ).to_multiset(),
    ensures
        a.spec_node_hash() == b.spec_node_hash(),
{
    let x = a.keys_in_place(a.nodes@.len() as int);
    let y = b.keys_in_place(b.nodes@.len() as int);
    lemma_key_order();
    x.lemma_sort_by_ensures(key_le());
    y.lemma_sort_by_ensures(key_le());
    vstd::seq_lib::lemma_sorted_unique(x.sort_by(key_le()), y.sort_by(key_le()), key_le());
}

/// No two edges of a well-formed graph join the same ordered pair of nodes:
/// edges with the same source and the same target are one edge.
pub proof fn lemma_edges_are_unique<T: NodeKey>(g: &Graph<T>, u: int, j: int, x: int, k: int)
    requires
        g.wf(),
        0 <= u < g.edges.len(),
        0 <= j < g.edges[u].len(),
        0 <= x < g.edges.len(),
        0 <= k < g.edges[x].len(),
        g.edges[u][j].from == g.edges[x][k].from,
        g.edges[u][j].to == g.edges[x][k].to,
    ensures
        u == x,
        j == k,
{
    g.lemma_slot(u, j);
    g.lemma_slot(x, k);
}

/// No edge of a well-formed graph leads from a node to itself.
pub proof fn lemma_no_self_loops<T: NodeKey>(g: &Graph<T>, u: int, j: int)
    requires
        g.wf(),
        0 <= u < g.edges.len(),
        0 <= j < g.edges[u].len(),
    ensures
        g.edges[u][j].from != g.edges[u][j].to,
        g.key_at(g.edges[u][j].from as int) != g.key_at(g.edges[u][j].to as int),
{
    let e = g.edges[u][j];
    assert(g.occupied(u) && g.occupied(e.to as int));
}

/// Of two edges offered one after the other between two nodes that no edge
/// joined before, the one of smaller weight stays, an absent weight counting
/// as sixty minutes.
pub proof fn lemma_lighter_edge_stays<T: NodeKey>(
    g0: &Graph<T>,
    g1: &Graph<T>,
    g2: &Graph<T>,
    from: T,
    to: T,
    first: EdgeData,
    second: EdgeData,
)
    requires
        g1.edge_offered(g0, from, to, first),
        g2.edge_offered(g1, from, to, second),
        Graph::<T>::accepts(from, to, first),
        Graph::<T>::accepts(from, to, second),
        g0.edge_between(from.key_spec(), to.key_spec()) is None,
    ensures
        g2.edge_between(from.key_spec(), to.key_spec()) is Some,
        compare_weight(g2.edge_between(from.key_spec(), to.key_spec())->0.weight) == if compare_weight(
            first.weight,
        ) <= compare_weight(second.weight) {
            compare_weight(first.weight)
        } else {
            compare_weight(second.weight)
        },
{
    let a = from.key_spec();
    let b = to.key_spec();
    assert(g1.edge_between(a, b) == Some(lighter(g0.edge_between(a, b), first)));
    assert(g2.edge_between(a, b) == Some(lighter(g1.edge_between(a, b), second)));
}

/// Merging a graph with one that has the same edges between the same keys
/// changes no edge.
pub proof fn lemma_merge_is_idempotent<T: NodeKey>(
    before: &Graph<T>,
    other: &Graph<T>,
    after: &Graph<T>,
)
    requires
        after.merged_from(before, other),
        other.same_edges(before),
    ensures
        after.same_edges(before),
{
    assert forall|a: (u64, i16), b: (u64, i16)|
        #![trigger after.edge_between(a, b)]
        after.edge_between(a, b) == before.edge_between(a, b) by {
        assert(other.edge_between(a, b) == before.edge_between(a, b));
        assert(after.edge_between(a, b) == Graph::<T>::merged_edge(
            before.edge_between(a, b),
            other.edge_between(a, b),
        ));
    }
}

} // verus!
