//! Breadth-first search: distances counted in edges.

use crate::graph::{Graph, GraphError, NodeKey};
use crate::paths::{edge_cost, hour_valid};
use crate::search::filled;
use std::collections::VecDeque;
use vstd::prelude::*;

verus! {

/// What a breadth-first search has gathered so far.
struct Sweep {
    /// The number of edges on a shortest walk to each node that was met.
    dist: Vec<Option<u64>>,
    /// The node before each node on such a walk.
    parents: Vec<Option<usize>>,
    /// The nodes that were met and wait to be expanded, first come first.
    queue: VecDeque<usize>,
    /// For each node that was met, a walk of that many edges.
    witness: Ghost<Seq<Seq<int>>>,
}

/// The number of nodes that have not been met.
spec fn unmet(dist: Seq<Option<u64>>) -> int
    decreases dist.len(),
{
    if dist.len() == 0 {
        0
    } else {
        unmet(dist.drop_last()) + if dist.last() is None {
            1int
        } else {
            0int
        }
    }
}

proof fn lemma_unmet_bounds(dist: Seq<Option<u64>>)
    ensures
        0 <= unmet(dist) <= dist.len(),
    decreases dist.len(),
{
    if dist.len() > 0 {
        lemma_unmet_bounds(dist.drop_last());
    }
}

proof fn lemma_unmet_falls(dist: Seq<Option<u64>>, v: int, d: u64)
    requires
        0 <= v < dist.len(),
        dist[v] is None,
    ensures
        unmet(dist.update(v, Some(d))) == unmet(dist) - 1,
    decreases dist.len(),
{
    let after = dist.update(v, Some(d));
    if v == dist.len() - 1 {
        assert(after.drop_last() =~= dist.drop_last());
    } else {
        assert(after.drop_last() =~= dist.drop_last().update(v, Some(d)));
        lemma_unmet_falls(dist.drop_last(), v, d);
    }
}

proof fn lemma_unmet_all(dist: Seq<Option<u64>>)
    requires
        forall|i: int| 0 <= i < dist.len() ==> (#[trigger] dist[i]) is None,
    ensures
        unmet(dist) == dist.len(),
    decreases dist.len(),
{
    if dist.len() > 0 {
        assert forall|i: int| 0 <= i < dist.drop_last().len() implies (#[trigger] dist.drop_last()[i]) is None by {
            assert(dist.drop_last()[i] == dist[i]);
        }
        lemma_unmet_all(dist.drop_last());
    }
}

/// The stamps of a search that needs none: distances alone rank the nodes.
spec fn no_stamps(n: nat) -> Seq<nat> {
    Seq::new(n, |i: int| 0nat)
}

impl<T: NodeKey> Graph<T> {
    /// Whether some walk from `from` to `to` has exactly `hops` edges, and
    /// none has fewer.
    pub open spec fn hop_distance(&self, from: int, to: int, hops: int) -> bool {
        &&& exists|p: Seq<int>| self.joins(p, from, to) && p.len() - 1 == hops
        &&& forall|p: Seq<int>| self.joins(p, from, to) ==> p.len() - 1 >= hops
    }

    /// Whether no walk leads from `from` to `to`.
    pub open spec fn no_walk(&self, from: int, to: int) -> bool {
        forall|p: Seq<int>| !self.joins(p, from, to)
    }

    /// What holds of one entry of the distances that a breadth-first search
    /// from `start` reports for the node of `target`.
    pub open spec fn hop_entry_ok(&self, start: T, target: T, entry: Option<u64>) -> bool {
        match entry {
            Some(h) => self.contains(target) && self.hop_distance(
                self.position(start),
                self.position(target),
                h as int,
            ),
            None => !self.contains(target) || self.no_walk(
                self.position(start),
                self.position(target),
            ),
        }
    }

    /// Whether `path` and `distances` answer a breadth-first search from
    /// `start`.
    ///
    /// A path is reported where `end` is given and reached: nodes of the
    /// graph that form a walk of the fewest edges from `start` to `end`,
    /// with that number as the only distance. Else the distances are those of the targets of `end_list`
    /// in their order where it is given, the one entry `None` where only
    /// `end` is given, and the distances of all nodes by position where
    /// neither is.
    pub open spec fn sweep_answers(
        &self,
        path: Option<Vec<T>>,
        distances: Seq<Option<u64>>,
        start: T,
        end: Option<&T>,
        end_list: Option<&Vec<T>>,
    ) -> bool {
        match path {
            Some(p) => {
                &&& end is Some
                &&& self.contains(*end->0)
                &&& p@.len() >= 1
                &&& p@[0] == start
                &&& p@.last() == *end->0
                &&& forall|i: int| 0 <= i < p@.len() ==> self.contains(#[trigger] p@[i])
                &&& self.is_walk(self.places(p@))
                &&& distances == seq![Some((p@.len() - 1) as u64)]
                &&& self.hop_distance(
                    self.position(start),
                    self.position(*end->0),
                    p@.len() - 1,
                )
            },
            None => {
                &&& end is Some ==> self.hop_entry_ok(start, *end->0, None)
                &&& match end_list {
                    Some(l) => {
                        &&& distances.len() == l@.len()
                        &&& forall|i: int|
                            0 <= i < l@.len() ==> self.hop_entry_ok(start, l@[i], #[trigger] distances[i])
                    },
                    None => if end is Some {
                        distances == seq![None::<u64>]
                    } else {
                        &&& distances.len() == self.nodes@.len()
                        &&& forall|v: int|
                            0 <= v < self.nodes@.len() ==> match #[trigger] distances[v] {
                                Some(h) => self.hop_distance(self.position(start), v, h as int),
                                None => self.no_walk(self.position(start), v),
                            }
                    },
                }
            },
        }
    }

    /// Whether `r` is what a breadth-first search from `start` owes: an
    /// error where the graph lacks `start`, an answer otherwise.
    #[allow(clippy::type_complexity)]
    pub open spec fn bfs_ok(
        &self,
        r: Result<(Option<Vec<T>>, Vec<Option<u64>>), GraphError>,
        start: T,
        end: Option<&T>,
        end_list: Option<&Vec<T>>,
    ) -> bool {
        if !self.contains(start) {
            r matches Err(e) && e == GraphError::InputNotFound
        } else {
            r matches Ok(res) && self.sweep_answers(res.0, res.1@, start, end, end_list)
        }
    }

    /// Whether the first `upto` edges that leave `v` lead to nodes that were
    /// met, none of them more than one edge farther than `v`.
    spec fn closed(&self, dist: Seq<Option<u64>>, v: int, upto: int) -> bool {
        forall|j: int|
            0 <= j < upto ==> dist[(#[trigger] self.edges[v][j]).to as int] is Some && dist[self.edges[v][j].to as int]->0
                <= dist[v]->0 + 1
    }

    /// Whether node `v` waits in the queue.
    spec fn queued(sw: &Sweep, v: int) -> bool {
        exists|i: int| 0 <= i < sw.queue@.len() && #[trigger] sw.queue@[i] == v
    }

    /// The distance of the nodes that are being expanded: that of the open
    /// node, else that of the first in the queue.
    spec fn level(sw: &Sweep, open: int) -> int {
        if open >= 0 {
            sw.dist[open]->0 as int
        } else if sw.queue@.len() > 0 {
            sw.dist[sw.queue@[0] as int]->0 as int
        } else {
            u64::MAX as int
        }
    }

    /// What holds throughout a breadth-first search, but for node `open`,
    /// whose edges have only been followed up to place `upto`.
    #[verifier::opaque]
    spec fn sweep_inv(&self, sw: &Sweep, start: int, open: int, upto: int) -> bool {
        let n = self.nodes.len();
        &&& self.wf()
        &&& sw.dist.len() == n
        &&& sw.parents.len() == n
        &&& sw.witness@.len() == n
        &&& self.is_forest(start, sw.dist@, sw.parents@, no_stamps(n as nat))
        &&& sw.dist[start] == Some(0u64)
        &&& forall|v: int|
            0 <= v < n && (#[trigger] sw.parents[v]) is Some ==> sw.dist[sw.parents[v]->0 as int]->0 + 1
                == sw.dist[v]->0
        &&& forall|v: int|
            0 <= v < n && (#[trigger] sw.dist[v]) is Some ==> self.joins(sw.witness@[v], start, v)
                && sw.witness@[v].len() - 1 == sw.dist[v]->0 && sw.dist[v]->0 + unmet(sw.dist@) < n
        &&& forall|i: int|
            0 <= i < sw.queue@.len() ==> (#[trigger] sw.queue@[i]) < n && sw.dist[sw.queue@[i] as int] is Some
                && Self::level(sw, open) <= sw.dist[sw.queue@[i] as int]->0 <= Self::level(sw, open)
                + 1
        &&& forall|i: int, j: int|
            0 <= i < j < sw.queue@.len() ==> sw.dist[(#[trigger] sw.queue@[i]) as int]->0 <= sw.dist[(
            #[trigger] sw.queue@[j]) as int]->0
        &&& forall|v: int|
            0 <= v < n && v != open && (#[trigger] sw.dist[v]) is Some ==> Self::queued(sw, v) || (
            self.closed(sw.dist@, v, self.edges[v].len() as int) && sw.dist[v]->0 <= Self::level(
                sw,
                open,
            ))
        &&& 0 <= open < n ==> {
            &&& sw.dist[open] is Some
            &&& 0 <= upto <= self.edges[open].len()
            &&& self.closed(sw.dist@, open, upto)
        }
    }

    /// Along a walk from the start, either the last node was met no farther
    /// away than the walk is long, or some node waits in the queue that is
    /// no farther away.
    proof fn lemma_sweep_front(&self, sw: &Sweep, start: int, q: Seq<int>)
        requires
            self.sweep_inv(sw, start, -1, 0),
            self.is_walk(q),
            q[0] == start,
        ensures
            (0 <= q.last() < sw.dist.len() && sw.dist[q.last()] is Some && sw.dist[q.last()]->0
                <= q.len() - 1) || (exists|i: int|
                0 <= i < sw.queue@.len() && sw.dist[(#[trigger] sw.queue@[i]) as int]->0 <= q.len()
                    - 1),
        decreases q.len(),
    {
        reveal(Graph::sweep_inv);
        assert(self.occupied(q.last()));
        if q.len() > 1 {
            let r = q.drop_last();
            let u = r.last();
            let x = q.last();
            self.lemma_walk_shorten(None, q);
            self.lemma_sweep_front(sw, start, r);
            if sw.dist[u] is Some && sw.dist[u]->0 <= r.len() - 1 {
                if Self::queued(sw, u) {
                    let i = choose|i: int| 0 <= i < sw.queue@.len() && #[trigger] sw.queue@[i] == u;
                    assert(sw.dist[sw.queue@[i] as int]->0 <= q.len() - 1);
                } else {
                    let j = self.slot(u, x);
                    assert(0 <= j < self.edges[u].len() && self.edges[u][j].to == x);
                }
            } else {
                let i = choose|i: int|
                    0 <= i < sw.queue@.len() && sw.dist[(#[trigger] sw.queue@[i]) as int]->0
                        <= r.len() - 1;
                assert(sw.dist[sw.queue@[i] as int]->0 <= q.len() - 1);
            }
        }
    }

    /// The distance of a node that was met is the fewest edges of any walk
    /// to it, once the node is the first in the queue or the queue is empty.
    proof fn lemma_sweep_exact(&self, sw: &Sweep, start: int, v: int)
        requires
            self.sweep_inv(sw, start, -1, 0),
            0 <= v < self.nodes.len(),
            sw.dist[v] is Some,
            sw.queue@.len() == 0 || sw.queue@[0] == v,
        ensures
            self.hop_distance(start, v, sw.dist[v]->0 as int),
    {
        reveal(Graph::sweep_inv);
        assert(self.joins(sw.witness@[v], start, v));
        assert forall|p: Seq<int>| self.joins(p, start, v) implies p.len() - 1 >= sw.dist[v]->0 by {
            self.lemma_sweep_front(sw, start, p);
            if !(sw.dist[v]->0 <= p.len() - 1) {
                let i = choose|i: int|
                    0 <= i < sw.queue@.len() && sw.dist[(#[trigger] sw.queue@[i]) as int]->0
                        <= p.len() - 1;
                if i > 0 {
                    assert(sw.dist[sw.queue@[0] as int]->0 <= sw.dist[sw.queue@[i] as int]->0);
                }
            }
        }
    }

    /// Once the queue is empty, a node that was not met is not to be
    /// reached.
    proof fn lemma_sweep_unmet(&self, sw: &Sweep, start: int, v: int)
        requires
            self.sweep_inv(sw, start, -1, 0),
            0 <= v < self.nodes.len(),
            sw.dist[v] is None,
            sw.queue@.len() == 0,
        ensures
            self.no_walk(start, v),
    {
        assert forall|p: Seq<int>| !self.joins(p, start, v) by {
            if self.joins(p, start, v) {
                self.lemma_sweep_front(sw, start, p);
            }
        }
    }

    /// A chain of predecessors has as many edges as the distances of its
    /// ends differ.
    proof fn lemma_chain_hops(dist: Seq<Option<u64>>, parents: Seq<Option<usize>>, tr: Seq<int>)
        requires
            tr.len() >= 1,
            Self::is_chain(tr, parents),
            parents.len() == dist.len(),
            parents.len() <= usize::MAX,
            0 <= tr[0] < dist.len(),
            forall|v: int|
                0 <= v < parents.len() && (#[trigger] parents[v]) is Some ==> dist[parents[v]->0 as int]->0
                    + 1 == dist[v]->0,
        ensures
            tr.len() - 1 + dist[tr[0]]->0 == dist[tr.last()]->0,
        decreases tr.len(),
    {
        if tr.len() > 1 {
            let rest = tr.drop_last();
            assert forall|i: int| 0 < i < rest.len() implies 0 <= #[trigger] rest[i] < parents.len()
                && parents[rest[i]] == Some(rest[i - 1] as usize) by {
                assert(rest[i] == tr[i] && rest[i - 1] == tr[i - 1]);
            }
            Self::lemma_chain_hops(dist, parents, rest);
            let v = tr[tr.len() - 1];
            assert(parents[v] == Some(tr[tr.len() - 2] as usize));
        }
    }

    /// Takes the first node out of the queue.
    fn sweep_pop(&self, sw: &mut Sweep, Ghost(start): Ghost<int>) -> (u: usize)
        requires
            self.sweep_inv(old(sw), start, -1, 0),
            old(sw).queue@.len() > 0,
        ensures
            u == old(sw).queue@[0],
            u < self.nodes.len(),
            self.sweep_inv(final(sw), start, u as int, 0),
            final(sw).dist == old(sw).dist,
            final(sw).parents == old(sw).parents,
            final(sw).queue@.len() == old(sw).queue@.len() - 1,
            final(sw).dist[u as int] is Some,
            final(sw).dist.len() == self.nodes.len(),
    {
        proof {
            reveal(Graph::sweep_inv);
        }
        let ghost before = *sw;
        let u = match sw.queue.pop_front() {
            Some(u) => u,
            None => 0,
        };
        proof {
            let n = self.nodes.len() as int;
            assert(u == before.queue@[0]);
            assert forall|i: int| 0 <= i < sw.queue@.len() implies #[trigger] sw.queue@[i]
                == before.queue@[i + 1] by {}
            assert forall|i: int| 0 <= i < sw.queue@.len() implies (#[trigger] sw.queue@[i]) < n
                && sw.dist[sw.queue@[i] as int] is Some && Self::level(sw, u as int)
                <= sw.dist[sw.queue@[i] as int]->0 <= Self::level(sw, u as int) + 1 by {
                assert(sw.queue@[i] == before.queue@[i + 1]);
            }
            assert forall|i: int, j: int| 0 <= i < j < sw.queue@.len() implies sw.dist[(
            #[trigger] sw.queue@[i]) as int]->0 <= sw.dist[(#[trigger] sw.queue@[j]) as int]->0 by {
                assert(sw.queue@[i] == before.queue@[i + 1]);
                assert(sw.queue@[j] == before.queue@[j + 1]);
            }
            assert forall|v: int|
                0 <= v < n && v != u && (#[trigger] sw.dist[v]) is Some implies Self::queued(sw, v)
                || (self.closed(sw.dist@, v, self.edges[v].len() as int) && sw.dist[v]->0
                <= Self::level(sw, u as int)) by {
                if Self::queued(&before, v) {
                    let i = choose|i: int|
                        0 <= i < before.queue@.len() && #[trigger] before.queue@[i] == v;
                    assert(i > 0);
                    assert(sw.queue@[i - 1] == v);
                }
            }
        }
        u
    }

    /// Follows the edge at place `j` of node `u`: a target that was not met
    /// yet gets its distance and joins the queue.
    fn sweep_edge(&self, sw: &mut Sweep, Ghost(start): Ghost<int>, u: usize, j: usize)
        requires
            self.sweep_inv(old(sw), start, u as int, j as int),
            u < self.nodes.len(),
            j < self.edges[u as int].len(),
        ensures
            self.sweep_inv(final(sw), start, u as int, j + 1),
            unmet(final(sw).dist@) <= unmet(old(sw).dist@),
            unmet(final(sw).dist@) == unmet(old(sw).dist@) ==> final(sw).queue@.len() == old(
                sw,
            ).queue@.len(),
    {
        proof {
            self.lemma_sweep_sizes(sw, start, u as int, j as int);
        }
        let w = self.edges[u][j].to;
        let du = match sw.dist[u] {
            Some(d) => d,
            None => 0,
        };
        let ghost before = *sw;
        if sw.dist[w].is_none() {
            proof {
                lemma_unmet_falls(before.dist@, w as int, (du + 1) as u64);
                lemma_unmet_bounds(before.dist@);
            }
            sw.parents[w] = Some(u);
            sw.dist[w] = Some(du + 1);
            sw.queue.push_back(w);
            proof {
                sw.witness = Ghost(
                    before.witness@.update(w as int, before.witness@[u as int].push(w as int)),
                );
                self.lemma_sweep_met(&before, sw, start, u as int, j as int, w as int);
            }
        } else {
            proof {
                self.lemma_sweep_known(sw, start, u as int, j as int);
            }
        }
    }

    /// The sizes and bounds that the search keeps.
    proof fn lemma_sweep_sizes(&self, sw: &Sweep, start: int, u: int, j: int)
        requires
            self.sweep_inv(sw, start, u, j),
            0 <= u < self.nodes.len(),
            0 <= j < self.edges[u].len(),
        ensures
            sw.dist.len() == self.nodes.len(),
            sw.parents.len() == self.nodes.len(),
            sw.witness@.len() == self.nodes.len(),
            self.edges.len() == self.nodes.len(),
            sw.dist[u] is Some,
            sw.dist[u]->0 + 1 < self.nodes.len() || sw.dist[self.edges[u][j].to as int] is Some,
            self.edges[u][j].to < self.nodes.len(),
            self.edges[u][j].to != u,
    {
        reveal(Graph::sweep_inv);
        let w = self.edges[u][j].to as int;
        assert(self.occupied(u) && self.occupied(w));
        if sw.dist[w] is None {
            lemma_unmet_falls(sw.dist@, w, 0);
            lemma_unmet_bounds(sw.dist@.update(w, Some(0u64)));
        }
    }

    /// The search stays in order when the edge at place `j` of the open node
    /// leads to a node that was met before.
    #[verifier::spinoff_prover]
    #[verifier::rlimit(50)]
    proof fn lemma_sweep_known(&self, sw: &Sweep, start: int, u: int, j: int)
        requires
            self.sweep_inv(sw, start, u, j),
            0 <= u < self.nodes.len(),
            0 <= j < self.edges[u].len(),
            sw.dist[self.edges[u][j].to as int] is Some,
        ensures
            self.sweep_inv(sw, start, u, j + 1),
    {
        reveal(Graph::sweep_inv);
        let w = self.edges[u][j].to as int;
        assert(self.occupied(u) && self.occupied(w) && w != u);
        if Self::queued(sw, w) {
            let i = choose|i: int| 0 <= i < sw.queue@.len() && #[trigger] sw.queue@[i] == w;
            assert(sw.dist[sw.queue@[i] as int]->0 <= Self::level(sw, u) + 1);
        }
    }

    /// The search stays in order when the edge at place `j` of the open node
    /// `u` leads to a node `w` that is met for the first time.
    #[verifier::spinoff_prover]
    #[verifier::rlimit(50)]
    proof fn lemma_sweep_met(&self, before: &Sweep, sw: &Sweep, start: int, u: int, j: int, w: int)
        requires
            self.sweep_inv(before, start, u, j),
            0 <= u < self.nodes.len(),
            0 <= j < self.edges[u].len(),
            w == self.edges[u][j].to,
            before.dist[w] is None,
            before.dist[u] is Some,
            before.dist[u]->0 + 1 <= u64::MAX,
            sw.dist@ == before.dist@.update(w, Some((before.dist[u]->0 + 1) as u64)),
            sw.parents@ == before.parents@.update(w, Some(u as usize)),
            sw.queue@ == before.queue@.push(w as usize),
            sw.witness@ == before.witness@.update(w, before.witness@[u].push(w)),
            unmet(sw.dist@) == unmet(before.dist@) - 1,
        ensures
            self.sweep_inv(sw, start, u, j + 1),
    {
        reveal(Graph::sweep_inv);
        let n = self.nodes.len() as int;
        assert(self.occupied(u) && self.occupied(w) && w != u);
        self.lemma_slot(u, j);
        self.lemma_walk_extend(None, before.witness@[u], w);
        let stamps = no_stamps(n as nat);
        assert forall|v: int| 0 <= v < sw.parents.len() && (#[trigger] sw.parents[v]) is Some implies {
            let p = sw.parents[v]->0 as int;
            &&& 0 <= p < sw.dist.len()
            &&& sw.dist[p] is Some
            &&& sw.dist[v] is Some
            &&& self.has_edge(p, v)
            &&& crate::paths::lower_rank(sw.dist@, stamps, p, v)
            &&& sw.dist[p]->0 + 1 == sw.dist[v]->0
        } by {
            if v != w {
                assert(before.parents[v] is Some);
                let p = before.parents[v]->0 as int;
                assert(crate::paths::lower_rank(before.dist@, stamps, p, v));
            }
        }
        assert forall|v: int|
            0 <= v < sw.dist.len() && (#[trigger] sw.dist[v]) is Some implies self.occupied(v) && (v
            != start ==> sw.parents[v] is Some) by {
            if v != w {
                assert(before.dist[v] is Some);
            }
        }
        assert(self.is_forest(start, sw.dist@, sw.parents@, stamps));
        assert forall|v: int| 0 <= v < n && (#[trigger] sw.dist[v]) is Some implies self.joins(
            sw.witness@[v],
            start,
            v,
        ) && sw.witness@[v].len() - 1 == sw.dist[v]->0 && sw.dist[v]->0 + unmet(sw.dist@) < n by {
            if v != w {
                assert(before.dist[v] is Some);
            }
        }
        assert forall|i: int| 0 <= i < sw.queue@.len() implies (#[trigger] sw.queue@[i]) < n
            && sw.dist[sw.queue@[i] as int] is Some && Self::level(sw, u)
            <= sw.dist[sw.queue@[i] as int]->0 <= Self::level(sw, u) + 1 by {
            if i < before.queue@.len() {
                assert(sw.queue@[i] == before.queue@[i]);
                assert(before.queue@[i] != w);
            }
        }
        assert forall|i: int, k: int| 0 <= i < k < sw.queue@.len() implies sw.dist[(
        #[trigger] sw.queue@[i]) as int]->0 <= sw.dist[(#[trigger] sw.queue@[k]) as int]->0 by {
            assert(sw.queue@[i] == before.queue@[i]);
            assert(before.queue@[i] != w);
            if k < before.queue@.len() {
                assert(sw.queue@[k] == before.queue@[k]);
                assert(before.queue@[k] != w);
            }
        }
        assert forall|v: int|
            0 <= v < n && v != u && (#[trigger] sw.dist[v]) is Some implies Self::queued(sw, v) || (
        self.closed(sw.dist@, v, self.edges[v].len() as int) && sw.dist[v]->0 <= Self::level(
            sw,
            u,
        )) by {
            if v == w {
                assert(sw.queue@[before.queue@.len() as int] == w);
            } else if Self::queued(before, v) {
                let i = choose|i: int|
                    0 <= i < before.queue@.len() && #[trigger] before.queue@[i] == v;
                assert(sw.queue@[i] == v);
            } else {
                assert forall|k: int| 0 <= k < self.edges[v].len() implies sw.dist[(
                #[trigger] self.edges[v][k]).to as int] is Some && sw.dist[self.edges[v][k].to as int]->0
                    <= sw.dist[v]->0 + 1 by {
                    assert(before.dist[self.edges[v][k].to as int] is Some);
                }
            }
        }
        assert forall|k: int| 0 <= k < j + 1 implies sw.dist[(
        #[trigger] self.edges[u][k]).to as int] is Some && sw.dist[self.edges[u][k].to as int]->0
            <= sw.dist[u]->0 + 1 by {
            if k < j {
                assert(before.dist[self.edges[u][k].to as int] is Some);
            }
        }
    }

    /// Follows every edge that leaves node `u`.
    fn sweep_expand(&self, sw: &mut Sweep, Ghost(start): Ghost<int>, u: usize)
        requires
            self.sweep_inv(old(sw), start, u as int, 0),
            u < self.nodes.len(),
        ensures
            self.sweep_inv(final(sw), start, -1, 0),
            unmet(final(sw).dist@) <= unmet(old(sw).dist@),
            unmet(final(sw).dist@) == unmet(old(sw).dist@) ==> final(sw).queue@.len() == old(
                sw,
            ).queue@.len(),
    {
        proof {
            reveal(Graph::sweep_inv);
        }
        let count = self.edges[u].len();
        let mut j: usize = 0;
        while j < count
            invariant
                count == self.edges[u as int].len(),
                j <= count,
                u < self.nodes.len(),
                self.sweep_inv(sw, start, u as int, j as int),
                unmet(sw.dist@) <= unmet(old(sw).dist@),
                unmet(sw.dist@) == unmet(old(sw).dist@) ==> sw.queue@.len() == old(sw).queue@.len(),
            decreases count - j,
        {
            self.sweep_edge(sw, Ghost(start), u, j);
            j += 1;
        }
        proof {
            reveal(Graph::sweep_inv);
            let n = self.nodes.len() as int;
            assert forall|i: int| 0 <= i < sw.queue@.len() implies (#[trigger] sw.queue@[i]) < n
                && sw.dist[sw.queue@[i] as int] is Some && Self::level(sw, -1)
                <= sw.dist[sw.queue@[i] as int]->0 <= Self::level(sw, -1) + 1 by {
                if i > 0 {
                    assert(sw.dist[sw.queue@[0] as int]->0 <= sw.dist[sw.queue@[i] as int]->0);
                }
            }
            assert forall|v: int|
                0 <= v < n && v != -1 && (#[trigger] sw.dist[v]) is Some implies Self::queued(sw, v)
                || (self.closed(sw.dist@, v, self.edges[v].len() as int) && sw.dist[v]->0
                <= Self::level(sw, -1)) by {
                if sw.queue@.len() > 0 {
                    assert(Self::level(sw, u as int) <= sw.dist[sw.queue@[0] as int]->0);
                }
            }
        }
    }
}

impl<T: NodeKey> Graph<T> {
    /// A breadth-first search is in order when it starts: only the start
    /// was met, and it waits in the queue.
    proof fn lemma_sweep_started(&self, sw: &Sweep, start: int)
        requires
            self.wf(),
            self.occupied(start),
            sw.dist@ == Seq::new(self.nodes.len() as nat, |i: int| None::<u64>).update(
                start,
                Some(0u64),
            ),
            sw.parents@ == Seq::new(self.nodes.len() as nat, |i: int| None::<usize>),
            sw.witness@ == Seq::new(self.nodes.len() as nat, |i: int| seq![start]),
            sw.queue@ == seq![start as usize],
        ensures
            self.sweep_inv(sw, start, -1, 0),
    {
        reveal(Graph::sweep_inv);
        let n = self.nodes.len() as int;
        let blank = Seq::new(n as nat, |i: int| None::<u64>);
        lemma_unmet_all(blank);
        lemma_unmet_falls(blank, start, 0);
        assert(self.is_walk(seq![start]));
        assert forall|v: int| 0 <= v < n && v != -1 && (#[trigger] sw.dist[v]) is Some implies Self::queued(
            sw,
            v,
        ) by {
            assert(sw.queue@[0] == v);
        }
    }

    /// The answer for a target that the search has met: the walk to it along
    /// the predecessors, and its distance.
    fn sweep_report(&self, sw: &Sweep, start_idx: usize, t: usize, Ghost(open): Ghost<int>) -> (res: (
        Vec<T>,
        u64,
    ))
        requires
            self.sweep_inv(sw, start_idx as int, open, 0),
            t < self.nodes.len(),
            sw.dist[t as int] is Some,
        ensures
            res.1 == sw.dist[t as int]->0,
            res.0@.len() - 1 == res.1,
            self.all_contained(res.0@),
            self.is_walk(self.places(res.0@)),
            self.occupied(start_idx as int),
            res.0@[0] == self.nodes[start_idx as int]->0.id,
            res.0@.last() == self.nodes[t as int]->0.id,
    {
        proof {
            reveal(Graph::sweep_inv);
        }
        let path = self.backtrace(sw.parents.as_slice(), t, start_idx);
        let d = match sw.dist[t] {
            Some(d) => d,
            None => 0,
        };
        proof {
            let n = self.nodes.len();
            let tr = self.trace(sw.parents@, t as int, start_idx as int, sw.parents@.len());
            self.lemma_trace_joins(
                start_idx as int,
                sw.dist@,
                sw.parents@,
                no_stamps(n as nat),
                t as int,
            );
            Self::lemma_chain_hops(sw.dist@, sw.parents@, tr);
            self.lemma_places_of_ids(tr);
        }
        (path, d)
    }

    /// Performs a breadth-first search from `start` and counts distances in
    /// edges, not in units of cost: weights are not looked at.
    ///
    /// * With `end`, the search stops when it takes `end` out of its queue
    ///   and returns the path to it and its distance.
    /// * With `end_list`, it returns the distance of each listed node, in
    ///   the order of the list, and `None` for one it cannot reach.
    /// * With neither, it returns the distances of all nodes by position.
    ///
    /// Where `end` is given and cannot be reached, there is no path, and
    /// the distances are those for `end_list` if it is given, else the one
    /// entry `None`.
    #[allow(clippy::type_complexity)]
    pub fn bfs(&self, start: &T, end: Option<&T>, end_list: Option<&Vec<T>>) -> (r: Result<
        (Option<Vec<T>>, Vec<Option<u64>>),
        GraphError,
    >)
        requires
            self.wf(),
        ensures
            self.bfs_ok(r, *start, end, end_list),
    {
        let n = self.nodes.len();
        let start_idx = match self.find(start) {
            Some(i) => i,
            None => {
                return Err(GraphError::InputNotFound);
            },
        };
        let target: Option<usize> = match end {
            Some(e) => self.find(e),
            None => None,
        };
        let mut dist: Vec<Option<u64>> = filled(n, None);
        assert(self.occupied(start_idx as int));
        dist[start_idx] = Some(0);
        let mut queue: VecDeque<usize> = VecDeque::new();
        queue.push_back(start_idx);
        let mut sw = Sweep {
            dist,
            parents: filled(n, None),
            queue,
            witness: Ghost(Seq::new(n as nat, |i: int| seq![start_idx as int])),
        };
        proof {
            assert(sw.dist@ =~= Seq::new(n as nat, |i: int| None::<u64>).update(
                start_idx as int,
                Some(0u64),
            ));
            assert(sw.parents@ =~= Seq::new(n as nat, |i: int| None::<usize>));
            assert(sw.queue@ =~= seq![start_idx]);
            self.lemma_sweep_started(&sw, start_idx as int);
            self.lemma_id_of_position(*start);
            if end is Some && self.contains(*end->0) {
                self.lemma_id_of_position(*end->0);
            }
        }
        while sw.queue.len() > 0
            invariant
                self.sweep_inv(&sw, start_idx as int, -1, 0),
                self.wf(),
                n == self.nodes.len(),
                start_idx < n,
                self.contains(*start),
                self.position(*start) == start_idx,
                self.nodes[start_idx as int]->0.id == *start,
                target == match end {
                    Some(e) => if self.contains(*e) {
                        Some(self.position(*e) as usize)
                    } else {
                        None::<usize>
                    },
                    None => None,
                },
                end is Some && self.contains(*end->0) ==> self.occupied(self.position(*end->0))
                    && self.nodes[self.position(*end->0)]->0.id == *end->0,
            decreases unmet(sw.dist@), sw.queue@.len(),
        {
            let ghost before = sw;
            proof {
                lemma_unmet_bounds(sw.dist@);
            }
            let u = self.sweep_pop(&mut sw, Ghost(start_idx as int));
            if target == Some(u) {
                proof {
                    self.lemma_sweep_exact(&before, start_idx as int, u as int);
                }
                let (path, d) = self.sweep_report(&sw, start_idx, u, Ghost(u as int));
                let mut distances: Vec<Option<u64>> = Vec::new();
                distances.push(Some(d));
                assert(distances@ =~= seq![Some((path@.len() - 1) as u64)]);
                return Ok((Some(path), distances));
            }
            self.sweep_expand(&mut sw, Ghost(start_idx as int), u);
            proof {
                lemma_unmet_bounds(sw.dist@);
            }
        }
        proof {
            self.lemma_sweep_all(&sw, start_idx as int);
        }
        match target {
            Some(t) => {
                if sw.dist[t].is_some() {
                    let (path, d) = self.sweep_report(&sw, start_idx, t, Ghost(-1));
                    let mut distances: Vec<Option<u64>> = Vec::new();
                    distances.push(Some(d));
                    assert(distances@ =~= seq![Some((path@.len() - 1) as u64)]);
                    return Ok((Some(path), distances));
                }
            },
            None => {},
        }
        match end_list {
            Some(list) => {
                let mut distances: Vec<Option<u64>> = Vec::new();
                let mut i: usize = 0;
                while i < list.len()
                    invariant
                        i <= list@.len(),
                        distances@.len() == i,
                        self.wf(),
                        sw.dist@.len() == self.nodes.len(),
                        forall|k: int|
                            0 <= k < i ==> #[trigger] distances@[k] == if self.contains(list@[k]) {
                                sw.dist@[self.position(list@[k])]
                            } else {
                                None
                            },
                    decreases list@.len() - i,
                {
                    let d = match self.find(&list[i]) {
                        Some(v) => {
                            assert(self.occupied(self.position(list@[i as int])));
                            sw.dist[v]
                        },
                        None => None,
                    };
                    distances.push(d);
                    i += 1;
                }
                proof {
                    assert forall|i: int| 0 <= i < list@.len() implies self.hop_entry_ok(
                        *start,
                        list@[i],
                        #[trigger] distances@[i],
                    ) by {
                        if self.contains(list@[i]) {
                            assert(self.occupied(self.position(list@[i])));
                        }
                    }
                }
                Ok((None, distances))
            },
            None => {
                if end.is_some() {
                    let mut distances: Vec<Option<u64>> = Vec::new();
                    distances.push(None);
                    assert(distances@ =~= seq![None::<u64>]);
                    Ok((None, distances))
                } else {
                    Ok((None, sw.dist))
                }
            },
        }
    }

    /// Once the queue is empty, every distance is the fewest edges of any
    /// walk, and a node without one is not to be reached.
    proof fn lemma_sweep_all(&self, sw: &Sweep, start: int)
        requires
            self.sweep_inv(sw, start, -1, 0),
            sw.queue@.len() == 0,
        ensures
            sw.dist@.len() == self.nodes.len(),
            forall|v: int|
                0 <= v < self.nodes.len() ==> match #[trigger] sw.dist@[v] {
                    Some(h) => self.hop_distance(start, v, h as int),
                    None => self.no_walk(start, v),
                },
    {
        assert(sw.dist@.len() == self.nodes.len()) by {
            reveal(Graph::sweep_inv);
        }
        assert forall|v: int| 0 <= v < self.nodes.len() implies match #[trigger] sw.dist@[v] {
            Some(h) => self.hop_distance(start, v, h as int),
            None => self.no_walk(start, v),
        } by {
            if sw.dist@[v] is Some {
                self.lemma_sweep_exact(sw, start, v);
            } else {
                self.lemma_sweep_unmet(sw, start, v);
            }
        }
    }
}

/// Whether every edge of the graph costs `w` at the given hour.
pub open spec fn costs_alike<T: NodeKey>(g: &Graph<T>, hour: Option<usize>, w: int) -> bool {
    forall|u: int, j: int|
        0 <= u < g.edges.len() && 0 <= j < g.edges[u].len() ==> edge_cost(
            (#[trigger] g.edges[u][j]).data(),
            hour,
        ) == w
}

/// Where every edge costs the same, a walk costs that much for each of its
/// edges.
pub proof fn lemma_walk_costs_by_the_edge<T: NodeKey>(
    g: &Graph<T>,
    hour: Option<usize>,
    w: int,
    p: Seq<int>,
)
    requires
        g.wf(),
        hour_valid(hour),
        costs_alike(g, hour, w),
        g.is_walk(p),
    ensures
        g.walk_cost(hour, p) == w * (p.len() - 1),
    decreases p.len(),
{
    if p.len() > 1 {
        let rest = p.drop_last();
        g.lemma_walk_shorten(hour, p);
        lemma_walk_costs_by_the_edge(g, hour, w, rest);
        let u = p[p.len() - 2];
        let v = p.last();
        let j = g.slot(u, v);
        assert(0 <= j < g.edges[u].len() && g.edges[u][j].to == v);
        g.lemma_slot(u, j);
        assert(g.step_cost(hour, u, v) == w);
        assert(w * (rest.len() - 1) + w == w * (p.len() - 1)) by (nonlinear_arith)
            requires
                rest.len() == p.len() - 1,
        ;
    } else {
        assert(w * (p.len() - 1) == 0) by (nonlinear_arith)
            requires
                p.len() == 1,
        ;
    }
}

/// Where every edge costs the same, breadth-first search and the search by
/// cost agree: the lowest cost of a walk between two nodes is the cost of
/// an edge times the fewest edges of a walk between them. With edges of
/// cost one the two distances are the same number.
pub proof fn lemma_hops_are_costs<T: NodeKey>(
    g: &Graph<T>,
    hour: Option<usize>,
    w: int,
    from: int,
    to: int,
    hops: int,
    cost: int,
)
    requires
        g.wf(),
        hour_valid(hour),
        costs_alike(g, hour, w),
        w > 0,
        g.hop_distance(from, to, hops),
        g.reaches(hour, from, to, cost),
        g.none_below(hour, from, to, cost),
    ensures
        cost == w * hops,
{
    let short = choose|p: Seq<int>| g.joins(p, from, to) && p.len() - 1 == hops;
    let cheap = choose|p: Seq<int>| g.joins(p, from, to) && g.walk_cost(hour, p) == cost;
    lemma_walk_costs_by_the_edge(g, hour, w, short);
    lemma_walk_costs_by_the_edge(g, hour, w, cheap);
    assert(g.walk_cost(hour, short) >= cost);
    assert(cheap.len() - 1 >= hops);
    assert(w * (cheap.len() - 1) >= w * hops) by (nonlinear_arith)
        requires
            w > 0,
            cheap.len() - 1 >= hops,
    ;
}

} // verus!
