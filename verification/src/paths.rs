//! Walks through a graph, what they cost, and the chains of predecessors that
//! a search leaves behind.

use crate::graph::{EdgeData, Graph, NodeKey, HOURS_PER_WEEK, MINUTE};
use vstd::prelude::*;

verus! {

/// Whether an hour of the week, if one is given, lies within the week.
pub open spec fn hour_valid(hour: Option<usize>) -> bool {
    match hour {
        Some(h) => h < HOURS_PER_WEEK,
        None => true,
    }
}

/// What it costs to take an edge: its entry for the hour where an hour is
/// given and the edge has a weight list, else its weight, and one minute
/// where it has none.
pub open spec fn edge_cost(data: EdgeData, hour: Option<usize>) -> int {
    match (data.weight_list, hour) {
        (Some(l), Some(h)) => l[h as int] as int,
        _ => match data.weight {
            Some(w) => w as int,
            None => MINUTE as int,
        },
    }
}

impl<T: NodeKey> Graph<T> {
    /// What the step from `u` to `v` costs.
    pub open spec fn step_cost(&self, hour: Option<usize>, u: int, v: int) -> int
        recommends
            self.has_edge(u, v),
    {
        edge_cost(self.edge_data(u, v)->0, hour)
    }

    /// Whether `p` is a walk: a sequence of at least one node in which an
    /// edge leads from each node to the next.
    pub open spec fn is_walk(&self, p: Seq<int>) -> bool {
        &&& p.len() >= 1
        &&& forall|k: int| 0 <= k < p.len() ==> self.occupied(#[trigger] p[k])
        &&& forall|k: int| 0 <= k < p.len() - 1 ==> self.has_edge(#[trigger] p[k], p[k + 1])
    }

    /// Whether `p` is a walk from `from` to `to`.
    pub open spec fn joins(&self, p: Seq<int>, from: int, to: int) -> bool {
        self.is_walk(p) && p[0] == from && p.last() == to
    }

    /// The sum of the costs of the steps of `p`.
    pub open spec fn walk_cost(&self, hour: Option<usize>, p: Seq<int>) -> int
        decreases p.len(),
    {
        if p.len() <= 1 {
            0
        } else {
            self.walk_cost(hour, p.drop_last()) + self.step_cost(hour, p[p.len() - 2], p.last())
        }
    }

    /// The keys of the nodes at the positions of `p`.
    pub open spec fn ids(&self, p: Seq<int>) -> Seq<T> {
        Seq::new(p.len(), |i: int| self.nodes[p[i]]->0.id)
    }

    /// Whether every node named in `path` is a node of the graph.
    pub open spec fn all_contained(&self, path: Seq<T>) -> bool {
        forall|i: int| 0 <= i < path.len() ==> self.contains(#[trigger] path[i])
    }

    /// The positions of the nodes named in `path`.
    pub open spec fn places(&self, path: Seq<T>) -> Seq<int> {
        Seq::new(path.len(), |i: int| self.position(path[i]))
    }

    /// The chain of predecessors that ends in `cur`, first node first. It is
    /// followed back until it meets `start`, a node without a predecessor or
    /// an empty slot, and for at most `fuel` steps.
    pub open spec fn trace(
        &self,
        parents: Seq<Option<usize>>,
        cur: int,
        start: int,
        fuel: nat,
    ) -> Seq<int>
        decreases fuel,
    {
        if !self.occupied(cur) {
            Seq::empty()
        } else if cur == start || fuel == 0 || cur >= parents.len() {
            seq![cur]
        } else {
            match parents[cur] {
                Some(p) => self.trace(parents, p as int, start, (fuel - 1) as nat).push(cur),
                None => seq![cur],
            }
        }
    }

    /// Whether `parents` leads every node that has a distance back toward
    /// `start`: every such node but `start` has a predecessor, an edge leads
    /// from the predecessor to the node, and the predecessor ranks below the
    /// node, by distance and, where the distances are the same, by `stamp`.
    pub open spec fn is_forest(
        &self,
        start: int,
        dist: Seq<Option<u64>>,
        parents: Seq<Option<usize>>,
        stamp: Seq<nat>,
    ) -> bool {
        &&& dist.len() == self.nodes.len()
        &&& parents.len() == self.nodes.len()
        &&& stamp.len() == self.nodes.len()
        &&& self.occupied(start)
        &&& dist[start] is Some
        &&& parents[start] is None
        &&& forall|v: int|
            0 <= v < dist.len() && (#[trigger] dist[v]) is Some ==> self.occupied(v) && (v != start
                ==> parents[v] is Some)
        &&& forall|v: int|
            0 <= v < parents.len() && (#[trigger] parents[v]) is Some ==> {
                let p = parents[v]->0 as int;
                &&& 0 <= p < dist.len()
                &&& dist[p] is Some
                &&& dist[v] is Some
                &&& self.has_edge(p, v)
                &&& lower_rank(dist, stamp, p, v)
            }
    }

    /// Whether `dist` and `parents` form a tree of walks from `start` in
    /// which the distance of each node covers that of its predecessor and
    /// the step between them.
    pub open spec fn is_tree(
        &self,
        hour: Option<usize>,
        start: int,
        dist: Seq<Option<u64>>,
        parents: Seq<Option<usize>>,
        stamp: Seq<nat>,
    ) -> bool {
        &&& self.is_forest(start, dist, parents, stamp)
        &&& forall|v: int|
            0 <= v < parents.len() && (#[trigger] parents[v]) is Some ==> dist[parents[v]->0 as int]->0
                + self.step_cost(hour, parents[v]->0 as int, v) <= dist[v]->0
    }

    /// Whether each node of `tr` but the first has the node before it as
    /// its predecessor.
    pub open spec fn is_chain(tr: Seq<int>, parents: Seq<Option<usize>>) -> bool {
        forall|i: int|
            0 < i < tr.len() ==> 0 <= #[trigger] tr[i] < parents.len() && parents[tr[i]] == Some(
                tr[i - 1] as usize,
            )
    }

    /// A node and the key at its position name each other.
    pub proof fn lemma_position_of_id(&self, v: int)
        requires
            self.wf(),
            self.occupied(v),
        ensures
            self.contains(self.nodes[v]->0.id),
            self.position(self.nodes[v]->0.id) == v,
    {
        assert(self.key_at(v) == self.nodes[v]->0.id.key_spec());
    }

    /// The node at the position of a key is the one that the key names.
    pub proof fn lemma_id_of_position(&self, id: T)
        requires
            self.wf(),
            self.contains(id),
        ensures
            self.occupied(self.position(id)),
            self.nodes[self.position(id)]->0.id == id,
    {
        let v = self.position(id);
        assert(self.occupied(v) && self.key_at(v) == id.key_spec());
        T::lemma_key_injective(self.nodes[v]->0.id, id);
    }

    /// The positions of the keys of a walk are the walk.
    pub proof fn lemma_places_of_ids(&self, p: Seq<int>)
        requires
            self.wf(),
            self.is_walk(p),
        ensures
            self.places(self.ids(p)) == p,
            self.all_contained(self.ids(p)),
    {
        assert forall|i: int| 0 <= i < p.len() implies self.places(self.ids(p))[i] == p[i] by {
            assert(self.occupied(p[i]));
            self.lemma_position_of_id(p[i]);
        }
        assert forall|i: int| 0 <= i < self.ids(p).len() implies self.contains(
            #[trigger] self.ids(p)[i],
        ) by {
            assert(self.occupied(p[i]));
            self.lemma_position_of_id(p[i]);
        }
        assert(self.places(self.ids(p)) =~= p);
    }

    /// Where a path names nodes of the graph and its positions form a walk,
    /// an edge of the graph leads from each node of the path to the next.
    pub proof fn lemma_path_follows_edges(&self, path: Seq<T>, i: int)
        requires
            self.wf(),
            self.all_contained(path),
            self.is_walk(self.places(path)),
            0 <= i < path.len() - 1,
        ensures
            self.edge_between(path[i].key_spec(), path[i + 1].key_spec()) is Some,
    {
        let p = self.places(path);
        assert(self.contains(path[i]) && self.contains(path[i + 1]));
        assert(p[i] == self.position(path[i]) && p[i + 1] == self.position(path[i + 1]));
        assert(self.has_edge(p[i], p[i + 1]));
    }

    /// The cost of a step is never negative.
    pub proof fn lemma_step_cost_bounds(&self, hour: Option<usize>, u: int, v: int)
        requires
            self.wf(),
            hour_valid(hour),
            self.has_edge(u, v),
        ensures
            0 <= self.step_cost(hour, u, v) <= u64::MAX,
    {
        let j = self.slot(u, v);
        assert(list_covers(self.edges[u][j].data()));
    }

    /// The cost of a walk is never negative.
    pub proof fn lemma_walk_cost_bounds(&self, hour: Option<usize>, p: Seq<int>)
        requires
            self.wf(),
            hour_valid(hour),
            self.is_walk(p),
        ensures
            0 <= self.walk_cost(hour, p),
        decreases p.len(),
    {
        if p.len() > 1 {
            self.lemma_walk_shorten(hour, p);
            self.lemma_walk_cost_bounds(hour, p.drop_last());
        }
    }

    /// A walk without its last step is a walk, and costs no more.
    pub proof fn lemma_walk_shorten(&self, hour: Option<usize>, p: Seq<int>)
        requires
            self.wf(),
            hour_valid(hour),
            self.is_walk(p),
            p.len() >= 2,
        ensures
            self.is_walk(p.drop_last()),
            p.drop_last()[0] == p[0],
            p.drop_last().last() == p[p.len() - 2],
            self.has_edge(p[p.len() - 2], p.last()),
            self.walk_cost(hour, p) == self.walk_cost(hour, p.drop_last()) + self.step_cost(
                hour,
                p[p.len() - 2],
                p.last(),
            ),
            self.walk_cost(hour, p.drop_last()) <= self.walk_cost(hour, p),
    {
        let q = p.drop_last();
        assert forall|k: int| 0 <= k < q.len() implies self.occupied(#[trigger] q[k]) by {
            assert(q[k] == p[k]);
        }
        assert forall|k: int| 0 <= k < q.len() - 1 implies self.has_edge(#[trigger] q[k], q[k + 1]) by {
            assert(q[k] == p[k] && q[k + 1] == p[k + 1]);
        }
        let k = p.len() - 2;
        assert(self.has_edge(p[k], p[k + 1]));
        self.lemma_step_cost_bounds(hour, p[k], p.last());
    }

    /// A walk with one more step is a walk, and costs the step more.
    pub proof fn lemma_walk_extend(&self, hour: Option<usize>, p: Seq<int>, v: int)
        requires
            self.is_walk(p),
            self.occupied(v),
            self.has_edge(p.last(), v),
        ensures
            self.is_walk(p.push(v)),
            p.push(v)[0] == p[0],
            p.push(v).last() == v,
            self.walk_cost(hour, p.push(v)) == self.walk_cost(hour, p) + self.step_cost(
                hour,
                p.last(),
                v,
            ),
    {
        let q = p.push(v);
        assert(q.drop_last() =~= p);
        assert forall|k: int| 0 <= k < q.len() implies self.occupied(#[trigger] q[k]) by {
            if k < p.len() {
                assert(q[k] == p[k]);
            }
        }
        assert forall|k: int| 0 <= k < q.len() - 1 implies self.has_edge(#[trigger] q[k], q[k + 1]) by {
            if k < p.len() - 1 {
                assert(q[k] == p[k] && q[k + 1] == p[k + 1]);
            }
        }
    }

    /// Where `parents` leads back toward `start`, the chain of predecessors
    /// of a node with a distance is a walk from `start` to that node.
    pub proof fn lemma_trace_joins(
        &self,
        start: int,
        dist: Seq<Option<u64>>,
        parents: Seq<Option<usize>>,
        stamp: Seq<nat>,
        target: int,
    )
        requires
            self.wf(),
            self.is_forest(start, dist, parents, stamp),
            0 <= target < dist.len(),
            dist[target] is Some,
        ensures
            self.joins(self.trace(parents, target, start, parents.len()), start, target),
            Self::is_chain(self.trace(parents, target, start, parents.len()), parents),
    {
        let n = parents.len();
        self.lemma_trace_shape(start, dist, parents, stamp, target, n);
        let tr = self.trace(parents, target, start, n);
        if tr[0] != start {
            // the chain used up its fuel: more nodes than the graph has,
            // and no node twice
            assert forall|i: int, j: int| 0 <= i < j < tr.len() implies tr[i] != tr[j] by {
                assert(lower_rank(dist, stamp, tr[i], tr[j]));
            }
            assert(tr.no_duplicates());
            tr.unique_seq_to_set();
            vstd::set_lib::lemma_int_range(0, n as int);
            assert(tr.to_set().subset_of(vstd::set_lib::set_int_range(0, n as int))) by {
                assert forall|x: int| tr.to_set().contains(x) implies vstd::set_lib::set_int_range(
                    0,
                    n as int,
                ).contains(x) by {
                    let i = choose|i: int| 0 <= i < tr.len() && tr[i] == x;
                    assert(self.occupied(tr[i]));
                }
            }
            vstd::set_lib::lemma_len_subset(tr.to_set(), vstd::set_lib::set_int_range(0, n as int));
            assert(false);
        }
    }

    /// What the chain of predecessors of a node looks like where `parents`
    /// leads back toward `start`: it is a walk that ends in the node, every
    /// node of it has a distance and follows its predecessor, each node
    /// ranks below those after it, and it starts at `start` unless the fuel
    /// ran out.
    proof fn lemma_trace_shape(
        &self,
        start: int,
        dist: Seq<Option<u64>>,
        parents: Seq<Option<usize>>,
        stamp: Seq<nat>,
        cur: int,
        fuel: nat,
    )
        requires
            self.wf(),
            self.is_forest(start, dist, parents, stamp),
            0 <= cur < dist.len(),
            dist[cur] is Some,
        ensures
            ({
                let tr = self.trace(parents, cur, start, fuel);
                &&& self.is_walk(tr)
                &&& tr.last() == cur
                &&& Self::is_chain(tr, parents)
                &&& tr[0] != start ==> tr.len() == fuel + 1
                &&& forall|i: int|
                    0 <= i < tr.len() ==> 0 <= #[trigger] tr[i] < dist.len() && dist[tr[i]] is Some
                &&& forall|i: int, j: int|
                    0 <= i < j < tr.len() ==> lower_rank(dist, stamp, #[trigger] tr[i], #[trigger] tr[j])
            }),
        decreases fuel,
    {
        let tr = self.trace(parents, cur, start, fuel);
        assert(self.occupied(cur));
        if cur == start || fuel == 0 {
            assert(tr =~= seq![cur]);
        } else {
            assert(parents[cur] is Some);
            let p = parents[cur]->0 as int;
            let rest = self.trace(parents, p, start, (fuel - 1) as nat);
            self.lemma_trace_shape(start, dist, parents, stamp, p, (fuel - 1) as nat);
            assert(tr == rest.push(cur));
            self.lemma_walk_extend(None, rest, cur);
            assert(lower_rank(dist, stamp, p, cur));
            assert forall|i: int|
                0 <= i < tr.len() implies 0 <= #[trigger] tr[i] < dist.len() && dist[tr[i]] is Some by {
                if i < rest.len() {
                    assert(tr[i] == rest[i]);
                }
            }
            assert forall|i: int| 0 < i < tr.len() implies 0 <= #[trigger] tr[i] < parents.len()
                && parents[tr[i]] == Some(tr[i - 1] as usize) by {
                if i < rest.len() {
                    assert(tr[i] == rest[i] && tr[i - 1] == rest[i - 1]);
                }
            }
            assert forall|i: int, j: int| 0 <= i < j < tr.len() implies lower_rank(
                dist,
                stamp,
                #[trigger] tr[i],
                #[trigger] tr[j],
            ) by {
                assert(tr[i] == rest[i]);
                if j < rest.len() {
                    assert(tr[j] == rest[j]);
                } else {
                    if i < rest.len() - 1 {
                        assert(lower_rank(dist, stamp, rest[i], rest[rest.len() - 1]));
                    }
                }
            }
        }
    }

    /// In a tree of walks a chain of predecessors costs no more than the
    /// distance of its last node.
    pub proof fn lemma_chain_cost(
        &self,
        hour: Option<usize>,
        start: int,
        dist: Seq<Option<u64>>,
        parents: Seq<Option<usize>>,
        stamp: Seq<nat>,
        tr: Seq<int>,
    )
        requires
            self.wf(),
            hour_valid(hour),
            self.is_tree(hour, start, dist, parents, stamp),
            self.is_walk(tr),
            Self::is_chain(tr, parents),
            0 <= tr[0] < dist.len(),
            dist[tr[0]] is Some,
        ensures
            0 <= tr.last() < dist.len(),
            dist[tr.last()] is Some,
            self.walk_cost(hour, tr) + dist[tr[0]]->0 <= dist[tr.last()]->0,
        decreases tr.len(),
    {
        if tr.len() > 1 {
            let rest = tr.drop_last();
            self.lemma_walk_shorten(hour, tr);
            assert forall|i: int| 0 < i < rest.len() implies 0 <= #[trigger] rest[i] < parents.len()
                && parents[rest[i]] == Some(rest[i - 1] as usize) by {
                assert(rest[i] == tr[i] && rest[i - 1] == tr[i - 1]);
            }
            self.lemma_chain_cost(hour, start, dist, parents, stamp, rest);
            let v = tr[tr.len() - 1];
            assert(parents[v] == Some(tr[tr.len() - 2] as usize));
        }
    }

    /// In a tree of walks the chain of predecessors of a node with a distance
    /// is a walk from `start` to that node which costs no more than the
    /// distance of the node.
    pub proof fn lemma_trace_is_walk(
        &self,
        hour: Option<usize>,
        start: int,
        dist: Seq<Option<u64>>,
        parents: Seq<Option<usize>>,
        stamp: Seq<nat>,
        target: int,
    )
        requires
            self.wf(),
            hour_valid(hour),
            self.is_tree(hour, start, dist, parents, stamp),
            0 <= target < dist.len(),
            dist[target] is Some,
        ensures
            self.joins(self.trace(parents, target, start, parents.len()), start, target),
            self.walk_cost(hour, self.trace(parents, target, start, parents.len()))
                <= dist[target]->0,
    {
        self.lemma_trace_joins(start, dist, parents, stamp, target);
        self.lemma_chain_cost(
            hour,
            start,
            dist,
            parents,
            stamp,
            self.trace(parents, target, start, parents.len()),
        );
    }
}

/// Whether the weight list of an edge, if it has one, covers the week.
pub open spec fn list_covers(data: EdgeData) -> bool {
    crate::graph::list_well_formed(data.weight_list)
}

/// Whether node `a` ranks below node `b`: by distance, and by stamp where
/// the distances are the same.
pub open spec fn lower_rank(dist: Seq<Option<u64>>, stamp: Seq<nat>, a: int, b: int) -> bool {
    dist[a]->0 < dist[b]->0 || (dist[a]->0 == dist[b]->0 && stamp[a] < stamp[b])
}

} // verus!
