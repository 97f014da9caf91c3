//! Searches through the graph: breadth first, and by cost with a heuristic.

use crate::frontier::{Frontier, Scored};
use crate::graph::{list_well_formed, Edge, Graph, GraphError, NodeKey, INFINITE, MINUTE};
use crate::paths::{edge_cost, hour_valid};
use vstd::prelude::*;

verus! {

/// What a search by cost returns.
#[derive(Debug)]
pub struct AStarResult<T> {
    /// The path to the target, where a single target was asked for and reached.
    pub path: Option<Vec<T>>,
    /// Whether a single target was asked for.
    pub single_target: bool,
    /// The distances that were found.
    pub distances: Vec<Option<u64>>,
}

/// Whether every estimate of a heuristic is `c`.
pub open spec fn gives_only<T, F: Fn(&T, &T) -> u64>(heuristic: F, c: u64) -> bool {
    forall|a: &T, b: &T, r: u64| #[trigger] heuristic.ensures((a, b), r) ==> r == c
}

/// Whether a heuristic gives the same estimate whatever it is asked.
pub open spec fn is_constant<T, F: Fn(&T, &T) -> u64>(heuristic: F) -> bool {
    exists|c: u64| gives_only(heuristic, c)
}

/// Whether a heuristic can be asked about every pair of nodes.
pub open spec fn is_total<T, F: Fn(&T, &T) -> u64>(heuristic: F) -> bool {
    forall|a: &T, b: &T| #[trigger] heuristic.requires((a, b))
}

impl<T: NodeKey> Graph<T> {
    /// Whether some walk from `from` to `to` costs exactly `cost`.
    pub open spec fn reaches(&self, hour: Option<usize>, from: int, to: int, cost: int) -> bool {
        exists|p: Seq<int>| self.joins(p, from, to) && self.walk_cost(hour, p) == cost
    }

    /// Whether no walk from `from` to `to` costs less than `cost`.
    pub open spec fn none_below(&self, hour: Option<usize>, from: int, to: int, cost: int) -> bool {
        forall|p: Seq<int>| self.joins(p, from, to) ==> self.walk_cost(hour, p) >= cost
    }

    /// Whether every walk from `from` to `to` costs more than `limit`, or
    /// costs so much that it counts as no passage.
    pub open spec fn out_of_reach(&self, hour: Option<usize>, from: int, to: int, limit: int) -> bool {
        forall|p: Seq<int>|
            self.joins(p, from, to) ==> self.walk_cost(hour, p) > limit || self.walk_cost(hour, p)
                >= INFINITE
    }

    /// The targets of a search: the list where one is given, else the
    /// single target, else none.
    pub open spec fn targets(end: Option<&T>, end_list: Option<&Vec<T>>) -> Seq<T> {
        match end_list {
            Some(l) => l@,
            None => match end {
                Some(e) => seq![*e],
                None => Seq::empty(),
            },
        }
    }

    /// What holds of a distance `d` that a search from `start` reports for
    /// `target`: some walk to the target costs `d`, and `d` lies within the
    /// cutoff. With a constant heuristic no walk to the target costs less;
    /// and where `nearest` is set, none to any of the targets does.
    pub open spec fn distance_ok(
        &self,
        hour: Option<usize>,
        start: T,
        targets: Seq<T>,
        target: T,
        d: u64,
        limit: u64,
        nearest: bool,
        flat: bool,
    ) -> bool {
        &&& self.contains(target)
        &&& d <= limit
        &&& d < INFINITE
        &&& self.reaches(hour, self.position(start), self.position(target), d as int)
        &&& flat ==> self.none_below(hour, self.position(start), self.position(target), d as int)
        &&& flat && nearest ==> forall|j: int|
            0 <= j < targets.len() && self.contains(#[trigger] targets[j]) ==> self.none_below(
                hour,
                self.position(start),
                self.position(targets[j]),
                d as int,
            )
    }

    /// What holds of a target for which a search from `start` reports no
    /// distance: the graph lacks it, or every walk to it costs more than the
    /// cutoff, or, where reaching a target lowers the cutoff, more than a
    /// distance that the search reports for another target.
    pub open spec fn gap_ok(
        &self,
        hour: Option<usize>,
        start: T,
        target: T,
        limit: u64,
        dynamic: bool,
        distances: Seq<Option<u64>>,
    ) -> bool {
        ||| !self.contains(target)
        ||| self.out_of_reach(hour, self.position(start), self.position(target), limit as int)
        ||| (dynamic && exists|j: int|
            0 <= j < distances.len() && (#[trigger] distances[j]) is Some && self.out_of_reach(
                hour,
                self.position(start),
                self.position(target),
                distances[j]->0 as int,
            ))
    }

    /// Whether `res` answers a search by cost from `start` for `targets`.
    ///
    /// A path is reported only by a search that ends at the first target it
    /// reaches: it names nodes of the graph, leads from `start` to that
    /// target, edge by edge, and costs no more than the one distance
    /// reported with it. Without a path there is one entry for each target,
    /// in the order of the targets.
    pub open spec fn answers(
        &self,
        res: AStarResult<T>,
        start: T,
        targets: Seq<T>,
        single: bool,
        limit: u64,
        dynamic: bool,
        hour: Option<usize>,
        flat: bool,
    ) -> bool {
        &&& res.single_target == single
        &&& match res.path {
            Some(path) => {
                &&& single
                &&& path@.len() >= 1
                &&& path@[0] == start
                &&& exists|i: int| 0 <= i < targets.len() && #[trigger] targets[i] == path@.last()
                &&& forall|i: int| 0 <= i < path@.len() ==> self.contains(#[trigger] path@[i])
                &&& self.is_walk(self.places(path@))
                &&& res.distances@.len() == 1
                &&& res.distances@[0] is Some
                &&& self.walk_cost(hour, self.places(path@)) <= res.distances@[0]->0
                &&& flat ==> self.walk_cost(hour, self.places(path@)) == res.distances@[0]->0
                &&& self.distance_ok(
                    hour,
                    start,
                    targets,
                    path@.last(),
                    res.distances@[0]->0,
                    limit,
                    true,
                    flat,
                )
            },
            None => {
                &&& res.distances@.len() == targets.len()
                &&& forall|i: int|
                    0 <= i < targets.len() ==> match #[trigger] res.distances@[i] {
                        Some(d) => !single && self.distance_ok(
                            hour,
                            start,
                            targets,
                            targets[i],
                            d,
                            limit,
                            dynamic,
                            flat,
                        ),
                        None => self.gap_ok(hour, start, targets[i], limit, dynamic, res.distances@),
                    }
            },
        }
    }

    /// The cutoff of a search: the one given, else none at all.
    pub open spec fn cutoff(infinity: Option<u64>) -> u64 {
        match infinity {
            Some(l) => l,
            None => INFINITE,
        }
    }

    /// Whether reaching a target lowers the cutoff of a search.
    pub open spec fn lowers(dynamic_infinity: Option<bool>) -> bool {
        match dynamic_infinity {
            Some(b) => b,
            None => false,
        }
    }

    /// Whether `r` is what a search by cost from `start` owes: an error where
    /// the graph lacks `start`, where no target is given, or where the one
    /// target asked for cannot be reached within the cutoff; an answer
    /// otherwise.
    pub open spec fn astar_ok(
        &self,
        r: Result<AStarResult<T>, GraphError>,
        start: T,
        end: Option<&T>,
        end_list: Option<&Vec<T>>,
        infinity: Option<u64>,
        dynamic_infinity: Option<bool>,
        hour: Option<usize>,
        flat: bool,
    ) -> bool {
        if !self.contains(start) {
            r matches Err(e) && e == GraphError::InputNotFound
        } else if Self::targets(end, end_list).len() == 0 {
            r matches Err(e) && e == GraphError::NoTarget
        } else {
            match r {
                Ok(res) => {
                    &&& self.answers(
                        res,
                        start,
                        Self::targets(end, end_list),
                        end is Some,
                        Self::cutoff(infinity),
                        Self::lowers(dynamic_infinity),
                        hour,
                        flat,
                    )
                    &&& end is Some && end_list is None ==> res.path is Some
                },
                Err(e) => {
                    &&& e == GraphError::NoPath
                    &&& end is Some
                    &&& end_list is None
                    &&& self.contains(*end->0) ==> self.out_of_reach(
                        hour,
                        self.position(start),
                        self.position(*end->0),
                        Self::cutoff(infinity) as int,
                    )
                },
            }
        }
    }

    /// Follows the predecessors in `parents` from `target` back to `start`
    /// and returns the nodes on the way, `start` first.
    ///
    /// The way ends early at a node without a predecessor or at an empty
    /// slot, and after as many steps as `parents` has entries; what was
    /// gathered until then is returned.
    pub fn backtrace(&self, parents: &[Option<usize>], target: usize, start: usize) -> (path: Vec<T>)
        ensures
            path@ == self.ids(
                self.trace(parents@, target as int, start as int, parents@.len()),
            ),
    {
        let mut back: Vec<T> = Vec::new();
        let ghost mut visited: Seq<int> = Seq::empty();
        let mut cur = target;
        let mut fuel = parents.len();
        let mut finished = false;
        let ghost whole = self.trace(parents@, target as int, start as int, parents@.len());
        while !finished
            invariant
                fuel <= parents@.len(),
                back@.len() == visited.len(),
                forall|i: int| 0 <= i < visited.len() ==> self.occupied(#[trigger] visited[i]),
                back@ == self.ids(visited),
                finished ==> whole == visited.reverse(),
                !finished ==> whole == self.trace(parents@, cur as int, start as int, fuel as nat)
                    + visited.reverse(),
            decreases
                    (if finished {
                        0
                    } else {
                        fuel as int + 1
                    }),
        {
            let ghost before = visited;
            if cur >= self.nodes.len() {
                finished = true;
                assert(whole =~= visited.reverse());
            } else {
                match &self.nodes[cur] {
                    None => {
                        finished = true;
                        assert(whole =~= visited.reverse());
                    },
                    Some(node) => {
                        back.push(node.id);
                        proof {
                            visited = visited.push(cur as int);
                            assert(back@ =~= self.ids(visited));
                            assert(visited.reverse() =~= seq![cur as int] + before.reverse());
                        }
                        if cur == start || fuel == 0 || cur >= parents.len() {
                            finished = true;
                            assert(whole =~= visited.reverse());
                        } else {
                            match parents[cur] {
                                Some(p) => {
                                    proof {
                                        let rest = self.trace(
                                            parents@,
                                            p as int,
                                            start as int,
                                            (fuel - 1) as nat,
                                        );
                                        assert(rest.push(cur as int) + before.reverse() =~= rest
                                            + visited.reverse());
                                    }
                                    cur = p;
                                    fuel = fuel - 1;
                                },
                                None => {
                                    finished = true;
                                    assert(whole =~= visited.reverse());
                                },
                            }
                        }
                    },
                }
            }
        }
        let mut path: Vec<T> = Vec::new();
        let mut i = back.len();
        while i > 0
            invariant
                i <= back@.len(),
                path@.len() == back@.len() - i,
                forall|k: int| 0 <= k < path@.len() ==> path@[k] == back@[back@.len() - 1 - k],
            decreases i,
        {
            i = i - 1;
            path.push(back[i]);
        }
        assert(path@ =~= self.ids(whole));
        path
    }
}

/// What a search by cost has gathered so far.
struct Search {
    /// The lowest cost known of a walk to each node.
    dist: Vec<Option<u64>>,
    /// The node before each node on such a walk.
    parents: Vec<Option<usize>>,
    /// The distance recorded for each target that has been reached.
    found: Vec<Option<u64>>,
    /// The nodes that wait to be expanded.
    frontier: Frontier,
    /// The cost beyond which no node is expanded.
    limit: u64,
    /// When each node last got a new distance.
    stamp: Ghost<Seq<nat>>,
    /// The latest stamp given out.
    clock: Ghost<nat>,
    /// For each node with a distance, a walk of that cost.
    witness: Ghost<Seq<Seq<int>>>,
}

/// What stays fixed during one search.
struct Terms {
    /// Where the search starts.
    start: int,
    /// The hour of the week by which weight lists are read.
    hour: Option<usize>,
    /// The cutoff the search was started with.
    limit0: u64,
    /// Whether reaching a target lowers the cutoff to its distance.
    dynamic: bool,
    /// Whether the search ends at the first target it reaches.
    single: bool,
    /// Whether the heuristic always gives `c`.
    flat: bool,
    c: u64,
    /// Which nodes are targets.
    marks: Seq<bool>,
}

/// The sum of all distances, a node without one counting as out of reach.
/// It falls whenever a node gets a better distance.
spec fn slack(dist: Seq<Option<u64>>) -> int
    decreases dist.len(),
{
    if dist.len() == 0 {
        0
    } else {
        slack(dist.drop_last()) + match dist.last() {
            Some(d) => d as int,
            None => INFINITE as int,
        }
    }
}

proof fn lemma_slack_bounds(dist: Seq<Option<u64>>)
    ensures
        0 <= slack(dist),
    decreases dist.len(),
{
    if dist.len() > 0 {
        lemma_slack_bounds(dist.drop_last());
    }
}

proof fn lemma_slack_falls(dist: Seq<Option<u64>>, v: int, d: u64)
    requires
        0 <= v < dist.len(),
    ensures
        slack(dist.update(v, Some(d))) == slack(dist) - (match dist[v] {
            Some(x) => x as int,
            None => INFINITE as int,
        }) + d,
    decreases dist.len(),
{
    let after = dist.update(v, Some(d));
    if v == dist.len() - 1 {
        assert(after.drop_last() =~= dist.drop_last());
    } else {
        assert(after.drop_last() =~= dist.drop_last().update(v, Some(d)));
        lemma_slack_falls(dist.drop_last(), v, d);
    }
}

impl<T: NodeKey> Graph<T> {
    /// Whether the first `upto` edges that leave `u` have been tried: the
    /// target of each has a distance no higher than that of `u` and the
    /// edge, as far as that sum counts as a passage.
    spec fn relaxed(&self, hour: Option<usize>, dist: Seq<Option<u64>>, u: int, upto: int) -> bool {
        forall|j: int|
            0 <= j < upto ==> {
                let e = #[trigger] self.edges[u][j];
                dist[u]->0 + edge_cost(e.data(), hour) < INFINITE ==> dist[e.to as int] is Some
                    && dist[e.to as int]->0 <= dist[u]->0 + edge_cost(e.data(), hour)
            }
    }

    /// Whether node `v` needs no further visit: it lies beyond the cutoff,
    /// or all its edges have been tried and, if it is a target, its distance
    /// has been recorded.
    spec fn settled(&self, st: &Search, t: Terms, v: int) -> bool {
        st.dist[v]->0 > st.limit || (self.relaxed(t.hour, st.dist@, v, self.edges[v].len() as int) && (
        t.marks[v] ==> st.found[v] is Some))
    }

    /// Whether node `v` waits in the frontier with its present distance.
    spec fn fresh(&self, st: &Search, t: Terms, v: int) -> bool {
        exists|e: Scored| #[trigger]
            st.frontier@.contains(e) && e.id == v && (t.flat ==> e.score == st.dist[v]->0 + t.c)
    }

    /// What holds of a recorded distance.
    spec fn found_ok(&self, st: &Search, t: Terms, v: int) -> bool {
        let d = st.found[v]->0;
        &&& t.marks[v]
        &&& d <= t.limit0
        &&& d < INFINITE
        &&& self.reaches(t.hour, t.start, v, d as int)
        &&& (t.dynamic ==> st.limit <= d)
        &&& (t.flat ==> self.none_below(t.hour, t.start, v, d as int))
        &&& (t.flat && (t.dynamic || t.single) ==> forall|x: int|
            0 <= x < t.marks.len() && #[trigger] t.marks[x] ==> self.none_below(
                t.hour,
                t.start,
                x,
                d as int,
            ))
    }

    /// What holds throughout a search, but for node `open`, whose edges
    /// have only been tried up to place `upto`.
    #[verifier::opaque]
    spec fn inv(&self, st: &Search, t: Terms, open: int, upto: int) -> bool {
        let n = self.nodes.len();
        &&& self.wf()
        &&& hour_valid(t.hour)
        &&& st.dist.len() == n
        &&& st.parents.len() == n
        &&& st.found.len() == n
        &&& t.marks.len() == n
        &&& st.witness@.len() == n
        &&& self.is_tree(t.hour, t.start, st.dist@, st.parents@, st.stamp@)
        &&& st.dist[t.start] == Some(0u64)
        &&& forall|v: int| 0 <= v < n ==> #[trigger] st.stamp@[v] <= st.clock@
        &&& forall|v: int|
            0 <= v < n && (#[trigger] st.dist[v]) is Some ==> st.dist[v]->0 < INFINITE && self.joins(
                st.witness@[v],
                t.start,
                v,
            ) && self.walk_cost(t.hour, st.witness@[v]) == st.dist[v]->0
        &&& forall|e: Scored| #[trigger]
            st.frontier@.contains(e) ==> e.id < n && st.dist[e.id as int] is Some && (t.flat
                ==> st.dist[e.id as int]->0 + t.c <= e.score)
        &&& forall|v: int|
            0 <= v < n && v != open && (#[trigger] st.dist[v]) is Some ==> self.settled(st, t, v)
                || self.fresh(st, t, v)
        &&& 0 <= open < n ==> {
            &&& st.dist[open] is Some
            &&& 0 <= upto <= self.edges[open].len()
            &&& self.relaxed(t.hour, st.dist@, open, upto)
        }
        &&& forall|v: int| 0 <= v < n && (#[trigger] st.found[v]) is Some ==> self.found_ok(st, t, v)
        &&& st.limit <= t.limit0
        &&& (!t.dynamic ==> st.limit == t.limit0)
        &&& (st.limit < t.limit0 ==> exists|v: int| 0 <= v < n && #[trigger] st.found[v] == Some(st.limit))
    }

    /// Along a walk from the start that stays within the cutoff, either the
    /// last node has a distance no higher than the cost of the walk, or some
    /// entry waits in the frontier, and with a constant heuristic one whose
    /// score is no higher than that cost and the constant.
    proof fn lemma_front(&self, st: &Search, t: Terms, q: Seq<int>)
        requires
            self.inv(st, t, -1, 0),
            self.is_walk(q),
            q[0] == t.start,
            self.walk_cost(t.hour, q) <= st.limit,
            self.walk_cost(t.hour, q) < INFINITE,
        ensures
            (0 <= q.last() < st.dist.len() && st.dist[q.last()] is Some && st.dist[q.last()]->0
                <= self.walk_cost(t.hour, q)) || (exists|e: Scored| #[trigger]
                st.frontier@.contains(e) && (t.flat ==> e.score <= self.walk_cost(t.hour, q) + t.c)),
        decreases q.len(),
    {
        reveal(Graph::inv);
        assert(self.occupied(q.last()));
        if q.len() > 1 {
            let r = q.drop_last();
            let u = r.last();
            let x = q.last();
            self.lemma_walk_shorten(t.hour, q);
            self.lemma_walk_cost_bounds(t.hour, r);
            self.lemma_front(st, t, r);
            if st.dist[u] is Some && st.dist[u]->0 <= self.walk_cost(t.hour, r) {
                if self.settled(st, t, u) {
                    let j = self.slot(u, x);
                    assert(0 <= j < self.edges[u].len() && self.edges[u][j].to == x);
                    self.lemma_slot(u, j);
                    assert(self.step_cost(t.hour, u, x) == edge_cost(self.edges[u][j].data(), t.hour));
                } else {
                    assert(self.fresh(st, t, u));
                    let e = choose|e: Scored| #[trigger]
                        st.frontier@.contains(e) && e.id == u && (t.flat ==> e.score
                            == st.dist[u]->0 + t.c);
                    assert(st.frontier@.contains(e) && (t.flat ==> e.score <= self.walk_cost(
                        t.hour,
                        q,
                    ) + t.c));
                }
            } else {
                let e = choose|e: Scored| #[trigger]
                    st.frontier@.contains(e) && (t.flat ==> e.score <= self.walk_cost(t.hour, r)
                        + t.c);
                assert(st.frontier@.contains(e) && (t.flat ==> e.score <= self.walk_cost(t.hour, q)
                    + t.c));
            }
        }
    }
}

/// What it costs to take `edge` at the given hour.
fn cost_at(edge: &Edge, hour: Option<usize>) -> (c: u64)
    requires
        hour_valid(hour),
        list_well_formed(edge.data().weight_list),
    ensures
        c == edge_cost(edge.data(), hour),
{
    match (&edge.weight_list, hour) {
        (Some(l), Some(h)) => l[h],
        _ => match edge.weight {
            Some(w) => w,
            None => MINUTE,
        },
    }
}

impl<T: NodeKey> Graph<T> {
    /// Tries the edge at place `j` of node `u`: where it gives its target a
    /// better distance, the target gets that distance, `u` as predecessor,
    /// and a place in the frontier.
    fn relax_one<F: Fn(&T, &T) -> u64>(
        &self,
        st: &mut Search,
        Ghost(t): Ghost<Terms>,
        u: usize,
        j: usize,
        hour: Option<usize>,
        heuristic: &F,
    )
        requires
            self.inv(old(st), t, u as int, j as int),
            u < self.nodes.len(),
            j < self.edges[u as int].len(),
            hour == t.hour,
            is_total(*heuristic),
            t.flat ==> gives_only(*heuristic, t.c),
        ensures
            self.inv(final(st), t, u as int, j + 1),
            final(st).limit == old(st).limit,
            final(st).found == old(st).found,
            slack(final(st).dist@) <= slack(old(st).dist@),
            slack(final(st).dist@) == slack(old(st).dist@) ==> final(st).frontier@.len() == old(
                st,
            ).frontier@.len(),
    {
        proof {
            reveal(Graph::inv);
        }
        let edge = &self.edges[u][j];
        let w = edge.to;
        assert(self.occupied(u as int) && self.occupied(w as int) && w != u);
        let cost = cost_at(edge, hour);
        let du = match st.dist[u] {
            Some(d) => d,
            None => {
                return ;
            },
        };
        if cost >= INFINITE - du {
            return ;
        }
        let tentative = du + cost;
        let better = match st.dist[w] {
            None => true,
            Some(held) => tentative < held,
        };
        if !better {
            return ;
        }
        let hv = match (&self.nodes[w], &self.nodes[u]) {
            (Some(a), Some(b)) => heuristic(&a.id, &b.id),
            _ => 0,
        };
        let entry = Scored { score: tentative as u128 + hv as u128, id: w };
        let ghost before = *st;
        st.parents[w] = Some(u);
        st.dist[w] = Some(tentative);
        st.frontier.push(entry);
        proof {
            let walk = before.witness@[u as int].push(w as int);
            st.stamp = Ghost(before.stamp@.update(w as int, before.clock@ + 1));
            st.clock = Ghost(before.clock@ + 1);
            st.witness = Ghost(before.witness@.update(w as int, walk));
            self.lemma_slot(u as int, j as int);
            assert(self.step_cost(hour, u as int, w as int) == cost);
            self.lemma_walk_extend(hour, before.witness@[u as int], w as int);
            lemma_slack_falls(before.dist@, w as int, tentative);
            assert(w != t.start);
            self.lemma_relaxed_tree(&before, st, t, u as int, w as int);
            self.lemma_relaxed_open(&before, st, t, u as int, j as int, w as int, entry);
        }
    }

    /// The tree of walks stays one when node `w` gets a better distance by
    /// way of `u`.
    proof fn lemma_relaxed_tree(&self, before: &Search, after: &Search, t: Terms, u: int, w: int)
        requires
            self.wf(),
            hour_valid(t.hour),
            self.is_tree(t.hour, t.start, before.dist@, before.parents@, before.stamp@),
            forall|v: int| 0 <= v < before.stamp@.len() ==> #[trigger] before.stamp@[v] <= before.clock@,
            0 <= u < before.dist.len(),
            0 <= w < before.dist.len(),
            u != w,
            w != t.start,
            before.dist[u] is Some,
            self.occupied(w),
            self.has_edge(u, w),
            after.dist[w] is Some,
            after.dist[w]->0 == before.dist[u]->0 + self.step_cost(t.hour, u, w),
            before.dist[w] is Some ==> after.dist[w]->0 < before.dist[w]->0,
            after.dist@ == before.dist@.update(w, after.dist[w]),
            after.parents@ == before.parents@.update(w, Some(u as usize)),
            after.stamp@ == before.stamp@.update(w, before.clock@ + 1),
            after.clock@ == before.clock@ + 1,
        ensures
            self.is_tree(t.hour, t.start, after.dist@, after.parents@, after.stamp@),
            forall|v: int| 0 <= v < after.stamp@.len() ==> #[trigger] after.stamp@[v] <= after.clock@,
    {
        assert forall|v: int|
            0 <= v < after.parents.len() && (#[trigger] after.parents[v]) is Some implies {
            let p = after.parents[v]->0 as int;
            &&& 0 <= p < after.dist.len()
            &&& after.dist[p] is Some
            &&& after.dist[v] is Some
            &&& self.has_edge(p, v)
            &&& crate::paths::lower_rank(after.dist@, after.stamp@, p, v)
            &&& after.dist[p]->0 + self.step_cost(t.hour, p, v) <= after.dist[v]->0
        } by {
            if v == w {
                assert(before.stamp@[u] <= before.clock@);
                self.lemma_step_cost_bounds(t.hour, u, w);
            } else {
                assert(before.parents[v] is Some);
                let p = before.parents[v]->0 as int;
                assert(crate::paths::lower_rank(before.dist@, before.stamp@, p, v));
                self.lemma_step_cost_bounds(t.hour, p, v);
            }
        }
        assert forall|v: int|
            0 <= v < after.dist.len() && (#[trigger] after.dist[v]) is Some implies self.occupied(v)
            && (v != t.start ==> after.parents[v] is Some) by {
            if v != w {
                assert(before.dist[v] is Some);
            }
        }
        assert forall|v: int| 0 <= v < after.stamp@.len() implies #[trigger] after.stamp@[v]
            <= after.clock@ by {
            if v != w {
                assert(before.stamp@[v] <= before.clock@);
            }
        }
    }

    /// The search stays in order when the edge at place `j` of the open node
    /// `u` gives its target `w` a better distance and a place in the
    /// frontier.
    #[verifier::spinoff_prover]
    #[verifier::rlimit(50)]
    proof fn lemma_relaxed_open(
        &self,
        before: &Search,
        after: &Search,
        t: Terms,
        u: int,
        j: int,
        w: int,
        entry: Scored,
    )
        requires
            self.inv(before, t, u, j),
            0 <= u < self.nodes.len(),
            0 <= j < self.edges[u].len(),
            w == self.edges[u][j].to,
            before.dist[u]->0 + edge_cost(self.edges[u][j].data(), t.hour) < INFINITE,
            after.dist[w] == Some((before.dist[u]->0 + edge_cost(self.edges[u][j].data(), t.hour)) as u64),
            before.dist[w] is Some ==> after.dist[w]->0 < before.dist[w]->0,
            after.dist@ == before.dist@.update(w, after.dist[w]),
            after.parents@ == before.parents@.update(w, Some(u as usize)),
            after.found == before.found,
            after.limit == before.limit,
            after.frontier@ == before.frontier@.insert(entry),
            entry.id == w,
            t.flat ==> entry.score == after.dist[w]->0 + t.c,
            after.witness@ == before.witness@.update(w, before.witness@[u].push(w)),
            self.joins(before.witness@[u].push(w), t.start, w),
            self.walk_cost(t.hour, before.witness@[u].push(w)) == after.dist[w]->0,
            self.is_tree(t.hour, t.start, after.dist@, after.parents@, after.stamp@),
            forall|v: int| 0 <= v < after.stamp@.len() ==> #[trigger] after.stamp@[v] <= after.clock@,
        ensures
            self.inv(after, t, u, j + 1),
    {
        reveal(Graph::inv);
        let n = self.nodes.len() as int;
        assert(self.occupied(u) && self.occupied(w) && w != u);
        assert forall|v: int| 0 <= v < n && (#[trigger] after.dist[v]) is Some implies after.dist[v]->0
            < INFINITE && self.joins(after.witness@[v], t.start, v) && self.walk_cost(
            t.hour,
            after.witness@[v],
        ) == after.dist[v]->0 by {
            if v != w {
                assert(before.dist[v] is Some);
            }
        }
        assert forall|e: Scored| #[trigger] after.frontier@.contains(e) implies e.id < n
            && after.dist[e.id as int] is Some && (t.flat ==> after.dist[e.id as int]->0 + t.c
            <= e.score) by {
            if e != entry {
                assert(before.frontier@.contains(e));
            }
        }
        assert forall|v: int|
            0 <= v < n && v != u && (#[trigger] after.dist[v]) is Some implies self.settled(
            after,
            t,
            v,
        ) || self.fresh(after, t, v) by {
            if v == w {
                assert(after.frontier@.contains(entry));
            } else {
                assert(before.dist[v] is Some);
                if self.settled(before, t, v) {
                    if before.dist[v]->0 <= before.limit {
                        assert forall|k: int| 0 <= k < self.edges[v].len() implies {
                            let e = #[trigger] self.edges[v][k];
                            after.dist[v]->0 + edge_cost(e.data(), t.hour) < INFINITE
                                ==> after.dist[e.to as int] is Some && after.dist[e.to as int]->0
                                <= after.dist[v]->0 + edge_cost(e.data(), t.hour)
                        } by {
                            let e = self.edges[v][k];
                            if before.dist[v]->0 + edge_cost(e.data(), t.hour) < INFINITE {
                                assert(before.dist[e.to as int] is Some);
                            }
                        }
                    }
                } else {
                    let e = choose|e: Scored| #[trigger]
                        before.frontier@.contains(e) && e.id == v && (t.flat ==> e.score
                            == before.dist[v]->0 + t.c);
                    assert(after.frontier@.contains(e));
                }
            }
        }
        assert forall|k: int| 0 <= k < j + 1 implies {
            let e = #[trigger] self.edges[u][k];
            after.dist[u]->0 + edge_cost(e.data(), t.hour) < INFINITE ==> after.dist[e.to as int] is Some
                && after.dist[e.to as int]->0 <= after.dist[u]->0 + edge_cost(e.data(), t.hour)
        } by {
            let e = self.edges[u][k];
            if k < j {
                if before.dist[u]->0 + edge_cost(e.data(), t.hour) < INFINITE {
                    assert(before.dist[e.to as int] is Some);
                }
            }
        }
        assert forall|v: int| 0 <= v < n && (#[trigger] after.found[v]) is Some implies self.found_ok(
            after,
            t,
            v,
        ) by {
            assert(self.found_ok(before, t, v));
        }
        if after.limit < t.limit0 {
            let v = choose|v: int| 0 <= v < n && #[trigger] before.found[v] == Some(before.limit);
            assert(after.found[v] == Some(after.limit));
        }
    }
}

/// How the main loop of a search by cost ended.
enum Outcome {
    /// The search was for one target, and this target was reached.
    Hit(usize),
    /// Every target of the graph has been reached, this one last.
    AllFound(usize),
    /// No node waits any more.
    Drained,
}

impl<T: NodeKey> Graph<T> {
    /// Whether nothing has been recorded yet.
    spec fn nothing_found(st: &Search) -> bool {
        forall|v: int| 0 <= v < st.found.len() ==> (#[trigger] st.found[v]) is None
    }

    /// Tries every edge that leaves node `u`.
    fn expand<F: Fn(&T, &T) -> u64>(
        &self,
        st: &mut Search,
        Ghost(t): Ghost<Terms>,
        u: usize,
        hour: Option<usize>,
        heuristic: &F,
    )
        requires
            self.inv(old(st), t, u as int, 0),
            u < self.nodes.len(),
            t.marks[u as int] ==> old(st).found[u as int] is Some,
            hour == t.hour,
            is_total(*heuristic),
            t.flat ==> gives_only(*heuristic, t.c),
        ensures
            self.inv(final(st), t, -1, 0),
            final(st).limit == old(st).limit,
            final(st).found == old(st).found,
            slack(final(st).dist@) <= slack(old(st).dist@),
            slack(final(st).dist@) == slack(old(st).dist@) ==> final(st).frontier@.len() == old(
                st,
            ).frontier@.len(),
    {
        proof {
            reveal(Graph::inv);
        }
        let mut j: usize = 0;
        let count = self.edges[u].len();
        while j < count
            invariant
                count == self.edges[u as int].len(),
                j <= count,
                u < self.nodes.len(),
                self.inv(st, t, u as int, j as int),
                hour == t.hour,
                is_total(*heuristic),
                t.flat ==> gives_only(*heuristic, t.c),
                st.limit == old(st).limit,
                st.found == old(st).found,
                slack(st.dist@) <= slack(old(st).dist@),
                slack(st.dist@) == slack(old(st).dist@) ==> st.frontier@.len() == old(
                    st,
                ).frontier@.len(),
            decreases count - j,
        {
            self.relax_one(st, Ghost(t), u, j, hour, heuristic);
            j += 1;
        }
        proof {
            reveal(Graph::inv);
            assert(self.settled(st, t, u as int));
        }
    }

    /// What is known of the node that leaves the frontier first, where the
    /// heuristic is constant and the node lies within the cutoff: no walk to
    /// it costs less than its distance, and, where a target once reached
    /// lowers the cutoff or ends the search, none to any target does.
    proof fn lemma_first_out(&self, st: &Search, t: Terms, e: Scored)
        requires
            self.inv(st, t, -1, 0),
            st.frontier@.contains(e),
            forall|x: Scored| st.frontier@.contains(x) ==> e.score <= x.score,
            t.flat,
            st.dist[e.id as int]->0 <= st.limit,
            t.single ==> Self::nothing_found(st),
        ensures
            self.none_below(t.hour, t.start, e.id as int, st.dist[e.id as int]->0 as int),
            t.dynamic || t.single ==> forall|x: int|
                0 <= x < t.marks.len() && #[trigger] t.marks[x] && st.found[x] is None
                    ==> self.none_below(t.hour, t.start, x, st.dist[e.id as int]->0 as int),
    {
        reveal(Graph::inv);
        let u = e.id as int;
        let d = st.dist[u]->0 as int;
        assert forall|p: Seq<int>| self.joins(p, t.start, u) implies self.walk_cost(t.hour, p)
            >= d by {
            if self.walk_cost(t.hour, p) < d {
                self.lemma_front(st, t, p);
                if !(st.dist[u] is Some && st.dist[u]->0 <= self.walk_cost(t.hour, p)) {
                    let x = choose|x: Scored| #[trigger]
                        st.frontier@.contains(x) && (t.flat ==> x.score <= self.walk_cost(t.hour, p)
                            + t.c);
                    assert(e.score <= x.score);
                }
            }
        }
        if t.dynamic || t.single {
            assert forall|x: int|
                0 <= x < t.marks.len() && #[trigger] t.marks[x] && st.found[x] is None implies self.none_below(
                t.hour,
                t.start,
                x,
                d,
            ) by {
                assert forall|p: Seq<int>| self.joins(p, t.start, x) implies self.walk_cost(
                    t.hour,
                    p,
                ) >= d by {
                    if self.walk_cost(t.hour, p) < d {
                        self.lemma_front(st, t, p);
                        if st.dist[x] is Some && st.dist[x]->0 <= self.walk_cost(t.hour, p) {
                            if self.settled(st, t, x) {
                                assert(false);
                            } else {
                                assert(self.fresh(st, t, x));
                                let y = choose|y: Scored| #[trigger]
                                    st.frontier@.contains(y) && y.id == x && (t.flat ==> y.score
                                        == st.dist[x]->0 + t.c);
                                assert(e.score <= y.score);
                            }
                        } else {
                            let y = choose|y: Scored| #[trigger]
                                st.frontier@.contains(y) && (t.flat ==> y.score <= self.walk_cost(
                                    t.hour,
                                    p,
                                ) + t.c);
                            assert(e.score <= y.score);
                        }
                    }
                }
            }
        }
    }

    /// The search stays in order when an entry leaves the frontier, its node
    /// being the one whose edges are tried next.
    proof fn lemma_popped(&self, before: &Search, after: &Search, t: Terms, e: Scored)
        requires
            self.inv(before, t, -1, 0),
            before.frontier@.contains(e),
            after.frontier@ == before.frontier@.remove(e),
            after.dist == before.dist,
            after.parents == before.parents,
            after.found == before.found,
            after.limit == before.limit,
            after.stamp == before.stamp,
            after.clock == before.clock,
            after.witness == before.witness,
        ensures
            self.inv(after, t, e.id as int, 0),
            e.id < self.nodes.len(),
            after.dist[e.id as int] is Some,
            after.dist.len() == self.nodes.len(),
            after.found.len() == self.nodes.len(),
            t.marks.len() == self.nodes.len(),
    {
        reveal(Graph::inv);
        let n = self.nodes.len() as int;
        let u = e.id as int;
        assert forall|x: Scored| #[trigger] after.frontier@.contains(x) implies before.frontier@.contains(
            x,
        ) by {}
        assert forall|v: int|
            0 <= v < n && v != u && (#[trigger] after.dist[v]) is Some implies self.settled(
            after,
            t,
            v,
        ) || self.fresh(after, t, v) by {
            if !self.settled(before, t, v) {
                let x = choose|x: Scored| #[trigger]
                    before.frontier@.contains(x) && x.id == v && (t.flat ==> x.score
                        == before.dist[v]->0 + t.c);
                assert(x != e);
                assert(after.frontier@.contains(x));
            }
        }
        assert forall|v: int| 0 <= v < n && (#[trigger] after.found[v]) is Some implies self.found_ok(
            after,
            t,
            v,
        ) by {
            assert(self.found_ok(before, t, v));
        }
        if after.limit < t.limit0 {
            let v = choose|v: int| 0 <= v < n && #[trigger] before.found[v] == Some(before.limit);
            assert(after.found[v] == Some(after.limit));
        }
    }

    /// The search stays in order when the node whose edges are tried next
    /// turns out to lie beyond the cutoff and is left alone.
    proof fn lemma_skipped(&self, st: &Search, t: Terms, u: int)
        requires
            self.inv(st, t, u, 0),
            0 <= u < self.nodes.len(),
            st.dist[u]->0 > st.limit,
        ensures
            self.inv(st, t, -1, 0),
    {
        reveal(Graph::inv);
        assert(self.settled(st, t, u));
    }

    /// The search stays in order when the distance of the target `u` is
    /// recorded, and the cutoff lowered to it where that is asked for.
    proof fn lemma_recorded(&self, before: &Search, after: &Search, t: Terms, u: int)
        requires
            self.inv(before, t, u, 0),
            0 <= u < self.nodes.len(),
            t.marks[u],
            before.found[u] is None,
            before.dist[u]->0 <= before.limit,
            t.single ==> Self::nothing_found(before),
            t.flat ==> self.none_below(t.hour, t.start, u, before.dist[u]->0 as int),
            t.flat && (t.dynamic || t.single) ==> forall|x: int|
                0 <= x < t.marks.len() && #[trigger] t.marks[x] && before.found[x] is None
                    ==> self.none_below(t.hour, t.start, x, before.dist[u]->0 as int),
            after.dist == before.dist,
            after.parents == before.parents,
            after.frontier == before.frontier,
            after.stamp == before.stamp,
            after.clock == before.clock,
            after.witness == before.witness,
            after.found@ == before.found@.update(u, before.dist[u]),
            after.limit == if t.dynamic {
                before.dist[u]->0
            } else {
                before.limit
            },
        ensures
            self.inv(after, t, u, 0),
    {
        reveal(Graph::inv);
        let n = self.nodes.len() as int;
        let d = before.dist[u]->0;
        assert(self.joins(before.witness@[u], t.start, u));
        assert(self.reaches(t.hour, t.start, u, d as int));
        assert forall|v: int|
            0 <= v < n && v != u && (#[trigger] after.dist[v]) is Some implies self.settled(
            after,
            t,
            v,
        ) || self.fresh(after, t, v) by {
            if !self.settled(before, t, v) {
                let x = choose|x: Scored| #[trigger]
                    before.frontier@.contains(x) && x.id == v && (t.flat ==> x.score
                        == before.dist[v]->0 + t.c);
                assert(after.frontier@.contains(x));
            }
        }
        assert forall|v: int| 0 <= v < n && (#[trigger] after.found[v]) is Some implies self.found_ok(
            after,
            t,
            v,
        ) by {
            if v != u {
                assert(self.found_ok(before, t, v));
            } else {
                if t.flat && (t.dynamic || t.single) {
                    assert forall|x: int| 0 <= x < t.marks.len() && #[trigger] t.marks[x] implies self.none_below(
                        t.hour,
                        t.start,
                        x,
                        d as int,
                    ) by {
                        if before.found[x] is Some {
                            assert(self.found_ok(before, t, x));
                            assert(t.dynamic);
                            assert(before.limit <= before.found[x]->0);
                            assert(self.none_below(
                                t.hour,
                                t.start,
                                x,
                                before.found[x]->0 as int,
                            ));
                        }
                    }
                }
            }
        }
        if after.limit < t.limit0 {
            if t.dynamic {
                assert(after.found[u] == Some(after.limit));
            } else {
                let v = choose|v: int| 0 <= v < n && #[trigger] before.found[v] == Some(before.limit);
                assert(after.found[v] == Some(after.limit));
            }
        }
    }
}

/// A vector of `n` entries, each of them `value`.
pub(crate) fn filled<V: Copy>(n: usize, value: V) -> (v: Vec<V>)
    ensures
        v@.len() == n,
        forall|i: int| 0 <= i < n ==> v@[i] == value,
{
    let mut v: Vec<V> = Vec::new();
    let mut i: usize = 0;
    while i < n
        invariant
            i <= n,
            v@.len() == i,
            forall|k: int| 0 <= k < i ==> v@[k] == value,
        decreases n - i,
    {
        v.push(value);
        i += 1;
    }
    v
}

impl<T: NodeKey> Graph<T> {
    /// Whether every target of the graph has a recorded distance.
    fn all_found(found: &Vec<Option<u64>>, target_ids: &Vec<Option<usize>>) -> (b: bool)
        requires
            forall|i: int|
                0 <= i < target_ids@.len() && (#[trigger] target_ids@[i]) is Some ==> target_ids@[i]->0
                    < found@.len(),
        ensures
            b == forall|i: int|
                0 <= i < target_ids@.len() && (#[trigger] target_ids@[i]) is Some
                    ==> found@[target_ids@[i]->0 as int] is Some,
    {
        let mut i: usize = 0;
        while i < target_ids.len()
            invariant
                i <= target_ids@.len(),
                forall|k: int|
                    0 <= k < target_ids@.len() && (#[trigger] target_ids@[k]) is Some
                        ==> target_ids@[k]->0 < found@.len(),
                forall|k: int|
                    0 <= k < i && (#[trigger] target_ids@[k]) is Some
                        ==> found@[target_ids@[k]->0 as int] is Some,
            decreases target_ids@.len() - i,
        {
            match target_ids[i] {
                Some(v) => {
                    if found[v].is_none() {
                        return false;
                    }
                },
                None => {},
            }
            i += 1;
        }
        true
    }

    /// The main loop of the search by cost: takes the node of lowest score
    /// out of the frontier, records it if it is a target, and tries its
    /// edges, until the frontier is empty or the targets have been reached.
    fn run<F: Fn(&T, &T) -> u64>(
        &self,
        st: &mut Search,
        Ghost(t): Ghost<Terms>,
        marks: &Vec<bool>,
        target_ids: &Vec<Option<usize>>,
        single: bool,
        dynamic: bool,
        hour: Option<usize>,
        heuristic: &F,
        pending: usize,
    ) -> (out: Outcome)
        requires
            self.inv(old(st), t, -1, 0),
            Self::nothing_found(old(st)),
            marks@ == t.marks,
            single == t.single,
            dynamic == t.dynamic,
            hour == t.hour,
            is_total(*heuristic),
            t.flat ==> gives_only(*heuristic, t.c),
            forall|i: int|
                0 <= i < target_ids@.len() && (#[trigger] target_ids@[i]) is Some ==> target_ids@[i]->0
                    < self.nodes.len(),
        ensures
            match out {
                Outcome::Hit(u) => {
                    &&& t.single
                    &&& u < self.nodes.len()
                    &&& self.inv(final(st), t, u as int, 0)
                    &&& t.marks[u as int]
                    &&& final(st).found[u as int] is Some
                    &&& final(st).found[u as int] == final(st).dist[u as int]
                },
                Outcome::AllFound(u) => {
                    &&& !t.single
                    &&& u < self.nodes.len()
                    &&& self.inv(final(st), t, u as int, 0)
                    &&& forall|i: int|
                        0 <= i < target_ids@.len() && (#[trigger] target_ids@[i]) is Some
                            ==> final(st).found@[target_ids@[i]->0 as int] is Some
                },
                Outcome::Drained => {
                    &&& self.inv(final(st), t, -1, 0)
                    &&& final(st).frontier@.len() == 0
                    &&& t.single ==> Self::nothing_found(final(st))
                },
            },
    {
        let mut pending = pending;
        while !st.frontier.is_empty()
            invariant
                self.inv(st, t, -1, 0),
                t.single ==> Self::nothing_found(st),
                marks@ == t.marks,
                single == t.single,
                dynamic == t.dynamic,
                hour == t.hour,
                is_total(*heuristic),
                t.flat ==> gives_only(*heuristic, t.c),
                forall|i: int|
                    0 <= i < target_ids@.len() && (#[trigger] target_ids@[i]) is Some
                        ==> target_ids@[i]->0 < self.nodes.len(),
            decreases slack(st.dist@), st.frontier@.len(),
        {
            let ghost before = *st;
            proof {
                lemma_slack_bounds(st.dist@);
            }
            let entry = match st.frontier.pop() {
                Some(e) => e,
                None => {
                    return Outcome::Drained;
                },
            };
            let u = entry.id;
            proof {
                self.lemma_popped(&before, st, t, entry);
            }
            let du = match st.dist[u] {
                Some(d) => d,
                None => {
                    return Outcome::Drained;
                },
            };
            if du > st.limit {
                proof {
                    self.lemma_skipped(st, t, u as int);
                }
            } else {
                if marks[u] && st.found[u].is_none() {
                    proof {
                        if t.flat {
                            self.lemma_first_out(&before, t, entry);
                        }
                    }
                    let ghost unrecorded = *st;
                    st.found[u] = Some(du);
                    if dynamic {
                        st.limit = du;
                    }
                    proof {
                        self.lemma_recorded(&unrecorded, st, t, u as int);
                    }
                    if single {
                        return Outcome::Hit(u);
                    }
                    if pending > 0 {
                        pending = pending - 1;
                    }
                    if pending == 0 {
                        if Self::all_found(&st.found, target_ids) {
                            return Outcome::AllFound(u);
                        }
                    }
                }
                self.expand(st, Ghost(t), u, hour, heuristic);
            }
            proof {
                lemma_slack_bounds(st.dist@);
            }
        }
        Outcome::Drained
    }
}

impl<T: NodeKey> Graph<T> {
    /// Whether `marks` tells which nodes are targets.
    spec fn marks_match(marks: Seq<bool>, target_ids: Seq<Option<usize>>, upto: int) -> bool {
        forall|v: int|
            0 <= v < marks.len() ==> (#[trigger] marks[v] <==> exists|k: int|
                0 <= k < upto && #[trigger] target_ids[k] == Some(v as usize))
    }

    /// Whether `target_ids` holds the position of each target that the graph
    /// has.
    spec fn ids_match(&self, targets: Seq<T>, target_ids: Seq<Option<usize>>) -> bool {
        &&& target_ids.len() == targets.len()
        &&& forall|i: int|
            0 <= i < targets.len() ==> #[trigger] target_ids[i] == if self.contains(targets[i]) {
                Some(self.position(targets[i]) as usize)
            } else {
                None::<usize>
            }
    }

    /// Once no node waits any more, a target without a recorded distance is
    /// not to be reached within the cutoff.
    proof fn lemma_drained(&self, st: &Search, t: Terms, v: int)
        requires
            self.inv(st, t, -1, 0),
            st.frontier@.len() == 0,
            0 <= v < self.nodes.len(),
            t.marks[v],
            st.found[v] is None,
        ensures
            self.out_of_reach(t.hour, t.start, v, st.limit as int),
    {
        reveal(Graph::inv);
        assert forall|p: Seq<int>| self.joins(p, t.start, v) implies self.walk_cost(t.hour, p)
            > st.limit || self.walk_cost(t.hour, p) >= INFINITE by {
            if self.walk_cost(t.hour, p) <= st.limit && self.walk_cost(t.hour, p) < INFINITE {
                self.lemma_front(st, t, p);
                if st.dist[v] is Some && st.dist[v]->0 <= self.walk_cost(t.hour, p) {
                    if !self.settled(st, t, v) {
                        let e = choose|e: Scored| #[trigger]
                            st.frontier@.contains(e) && e.id == v && (t.flat ==> e.score
                                == st.dist[v]->0 + t.c);
                        assert(st.frontier@.count(e) > 0);
                    }
                } else {
                    let e = choose|e: Scored| #[trigger]
                        st.frontier@.contains(e) && (t.flat ==> e.score <= self.walk_cost(t.hour, p)
                            + t.c);
                    assert(st.frontier@.count(e) > 0);
                }
            }
        }
    }

    /// What the search knows of a recorded distance, said of the target by
    /// its key.
    proof fn lemma_found(
        &self,
        st: &Search,
        t: Terms,
        open: int,
        start: T,
        targets: Seq<T>,
        target_ids: Seq<Option<usize>>,
        i: int,
    )
        requires
            self.inv(st, t, open, 0),
            self.contains(start),
            self.position(start) == t.start,
            self.ids_match(targets, target_ids),
            Self::marks_match(t.marks, target_ids, target_ids.len() as int),
            0 <= i < targets.len(),
            target_ids[i] is Some,
            st.found[target_ids[i]->0 as int] is Some,
        ensures
            self.distance_ok(
                t.hour,
                start,
                targets,
                targets[i],
                st.found[target_ids[i]->0 as int]->0,
                t.limit0,
                t.dynamic || t.single,
                t.flat,
            ),
    {
        reveal(Graph::inv);
        let v = target_ids[i]->0 as int;
        let d = st.found[v]->0;
        assert(self.found_ok(st, t, v));
        assert(self.occupied(self.position(targets[i])));
        if t.flat && (t.dynamic || t.single) {
            assert forall|j: int|
                0 <= j < targets.len() && self.contains(#[trigger] targets[j]) implies self.none_below(
                t.hour,
                self.position(start),
                self.position(targets[j]),
                d as int,
            ) by {
                let x = self.position(targets[j]);
                assert(target_ids[j] == Some(x as usize));
                assert(self.occupied(x));
                assert(t.marks[x]);
            }
        }
    }
}

impl<T: NodeKey> Graph<T> {
    /// A search is in order when it starts: only the start has a distance,
    /// and it waits in the frontier.
    proof fn lemma_started(&self, st: &Search, t: Terms, entry: Scored)
        requires
            self.wf(),
            hour_valid(t.hour),
            self.occupied(t.start),
            st.dist@ == Seq::new(self.nodes.len() as nat, |i: int| None::<u64>).update(
                t.start,
                Some(0u64),
            ),
            st.parents@ == Seq::new(self.nodes.len() as nat, |i: int| None::<usize>),
            st.found@ == Seq::new(self.nodes.len() as nat, |i: int| None::<u64>),
            st.stamp@ == Seq::new(self.nodes.len() as nat, |i: int| 0nat),
            st.clock@ == 0,
            st.witness@ == Seq::new(self.nodes.len() as nat, |i: int| seq![t.start]),
            st.frontier@ == vstd::multiset::Multiset::<Scored>::empty().insert(entry),
            entry.id == t.start,
            t.flat ==> entry.score == t.c,
            st.limit == t.limit0,
            t.marks.len() == self.nodes.len(),
        ensures
            self.inv(st, t, -1, 0),
            Self::nothing_found(st),
    {
        reveal(Graph::inv);
        let n = self.nodes.len() as int;
        let walk = seq![t.start];
        assert(self.is_walk(walk));
        assert(self.walk_cost(t.hour, walk) == 0);
        assert forall|v: int| 0 <= v < n && v != -1 && (#[trigger] st.dist[v]) is Some implies self.settled(
            st,
            t,
            v,
        ) || self.fresh(st, t, v) by {
            assert(v == t.start);
            assert(st.frontier@.contains(entry));
        }
    }

    /// Where the cutoff of a search stands: where it started, or, lowered,
    /// at the recorded distance of some target.
    proof fn lemma_limit(&self, st: &Search, t: Terms, open: int)
        requires
            self.inv(st, t, open, 0),
        ensures
            st.dist.len() == self.nodes.len(),
            st.found.len() == self.nodes.len(),
            st.parents.len() == self.nodes.len(),
            st.limit == t.limit0 || (t.dynamic && exists|x: int|
                0 <= x < self.nodes.len() && t.marks[x] && #[trigger] st.found[x] == Some(st.limit)),
            self.is_tree(t.hour, t.start, st.dist@, st.parents@, st.stamp@),
    {
        reveal(Graph::inv);
        if st.limit < t.limit0 {
            let x = choose|x: int| 0 <= x < self.nodes.len() && #[trigger] st.found[x] == Some(st.limit);
            assert(self.found_ok(st, t, x));
        }
    }

    /// Calculates shortest distances from `start` by the A* algorithm.
    ///
    /// The targets are those of `end_list` where it is given, else `end`.
    /// With `end` the search ends at the first target it reaches and returns
    /// the path to it and its distance; without, it returns one distance for
    /// each target, in the order of the list, and `None` for a target that it
    /// did not reach. Nodes whose distance exceeds `infinity` are not
    /// expanded, and with `dynamic_infinity` each target reached lowers that
    /// cutoff to its distance. With `weight_list_index` an edge that has a
    /// weight list costs its entry for that hour.
    ///
    /// The frontier is ordered by the distance of a node plus the estimate
    /// that `heuristic` gives for the node and its predecessor. With a
    /// heuristic that always gives the same estimate every distance returned
    /// is the lowest cost of any walk; with any other it is the cost of some
    /// walk.
    #[allow(clippy::too_many_arguments)]
    pub fn astar<F: Fn(&T, &T) -> u64>(
        &self,
        start: &T,
        end: Option<&T>,
        end_list: Option<&Vec<T>>,
        infinity: Option<u64>,
        dynamic_infinity: Option<bool>,
        weight_list_index: Option<usize>,
        heuristic: F,
    ) -> (r: Result<AStarResult<T>, GraphError>)
        requires
            self.wf(),
            hour_valid(weight_list_index),
            is_total(heuristic),
        ensures
            self.astar_ok(
                r,
                *start,
                end,
                end_list,
                infinity,
                dynamic_infinity,
                weight_list_index,
                is_constant(heuristic),
            ),
    {
        self.astar_with(
            start,
            end,
            end_list,
            infinity,
            dynamic_infinity,
            weight_list_index,
            &heuristic,
        )
    }

    /// The search by cost, with the heuristic handed in by reference.
    #[allow(clippy::too_many_arguments)]
    pub fn astar_with<F: Fn(&T, &T) -> u64>(
        &self,
        start: &T,
        end: Option<&T>,
        end_list: Option<&Vec<T>>,
        infinity: Option<u64>,
        dynamic_infinity: Option<bool>,
        weight_list_index: Option<usize>,
        heuristic: &F,
    ) -> (r: Result<AStarResult<T>, GraphError>)
        requires
            self.wf(),
            hour_valid(weight_list_index),
            is_total(*heuristic),
        ensures
            self.astar_ok(
                r,
                *start,
                end,
                end_list,
                infinity,
                dynamic_infinity,
                weight_list_index,
                is_constant(*heuristic),
            ),
    {
        let n = self.nodes.len();
        let hour = weight_list_index;
        let start_idx = match self.find(start) {
            Some(i) => i,
            None => {
                return Err(GraphError::InputNotFound);
            },
        };
        let mut targets: Vec<T> = Vec::new();
        match end_list {
            Some(list) => {
                let mut i: usize = 0;
                while i < list.len()
                    invariant
                        i <= list@.len(),
                        targets@ == list@.subrange(0, i as int),
                    decreases list@.len() - i,
                {
                    targets.push(list[i]);
                    assert(targets@ =~= list@.subrange(0, i + 1));
                    i += 1;
                }
                assert(targets@ =~= list@);
            },
            None => match end {
                Some(e) => {
                    targets.push(*e);
                    assert(targets@ =~= seq![*e]);
                },
                None => {},
            },
        }
        assert(targets@ == Self::targets(end, end_list));
        if targets.len() == 0 {
            return Err(GraphError::NoTarget);
        }
        let single = end.is_some();
        let dynamic = match dynamic_infinity {
            Some(b) => b,
            None => false,
        };
        let limit0 = match infinity {
            Some(l) => l,
            None => INFINITE,
        };
        let mut target_ids: Vec<Option<usize>> = Vec::new();
        let mut i: usize = 0;
        while i < targets.len()
            invariant
                i <= targets@.len(),
                self.wf(),
                target_ids@.len() == i,
                forall|k: int|
                    0 <= k < i ==> #[trigger] target_ids@[k] == if self.contains(targets@[k]) {
                        Some(self.position(targets@[k]) as usize)
                    } else {
                        None::<usize>
                    },
            decreases targets@.len() - i,
        {
            let id = self.find(&targets[i]);
            target_ids.push(id);
            i += 1;
        }
        assert(self.ids_match(targets@, target_ids@));
        let mut marks: Vec<bool> = filled(n, false);
        let mut pending: usize = 0;
        let mut i: usize = 0;
        while i < target_ids.len()
            invariant
                i <= target_ids@.len(),
                pending <= i,
                self.wf(),
                marks@.len() == n,
                n == self.nodes.len(),
                self.ids_match(targets@, target_ids@),
                Self::marks_match(marks@, target_ids@, i as int),
            decreases target_ids@.len() - i,
        {
            let ghost before = marks@;
            match target_ids[i] {
                Some(v) => {
                    assert(self.occupied(self.position(targets@[i as int])));
                    if !marks[v] {
                        marks[v] = true;
                        pending = pending + 1;
                    }
                    assert forall|x: int| 0 <= x < marks@.len() implies (#[trigger] marks@[x]
                        <==> exists|k: int|
                        0 <= k < i + 1 && #[trigger] target_ids@[k] == Some(x as usize)) by {
                        if x == v {
                            assert(target_ids@[i as int] == Some(x as usize));
                        } else {
                            if before[x] {
                                let k = choose|k: int|
                                    0 <= k < i && #[trigger] target_ids@[k] == Some(x as usize);
                                assert(target_ids@[k] == Some(x as usize));
                            }
                        }
                    }
                },
                None => {
                    assert forall|x: int| 0 <= x < marks@.len() implies (#[trigger] marks@[x]
                        <==> exists|k: int|
                        0 <= k < i + 1 && #[trigger] target_ids@[k] == Some(x as usize)) by {
                        if before[x] {
                            let k = choose|k: int|
                                0 <= k < i && #[trigger] target_ids@[k] == Some(x as usize);
                            assert(target_ids@[k] == Some(x as usize));
                        }
                    }
                },
            }
            i += 1;
        }
        let first = heuristic(start, &targets[0]);
        let entry = Scored { score: first as u128, id: start_idx };
        let mut frontier = Frontier::new();
        frontier.push(entry);
        let mut dist: Vec<Option<u64>> = filled(n, None);
        dist[start_idx] = Some(0);
        let mut st = Search {
            dist,
            parents: filled(n, None),
            found: filled(n, None),
            frontier,
            limit: limit0,
            stamp: Ghost(Seq::new(n as nat, |i: int| 0nat)),
            clock: Ghost(0),
            witness: Ghost(Seq::new(n as nat, |i: int| seq![start_idx as int])),
        };
        let ghost t = Terms {
            start: start_idx as int,
            hour,
            limit0,
            dynamic,
            single,
            flat: is_constant(*heuristic),
            c: choose|c: u64| gives_only(*heuristic, c),
            marks: marks@,
        };
        proof {
            assert(self.occupied(start_idx as int));
            assert(st.dist@ =~= Seq::new(n as nat, |i: int| None::<u64>).update(
                t.start,
                Some(0u64),
            ));
            assert(st.parents@ =~= Seq::new(n as nat, |i: int| None::<usize>));
            assert(st.found@ =~= Seq::new(n as nat, |i: int| None::<u64>));
            self.lemma_started(&st, t, entry);
        }
        let out = self.run(
            &mut st,
            Ghost(t),
            &marks,
            &target_ids,
            single,
            dynamic,
            hour,
            heuristic,
            pending,
        );
        proof {
            self.lemma_id_of_position(*start);
        }
        match out {
            Outcome::Hit(u) => {
                proof {
                    self.lemma_limit(&st, t, u as int);
                }
                let path = self.backtrace(st.parents.as_slice(), u, start_idx);
                let d = st.found[u];
                let mut distances: Vec<Option<u64>> = Vec::new();
                distances.push(d);
                proof {
                    let tr = self.trace(st.parents@, u as int, start_idx as int, st.parents@.len());
                    self.lemma_trace_is_walk(
                        hour,
                        start_idx as int,
                        st.dist@,
                        st.parents@,
                        st.stamp@,
                        u as int,
                    );
                    self.lemma_places_of_ids(tr);
                    let k = choose|k: int|
                        0 <= k < target_ids@.len() && #[trigger] target_ids@[k] == Some(u);
                    assert(self.contains(targets@[k]) && self.position(targets@[k]) == u);
                    self.lemma_id_of_position(targets@[k]);
                    assert(path@.last() == targets@[k]);
                    self.lemma_found(&st, t, u as int, *start, targets@, target_ids@, k);
                }
                Ok(AStarResult { path: Some(path), single_target: single, distances })
            },
            _ => {
                let ghost open: int = match out {
                    Outcome::AllFound(u) => u as int,
                    _ => -1,
                };
                proof {
                    self.lemma_limit(&st, t, open);
                }
                if single && end_list.is_none() {
                    proof {
                        let e = *end->0;
                        if self.contains(e) {
                            let v = self.position(e);
                            assert(target_ids@[0] == Some(v as usize));
                            assert(self.occupied(v));
                            assert(t.marks[v]);
                            self.lemma_drained(&st, t, v);
                        }
                    }
                    return Err(GraphError::NoPath);
                }
                let mut distances: Vec<Option<u64>> = Vec::new();
                let mut i: usize = 0;
                while i < target_ids.len()
                    invariant
                        i <= target_ids@.len(),
                        distances@.len() == i,
                        st.found@.len() == self.nodes.len(),
                        self.wf(),
                        self.ids_match(targets@, target_ids@),
                        forall|k: int|
                            0 <= k < i ==> #[trigger] distances@[k] == match target_ids@[k] {
                                Some(v) => st.found@[v as int],
                                None => None,
                            },
                    decreases target_ids@.len() - i,
                {
                    let d = match target_ids[i] {
                        Some(v) => {
                            assert(self.occupied(self.position(targets@[i as int])));
                            st.found[v]
                        },
                        None => None,
                    };
                    distances.push(d);
                    i += 1;
                }
                proof {
                    assert forall|i: int| 0 <= i < targets@.len() implies match #[trigger] distances@[i] {
                        Some(d) => !single && self.distance_ok(
                            hour,
                            *start,
                            targets@,
                            targets@[i],
                            d,
                            limit0,
                            dynamic,
                            t.flat,
                        ),
                        None => self.gap_ok(hour, *start, targets@[i], limit0, dynamic, distances@),
                    } by {
                        match distances@[i] {
                            Some(d) => {
                                let v = target_ids@[i]->0 as int;
                                self.lemma_found(&st, t, open, *start, targets@, target_ids@, i);
                            },
                            None => {
                                if self.contains(targets@[i]) {
                                    let v = self.position(targets@[i]);
                                    assert(target_ids@[i] == Some(v as usize));
                                    assert(self.occupied(v));
                                    assert(t.marks[v]);
                                    self.lemma_drained(&st, t, v);
                                    if st.limit != limit0 {
                                        let x = choose|x: int|
                                            0 <= x < self.nodes.len() && t.marks[x]
                                                && #[trigger] st.found[x] == Some(st.limit);
                                        let j = choose|j: int|
                                            0 <= j < target_ids@.len() && #[trigger] target_ids@[j]
                                                == Some(x as usize);
                                        assert(distances@[j] == Some(st.limit));
                                    }
                                }
                            },
                        }
                    }
                }
                Ok(AStarResult { path: None, single_target: single, distances })
            },
        }
    }
}

/// Two searches by cost with a constant heuristic for the same target, from
/// the same start, at the same hour and with the same cutoff, end alike:
/// both fail, or both succeed and report the same distance.
pub proof fn lemma_distance_is_determined<T: NodeKey>(
    g: &Graph<T>,
    start: T,
    end: &T,
    infinity: Option<u64>,
    dynamic_infinity: Option<bool>,
    hour: Option<usize>,
    first: Result<AStarResult<T>, GraphError>,
    second: Result<AStarResult<T>, GraphError>,
)
    requires
        g.astar_ok(first, start, Some(end), None, infinity, dynamic_infinity, hour, true),
        g.astar_ok(second, start, Some(end), None, infinity, dynamic_infinity, hour, true),
    ensures
        first is Ok <==> second is Ok,
        first is Err ==> first->Err_0 == second->Err_0,
        first is Ok ==> first->Ok_0.distances@ == second->Ok_0.distances@,
{
    let targets = Graph::<T>::targets(Some(end), None);
    assert(targets =~= seq![*end]);
    if g.contains(start) {
        if first is Ok && second is Ok {
            let a = first->Ok_0;
            let b = second->Ok_0;
            let da = a.distances@[0]->0;
            let db = b.distances@[0]->0;
            let pa = a.path->0@;
            let pb = b.path->0@;
            assert(pa.last() == *end);
            assert(pb.last() == *end);
            let wa = choose|p: Seq<int>|
                g.joins(p, g.position(start), g.position(*end)) && g.walk_cost(hour, p)
                    == da as int;
            let wb = choose|p: Seq<int>|
                g.joins(p, g.position(start), g.position(*end)) && g.walk_cost(hour, p)
                    == db as int;
            assert(da == db);
            assert(a.distances@ =~= b.distances@);
        } else if first is Ok {
            let a = first->Ok_0;
            let da = a.distances@[0]->0;
            assert(a.path->0@.last() == *end);
            let wa = choose|p: Seq<int>|
                g.joins(p, g.position(start), g.position(*end)) && g.walk_cost(hour, p)
                    == da as int;
            assert(false);
        } else if second is Ok {
            let b = second->Ok_0;
            let db = b.distances@[0]->0;
            assert(b.path->0@.last() == *end);
            let wb = choose|p: Seq<int>|
                g.joins(p, g.position(start), g.position(*end)) && g.walk_cost(hour, p)
                    == db as int;
            assert(false);
        }
    }
}

/// Two searches by cost with a constant heuristic for the same list of
/// targets, from the same start, at the same hour and with the same cutoff,
/// lowered by targets reached or not, end alike: both fail in the same way,
/// or both report the same distances.
pub proof fn lemma_distances_are_determined<T: NodeKey>(
    g: &Graph<T>,
    start: T,
    end_list: &Vec<T>,
    infinity: Option<u64>,
    dynamic_infinity: Option<bool>,
    hour: Option<usize>,
    first: Result<AStarResult<T>, GraphError>,
    second: Result<AStarResult<T>, GraphError>,
)
    requires
        g.astar_ok(first, start, None, Some(end_list), infinity, dynamic_infinity, hour, true),
        g.astar_ok(second, start, None, Some(end_list), infinity, dynamic_infinity, hour, true),
    ensures
        first is Ok <==> second is Ok,
        first is Err ==> first->Err_0 == second->Err_0,
        first is Ok ==> first->Ok_0.distances@ == second->Ok_0.distances@,
{
    let targets = Graph::<T>::targets(None, Some(end_list));
    let limit = Graph::<T>::cutoff(infinity);
    let lowers = Graph::<T>::lowers(dynamic_infinity);
    let s = g.position(start);
    if g.contains(start) && targets.len() > 0 {
        let a = first->Ok_0.distances@;
        let b = second->Ok_0.distances@;
        assert forall|i: int| 0 <= i < targets.len() implies a[i] == b[i] by {
            lemma_entry_is_determined(g, start, targets, limit, lowers, hour, a, b, i);
            lemma_entry_is_determined(g, start, targets, limit, lowers, hour, b, a, i);
        }
        assert(a =~= b);
    }
}

/// Where one of two answers to the same search reports a distance for a
/// target, the other reports the same.
proof fn lemma_entry_is_determined<T: NodeKey>(
    g: &Graph<T>,
    start: T,
    targets: Seq<T>,
    limit: u64,
    lowers: bool,
    hour: Option<usize>,
    a: Seq<Option<u64>>,
    b: Seq<Option<u64>>,
    i: int,
)
    requires
        a.len() == targets.len(),
        b.len() == targets.len(),
        0 <= i < targets.len(),
        forall|k: int|
            0 <= k < targets.len() ==> match #[trigger] a[k] {
                Some(d) => g.distance_ok(hour, start, targets, targets[k], d, limit, lowers, true),
                None => g.gap_ok(hour, start, targets[k], limit, lowers, a),
            },
        forall|k: int|
            0 <= k < targets.len() ==> match #[trigger] b[k] {
                Some(d) => g.distance_ok(hour, start, targets, targets[k], d, limit, lowers, true),
                None => g.gap_ok(hour, start, targets[k], limit, lowers, b),
            },
    ensures
        a[i] is Some ==> b[i] == a[i],
{
    if a[i] is Some {
        let d = a[i]->0;
        let s = g.position(start);
        let t = g.position(targets[i]);
        assert(g.distance_ok(hour, start, targets, targets[i], d, limit, lowers, true));
        let walk = choose|p: Seq<int>| g.joins(p, s, t) && g.walk_cost(hour, p) == d as int;
        match b[i] {
            Some(e) => {
                assert(g.distance_ok(hour, start, targets, targets[i], e, limit, lowers, true));
                let other = choose|p: Seq<int>| g.joins(p, s, t) && g.walk_cost(hour, p) == e as int;
                assert(d == e);
            },
            None => {
                assert(g.gap_ok(hour, start, targets[i], limit, lowers, b));
                if !g.out_of_reach(hour, s, t, limit as int) {
                    let j = choose|j: int|
                        0 <= j < b.len() && (#[trigger] b[j]) is Some && g.out_of_reach(
                            hour,
                            s,
                            t,
                            b[j]->0 as int,
                        );
                    let e = b[j]->0;
                    assert(g.distance_ok(hour, start, targets, targets[j], e, limit, lowers, true));
                    let near = choose|p: Seq<int>|
                        g.joins(p, s, g.position(targets[j])) && g.walk_cost(hour, p) == e as int;
                    assert(g.none_below(hour, s, g.position(targets[j]), d as int));
                    assert(d <= e);
                }
                assert(false);
            },
        }
    }
}

/// What a search owes with a constant heuristic it owes with any.
pub proof fn lemma_any_heuristic<T: NodeKey>(
    g: &Graph<T>,
    r: Result<AStarResult<T>, GraphError>,
    start: T,
    end: Option<&T>,
    end_list: Option<&Vec<T>>,
    infinity: Option<u64>,
    dynamic_infinity: Option<bool>,
    hour: Option<usize>,
    flat: bool,
)
    requires
        g.astar_ok(r, start, end, end_list, infinity, dynamic_infinity, hour, flat),
    ensures
        g.astar_ok(r, start, end, end_list, infinity, dynamic_infinity, hour, false),
{
}

} // verus!
