//! Searches from many origins at once.

use crate::graph::{Graph, GraphError, NodeKey};
use crate::paths::hour_valid;
use crate::search::{is_constant, is_total, AStarResult};
use vstd::prelude::*;

verus! {

/// The origins without those whose key has occurred before, in the order of
/// their first occurrence.
pub open spec fn unique_origins<T: NodeKey>(origins: Seq<T>) -> Seq<T>
    decreases origins.len(),
{
    if origins.len() == 0 {
        Seq::empty()
    } else {
        let before = unique_origins(origins.drop_last());
        if named_in(origins.drop_last(), origins.last()) {
            before
        } else {
            before.push(origins.last())
        }
    }
}

/// Whether some origin of the list has the key of `origin`.
pub open spec fn named_in<T: NodeKey>(origins: Seq<T>, origin: T) -> bool {
    exists|j: int| 0 <= j < origins.len() && (#[trigger] origins[j]).key_spec() == origin.key_spec()
}

/// The origins that a search from many origins is made for: all of them
/// where that is forced, else each once.
pub open spec fn origins_searched<T: NodeKey>(origins: Seq<T>, force: bool) -> Seq<T> {
    if force {
        origins
    } else {
        unique_origins(origins)
    }
}

/// The origins that are searched once each name every origin that was given,
/// name no other, and name none twice.
pub proof fn lemma_unique_origins<T: NodeKey>(origins: Seq<T>)
    ensures
        forall|i: int|
            0 <= i < origins.len() ==> named_in(unique_origins(origins), #[trigger] origins[i]),
        forall|k: int|
            0 <= k < unique_origins(origins).len() ==> named_in(
                origins,
                #[trigger] unique_origins(origins)[k],
            ),
        forall|k: int, l: int|
            0 <= k < l < unique_origins(origins).len() ==> (#[trigger] unique_origins(
                origins,
            )[k]).key_spec() != (#[trigger] unique_origins(origins)[l]).key_spec(),
    decreases origins.len(),
{
    if origins.len() > 0 {
        let rest = origins.drop_last();
        let last = origins.last();
        let before = unique_origins(rest);
        let all = unique_origins(origins);
        lemma_unique_origins(rest);
        assert forall|i: int| 0 <= i < origins.len() implies named_in(all, #[trigger] origins[i]) by {
            if i < rest.len() {
                assert(origins[i] == rest[i]);
                let k = choose|k: int|
                    0 <= k < before.len() && (#[trigger] before[k]).key_spec()
                        == rest[i].key_spec();
                assert(all[k].key_spec() == origins[i].key_spec());
            } else {
                if named_in(rest, last) {
                    let j = choose|j: int|
                        0 <= j < rest.len() && (#[trigger] rest[j]).key_spec() == last.key_spec();
                    let k = choose|k: int|
                        0 <= k < before.len() && (#[trigger] before[k]).key_spec()
                            == rest[j].key_spec();
                    assert(all[k].key_spec() == origins[i].key_spec());
                } else {
                    assert(all[before.len() as int].key_spec() == origins[i].key_spec());
                }
            }
        }
        assert forall|k: int| 0 <= k < all.len() implies named_in(origins, #[trigger] all[k]) by {
            if k < before.len() {
                assert(all[k] == before[k]);
                let j = choose|j: int|
                    0 <= j < rest.len() && (#[trigger] rest[j]).key_spec() == before[k].key_spec();
                assert(origins[j].key_spec() == all[k].key_spec());
            } else {
                assert(origins[origins.len() - 1].key_spec() == all[k].key_spec());
            }
        }
        assert forall|k: int, l: int| 0 <= k < l < all.len() implies (#[trigger] all[k]).key_spec() != (
        #[trigger] all[l]).key_spec() by {
            assert(all[k] == before[k]);
            if l < before.len() {
                assert(all[l] == before[l]);
            } else {
                if all[k].key_spec() == all[l].key_spec() {
                    let j = choose|j: int|
                        0 <= j < rest.len() && (#[trigger] rest[j]).key_spec()
                            == before[k].key_spec();
                    assert(named_in(rest, last));
                }
            }
        }
    }
}

impl<T: NodeKey> Graph<T> {
    /// Whether `row` is what a search by cost from `origin` for the
    /// destinations owes.
    pub open spec fn cost_row_ok(
        &self,
        row: Result<Vec<Option<u64>>, GraphError>,
        origin: T,
        destinations: Option<&Vec<T>>,
        infinity: Option<u64>,
        dynamic_infinity: Option<bool>,
        hour: Option<usize>,
        flat: bool,
    ) -> bool {
        self.astar_ok(
            match row {
                Ok(d) => Ok(AStarResult { path: None, single_target: false, distances: d }),
                Err(e) => Err(e),
            },
            origin,
            None,
            destinations,
            infinity,
            dynamic_infinity,
            hour,
            flat,
        )
    }

    /// Whether `row` is what a breadth-first search from `origin` for the
    /// destinations owes.
    pub open spec fn hop_row_ok(
        &self,
        row: Result<Vec<Option<u64>>, GraphError>,
        origin: T,
        destinations: Option<&Vec<T>>,
    ) -> bool {
        self.bfs_ok(
            match row {
                Ok(d) => Ok((None, d)),
                Err(e) => Err(e),
            },
            origin,
            None,
            destinations,
        )
    }

    /// Whether some row has been made for the key of `origin`.
    fn has_row(rows: &Vec<(T, Result<Vec<Option<u64>>, GraphError>)>, origin: &T) -> (b: bool)
        ensures
            b == exists|k: int|
                0 <= k < rows@.len() && (#[trigger] rows@[k]).0.key_spec() == origin.key_spec(),
    {
        let key = origin.key();
        let mut k: usize = 0;
        while k < rows.len()
            invariant
                k <= rows@.len(),
                key == origin.key_spec(),
                forall|l: int| 0 <= l < k ==> (#[trigger] rows@[l]).0.key_spec() != key,
            decreases rows@.len() - k,
        {
            let other = rows[k].0.key();
            if other.0 == key.0 && other.1 == key.1 {
                return true;
            }
            k += 1;
        }
        false
    }

    /// Calculates the distances from each origin to the destinations by the
    /// A* algorithm.
    ///
    /// There is one row for each origin, in the order of the origins. Unless
    /// `force` is set, an origin that has occurred before gets no row of its
    /// own.
    #[allow(clippy::too_many_arguments)]
    #[allow(clippy::type_complexity)]
    pub fn matrix_astar_distance<F: Fn(&T, &T) -> u64>(
        &self,
        origins: &Vec<T>,
        destinations: Option<&Vec<T>>,
        force: bool,
        weight_list_index: Option<usize>,
        infinity: Option<u64>,
        dynamic_infinity: Option<bool>,
        heuristic: F,
    ) -> (rows: Vec<(T, Result<Vec<Option<u64>>, GraphError>)>)
        requires
            self.wf(),
            hour_valid(weight_list_index),
            is_total(heuristic),
        ensures
            rows@.len() == origins_searched(origins@, force).len(),
            forall|k: int|
                0 <= k < rows@.len() ==> (#[trigger] rows@[k]).0 == origins_searched(origins@, force)[k]
                    && self.cost_row_ok(
                    rows@[k].1,
                    rows@[k].0,
                    destinations,
                    infinity,
                    dynamic_infinity,
                    weight_list_index,
                    is_constant(heuristic),
                ),
    {
        let mut rows: Vec<(T, Result<Vec<Option<u64>>, GraphError>)> = Vec::new();
        let mut i: usize = 0;
        while i < origins.len()
            invariant
                i <= origins@.len(),
                self.wf(),
                hour_valid(weight_list_index),
                is_total(heuristic),
                rows@.len() == origins_searched(origins@.subrange(0, i as int), force).len(),
                forall|k: int|
                    0 <= k < rows@.len() ==> (#[trigger] rows@[k]).0 == origins_searched(
                        origins@.subrange(0, i as int),
                        force,
                    )[k] && self.cost_row_ok(
                        rows@[k].1,
                        rows@[k].0,
                        destinations,
                        infinity,
                        dynamic_infinity,
                        weight_list_index,
                        is_constant(heuristic),
                    ),
            decreases origins@.len() - i,
        {
            let origin = origins[i];
            let ghost seen = origins@.subrange(0, i as int);
            proof {
                assert(origins@.subrange(0, i + 1).drop_last() =~= seen);
                lemma_unique_origins(seen);
            }
            let known = !force && Self::has_row(&rows, &origin);
            proof {
                if !force {
                    let u = unique_origins(seen);
                    if named_in(seen, origin) {
                        let j = choose|j: int|
                            0 <= j < seen.len() && (#[trigger] seen[j]).key_spec()
                                == origin.key_spec();
                        let k = choose|k: int|
                            0 <= k < u.len() && (#[trigger] u[k]).key_spec() == seen[j].key_spec();
                        assert(rows@[k].0.key_spec() == origin.key_spec());
                    }
                    if known {
                        let k = choose|k: int|
                            0 <= k < rows@.len() && (#[trigger] rows@[k]).0.key_spec()
                                == origin.key_spec();
                        assert(named_in(seen, u[k]));
                        let j = choose|j: int|
                            0 <= j < seen.len() && (#[trigger] seen[j]).key_spec()
                                == u[k].key_spec();
                        assert(seen[j].key_spec() == origin.key_spec());
                    }
                }
            }
            if !known {
                let found = self.astar_with(
                    &origin,
                    None,
                    destinations,
                    infinity,
                    dynamic_infinity,
                    weight_list_index,
                    &heuristic,
                );
                let row = match found {
                    Ok(res) => {
                        assert(res.path is None && !res.single_target);
                        Ok(res.distances)
                    },
                    Err(e) => Err(e),
                };
                rows.push((origin, row));
            }
            i += 1;
        }
        assert(origins@.subrange(0, origins@.len() as int) =~= origins@);
        rows
    }

    /// Calculates the distances from each origin to the destinations, or to
    /// all nodes where none are given, by breadth-first search.
    ///
    /// There is one row for each origin, in the order of the origins. Unless
    /// `force` is set, an origin that has occurred before gets no row of its
    /// own.
    #[allow(clippy::type_complexity)]
    pub fn matrix_bfs_distance(
        &self,
        origins: &Vec<T>,
        destinations: Option<&Vec<T>>,
        force: bool,
    ) -> (rows: Vec<(T, Result<Vec<Option<u64>>, GraphError>)>)
        requires
            self.wf(),
        ensures
            rows@.len() == origins_searched(origins@, force).len(),
            forall|k: int|
                0 <= k < rows@.len() ==> (#[trigger] rows@[k]).0 == origins_searched(origins@, force)[k]
                    && self.hop_row_ok(rows@[k].1, rows@[k].0, destinations),
    {
        let mut rows: Vec<(T, Result<Vec<Option<u64>>, GraphError>)> = Vec::new();
        let mut i: usize = 0;
        while i < origins.len()
            invariant
                i <= origins@.len(),
                self.wf(),
                rows@.len() == origins_searched(origins@.subrange(0, i as int), force).len(),
                forall|k: int|
                    0 <= k < rows@.len() ==> (#[trigger] rows@[k]).0 == origins_searched(
                        origins@.subrange(0, i as int),
                        force,
                    )[k] && self.hop_row_ok(rows@[k].1, rows@[k].0, destinations),
            decreases origins@.len() - i,
        {
            let origin = origins[i];
            let ghost seen = origins@.subrange(0, i as int);
            proof {
                assert(origins@.subrange(0, i + 1).drop_last() =~= seen);
                lemma_unique_origins(seen);
            }
            let known = !force && Self::has_row(&rows, &origin);
            proof {
                if !force {
                    let u = unique_origins(seen);
                    if named_in(seen, origin) {
                        let j = choose|j: int|
                            0 <= j < seen.len() && (#[trigger] seen[j]).key_spec()
                                == origin.key_spec();
                        let k = choose|k: int|
                            0 <= k < u.len() && (#[trigger] u[k]).key_spec() == seen[j].key_spec();
                        assert(rows@[k].0.key_spec() == origin.key_spec());
                    }
                    if known {
                        let k = choose|k: int|
                            0 <= k < rows@.len() && (#[trigger] rows@[k]).0.key_spec()
                                == origin.key_spec();
                        assert(named_in(seen, u[k]));
                        let j = choose|j: int|
                            0 <= j < seen.len() && (#[trigger] seen[j]).key_spec()
                                == u[k].key_spec();
                        assert(seen[j].key_spec() == origin.key_spec());
                    }
                }
            }
            if !known {
                let found = self.bfs(&origin, None, destinations);
                let row = match found {
                    Ok(res) => {
                        assert(res.0 is None);
                        Ok(res.1)
                    },
                    Err(e) => Err(e),
                };
                rows.push((origin, row));
            }
            i += 1;
        }
        assert(origins@.subrange(0, origins@.len() as int) =~= origins@);
        rows
    }
}

} // verus!
