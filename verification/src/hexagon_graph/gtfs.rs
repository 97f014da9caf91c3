//! Timetables: the rides between stops and how often each stop is served.

use crate::graph::{HOURS_PER_WEEK, MINUTE};
use std::collections::HashMap;
use crate::text::{place_of, text_before, Place};
use vstd::prelude::*;

verus! {

/// A call of a trip at a stop.
#[derive(Debug, Clone, Copy)]
pub struct StopTime {
    /// The cell of the stop, where the stop has coordinates.
    pub cell: Option<u64>,
    /// The place of the call within its trip.
    pub stop_sequence: u32,
    /// Arrival and departure, in seconds after midnight.
    pub arrival_time: Option<u32>,
    pub departure_time: Option<u32>,
}

/// A trip: one run of a vehicle along a route, on the days of a service.
#[derive(Debug)]
pub struct Trip {
    pub route_id: String,
    pub service_id: String,
    pub stop_times: Vec<StopTime>,
}

/// The days of the week on which a service runs, Monday first.
#[derive(Debug)]
pub struct Calendar {
    pub service_id: String,
    pub days: [bool; 7],
}

/// A timetable feed, as far as the graph is built from it.
#[derive(Debug)]
pub struct GtfsFeed {
    pub routes: Vec<String>,
    pub trips: Vec<Trip>,
    pub calendar: Vec<Calendar>,
}

/// A ride between two cells on the layer of a route, with its weight.
pub type RideEdge = ((usize, u64, u64), u64);

/// The departures from a cell on the layer of a route, for each hour of the
/// week.
pub type StopFrequency = ((u64, usize), Vec<u64>);

/// What is read from a timetable feed.
#[derive(Debug)]
pub struct GtfsProcessingResult {
    pub edge_data: Vec<RideEdge>,
    pub stop_frequencies: Vec<StopFrequency>,
    /// The number of routes of the feed.
    pub nr_routes: usize,
    /// The routes of the feed in the order of the dictionary: the layer of
    /// a route is its place here, counted from the offset.
    pub routes: Vec<String>,
}

/// The seconds of a day.
pub const DAY: u32 = 86_400;

/// The time of day that a number of seconds after midnight stands for, as
/// hour, minute and second; none from 24 hours on.
pub open spec fn time_of_day(time: u32) -> Option<(u8, u8, u8)> {
    if time < DAY {
        Some(((time / 3600) as u8, (time % 3600 / 60) as u8, (time % 60) as u8))
    } else {
        None
    }
}

/// The whole minutes from an arrival to a later departure on the same day;
/// none where less than a whole minute lies between them.
pub open spec fn ride_minutes(arrival: u32, departure: u32) -> Option<u64> {
    if arrival < DAY && departure < DAY && departure - arrival >= 60 {
        Some(((departure - arrival) / 60) as u64)
    } else {
        None
    }
}

/// The time of day that a number of seconds after midnight stands for: the
/// reverse of `hours * 3600 + minutes * 60 + seconds`.
pub fn convert_gtfs_time(time: u32) -> (r: Option<(u8, u8, u8)>)
    ensures
        r == time_of_day(time),
{
    let hours = time / 3600;
    let minutes = (time - hours * 3600) / 60;
    let seconds = time - hours * 3600 - minutes * 60;
    if hours >= 24 {
        None
    } else {
        Some((hours as u8, minutes as u8, seconds as u8))
    }
}

/// The whole minutes of a ride that arrives at its first stop at `arrival`
/// and leaves its second at `departure`, if both are times of one day and
/// the second is later by a minute or more.
pub fn ride_duration(arrival: u32, departure: u32) -> (r: Option<u64>)
    ensures
        r == ride_minutes(arrival, departure),
{
    match (convert_gtfs_time(arrival), convert_gtfs_time(departure)) {
        (Some(_), Some(_)) => {
            if departure > arrival && departure - arrival >= 60 {
                Some(((departure - arrival) / 60) as u64)
            } else {
                None
            }
        },
        _ => None,
    }
}

/// Whether the routes stand in the order of the dictionary, none twice.
pub open spec fn in_order(routes: Seq<String>) -> bool {
    forall|i: int, j: int|
        0 <= i < j < routes.len() ==> text_before((#[trigger] routes[i])@, (#[trigger] routes[j])@)
}

/// Whether one of the routes is called `id`.
pub open spec fn lists(routes: Seq<String>, id: Seq<char>) -> bool {
    exists|i: int| 0 <= i < routes.len() && (#[trigger] routes[i])@ == id
}

/// The place of the route called `id` among the routes.
pub open spec fn place_in(routes: Seq<String>, id: Seq<char>) -> int {
    choose|i: int| 0 <= i < routes.len() && (#[trigger] routes[i])@ == id
}

/// The layer of the route called `id`: its place among the ordered routes,
/// counted from `offset`. None where no route is called so, or the number
/// is beyond all counting.
pub open spec fn layer_of(routes: Seq<String>, id: Seq<char>, offset: usize) -> Option<usize> {
    if lists(routes, id) && place_in(routes, id) + offset <= usize::MAX {
        Some((place_in(routes, id) + offset) as usize)
    } else {
        None
    }
}

/// A text comes before a text that comes after a third one that it follows.
proof fn lemma_text_transitive(a: Seq<char>, b: Seq<char>, c: Seq<char>)
    requires
        text_before(a, b),
        text_before(b, c),
    ensures
        text_before(a, c),
{
    crate::text::lemma_before_transitive(
        vstd::utf8::encode_utf8(a),
        vstd::utf8::encode_utf8(b),
        vstd::utf8::encode_utf8(c),
    );
}

/// No text comes before itself.
proof fn lemma_text_irreflexive(a: Seq<char>)
    ensures
        !text_before(a, a),
{
    crate::text::lemma_before_irreflexive(vstd::utf8::encode_utf8(a));
}

/// The routes in the order of the dictionary, each once.
pub fn sort_routes(routes: &Vec<String>) -> (sorted: Vec<String>)
    ensures
        in_order(sorted@),
        forall|id: Seq<char>| lists(sorted@, id) <==> lists(routes@, id),
{
    let mut sorted: Vec<String> = Vec::new();
    let mut i: usize = 0;
    while i < routes.len()
        invariant
            i <= routes@.len(),
            in_order(sorted@),
            forall|id: Seq<char>|
                lists(sorted@, id) <==> lists(routes@.subrange(0, i as int), id),
        decreases routes@.len() - i,
    {
        let route = &routes[i];
        let ghost id = route@;
        let ghost before = sorted@;
        let ghost seen = routes@.subrange(0, i as int);
        let ghost next = routes@.subrange(0, i + 1);
        let mut k: usize = 0;
        let mut known = false;
        while k < sorted.len()
            invariant_except_break
                !known,
            invariant
                k <= sorted@.len(),
                sorted@ == before,
                id == route@,
                forall|j: int| 0 <= j < k ==> text_before((#[trigger] sorted@[j])@, id),
            ensures
                k <= sorted@.len(),
                sorted@ == before,
                forall|j: int| 0 <= j < k ==> text_before((#[trigger] sorted@[j])@, id),
                known ==> k < sorted@.len() && sorted@[k as int]@ == id,
                !known && k < sorted@.len() ==> text_before(id, sorted@[k as int]@),
            decreases sorted@.len() - k,
        {
            match place_of(sorted[k].as_str(), route.as_str()) {
                Place::Before => {},
                Place::Same => {
                    known = true;
                    break;
                },
                Place::After => {
                    break;
                },
            }
            k += 1;
        }
        if !known {
            sorted.insert(k, route.clone());
            proof {
                assert forall|a: int, b: int| 0 <= a < b < sorted@.len() implies text_before(
                    (#[trigger] sorted@[a])@,
                    (#[trigger] sorted@[b])@,
                ) by {
                    if b < k {
                        assert(sorted@[a] == before[a] && sorted@[b] == before[b]);
                    } else if b == k {
                        assert(sorted@[a] == before[a]);
                    } else if a == k {
                        assert(sorted@[b] == before[b - 1]);
                        if b - 1 > k {
                            lemma_text_transitive(id, before[k as int]@, before[b - 1]@);
                        }
                    } else if a < k {
                        assert(sorted@[a] == before[a] && sorted@[b] == before[b - 1]);
                    } else {
                        assert(sorted@[a] == before[a - 1] && sorted@[b] == before[b - 1]);
                    }
                }
                assert forall|x: Seq<char>| lists(sorted@, x) <==> lists(next, x) by {
                    if lists(sorted@, x) {
                        let j = choose|j: int| 0 <= j < sorted@.len() && (#[trigger] sorted@[j])@ == x;
                        if j == k {
                            assert(next[i as int]@ == x);
                        } else {
                            let j0 = if j < k {
                                j
                            } else {
                                j - 1
                            };
                            assert(before[j0]@ == x);
                            assert(lists(before, x));
                            assert(lists(seen, x));
                            let m = choose|m: int| 0 <= m < seen.len() && (#[trigger] seen[m])@ == x;
                            assert(next[m]@ == x);
                        }
                    }
                    if lists(next, x) {
                        let m = choose|m: int| 0 <= m < next.len() && (#[trigger] next[m])@ == x;
                        if m == i {
                            assert(sorted@[k as int]@ == x);
                        } else {
                            assert(seen[m]@ == x);
                            assert(lists(before, x));
                            let j = choose|j: int|
                                0 <= j < before.len() && (#[trigger] before[j])@ == x;
                            let j1 = if j < k {
                                j
                            } else {
                                j + 1
                            };
                            assert(sorted@[j1]@ == x);
                        }
                    }
                }
            }
        } else {
            proof {
                assert forall|x: Seq<char>| lists(sorted@, x) <==> lists(next, x) by {
                    if lists(sorted@, x) {
                        assert(lists(before, x));
                        assert(lists(seen, x));
                        let m = choose|m: int| 0 <= m < seen.len() && (#[trigger] seen[m])@ == x;
                        assert(next[m]@ == x);
                    }
                    if lists(next, x) {
                        let m = choose|m: int| 0 <= m < next.len() && (#[trigger] next[m])@ == x;
                        if m == i {
                            assert(sorted@[k as int]@ == x);
                        } else {
                            assert(seen[m]@ == x);
                        }
                    }
                }
            }
        }
        i += 1;
    }
    assert(routes@.subrange(0, routes@.len() as int) =~= routes@);
    sorted
}

/// The layer of the route called `id` among the ordered routes.
pub fn route_layer(sorted: &Vec<String>, id: &str, offset: usize) -> (r: Option<usize>)
    requires
        in_order(sorted@),
    ensures
        r == layer_of(sorted@, id@, offset),
{
    let mut low: usize = 0;
    let mut high: usize = sorted.len();
    while low < high
        invariant
            low <= high <= sorted@.len(),
            in_order(sorted@),
            forall|j: int| 0 <= j < low ==> text_before((#[trigger] sorted@[j])@, id@),
            forall|j: int| high <= j < sorted@.len() ==> text_before(id@, (#[trigger] sorted@[j])@),
        decreases high - low,
    {
        let mid = low + (high - low) / 2;
        match place_of(sorted[mid].as_str(), id) {
            Place::Before => {
                proof {
                    assert forall|j: int| 0 <= j < mid + 1 implies text_before(
                        (#[trigger] sorted@[j])@,
                        id@,
                    ) by {
                        if j < mid {
                            lemma_text_transitive(sorted@[j]@, sorted@[mid as int]@, id@);
                        }
                    }
                }
                low = mid + 1;
            },
            Place::Same => {
                proof {
                    let p = place_in(sorted@, id@);
                    assert(sorted@[mid as int]@ == id@);
                    lemma_text_irreflexive(id@);
                    if p < mid {
                        assert(text_before(sorted@[p]@, sorted@[mid as int]@));
                    } else if p > mid {
                        assert(text_before(sorted@[mid as int]@, sorted@[p]@));
                    }
                }
                return if mid <= usize::MAX - offset {
                    Some(mid + offset)
                } else {
                    None
                };
            },
            Place::After => {
                proof {
                    assert forall|j: int| mid <= j < sorted@.len() implies text_before(
                        id@,
                        (#[trigger] sorted@[j])@,
                    ) by {
                        if j > mid {
                            lemma_text_transitive(id@, sorted@[mid as int]@, sorted@[j]@);
                        }
                    }
                }
                high = mid;
            },
        }
    }
    proof {
        lemma_text_irreflexive(id@);
        if lists(sorted@, id@) {
            let p = place_in(sorted@, id@);
            if p < low {
                assert(text_before(sorted@[p]@, id@));
            } else {
                assert(text_before(id@, sorted@[p]@));
            }
        }
    }
    None
}

/// The calls at stops that have a cell, in their order.
pub open spec fn located(stop_times: Seq<StopTime>) -> Seq<StopTime>
    decreases stop_times.len(),
{
    if stop_times.len() == 0 {
        Seq::empty()
    } else if stop_times.last().cell is Some {
        located(stop_times.drop_last()).push(stop_times.last())
    } else {
        located(stop_times.drop_last())
    }
}

/// The calls of `sorted` with `call` among them: behind every call whose
/// place in the trip is not later than its own, before the others.
pub open spec fn slotted(sorted: Seq<StopTime>, call: StopTime) -> Seq<StopTime>
    decreases sorted.len(),
{
    if sorted.len() == 0 {
        seq![call]
    } else if sorted.last().stop_sequence <= call.stop_sequence {
        sorted.push(call)
    } else {
        slotted(sorted.drop_last(), call).push(sorted.last())
    }
}

/// The calls by their place in the trip; calls with the same place stay in
/// the order they came in.
pub open spec fn by_sequence(calls: Seq<StopTime>) -> Seq<StopTime>
    decreases calls.len(),
{
    if calls.len() == 0 {
        Seq::empty()
    } else {
        slotted(by_sequence(calls.drop_last()), calls.last())
    }
}

/// The whole minutes of the ride from call `a` to call `b`: from the
/// arrival at the first to the departure from the second.
pub open spec fn ride_between(a: StopTime, b: StopTime) -> Option<u64> {
    match (a.arrival_time, b.departure_time) {
        (Some(x), Some(y)) => ride_minutes(x, y),
        _ => None,
    }
}

/// Whether one of the rides joins the same cells on the same layer.
pub open spec fn has_ride(rides: Seq<RideEdge>, key: (usize, u64, u64)) -> bool {
    exists|i: int| 0 <= i < rides.len() && (#[trigger] rides[i]).0 == key
}

/// The rides between the first `upto` pairs of calls that follow each
/// other: for each pair with a ride of a whole minute or more one edge on
/// the layer of the route, unless an earlier pair joins the same cells.
pub open spec fn rides_of(calls: Seq<StopTime>, route: usize, upto: int) -> Seq<RideEdge>
    decreases upto,
{
    if upto <= 0 {
        Seq::empty()
    } else {
        let before = rides_of(calls, route, upto - 1);
        let key = (route, calls[upto - 1].cell->0, calls[upto].cell->0);
        match ride_between(calls[upto - 1], calls[upto]) {
            Some(m) => if has_ride(before, key) {
                before
            } else {
                before.push((key, (m * MINUTE) as u64))
            },
            None => before,
        }
    }
}

/// The layer on which the rides of a trip are put: that of its route, and
/// layer 0 where its route is unknown.
pub open spec fn ride_layer(routes: Seq<String>, route_id: Seq<char>, offset: usize) -> usize {
    match layer_of(routes, route_id, offset) {
        Some(l) => l,
        None => 0,
    }
}

/// The rides of a trip.
pub open spec fn trip_rides(trip: Trip, routes: Seq<String>, offset: usize) -> Seq<RideEdge> {
    let calls = by_sequence(located(trip.stop_times@));
    rides_of(calls, ride_layer(routes, trip.route_id@, offset), calls.len() - 1)
}

/// The rides of the first `upto` trips, trip after trip.
pub open spec fn feed_rides(trips: Seq<Trip>, routes: Seq<String>, offset: usize, upto: int) -> Seq<
    RideEdge,
>
    decreases upto,
{
    if upto <= 0 {
        Seq::empty()
    } else {
        feed_rides(trips, routes, offset, upto - 1) + trip_rides(trips[upto - 1], routes, offset)
    }
}

/// Every ride lasts a whole minute or more.
pub proof fn lemma_rides_last(calls: Seq<StopTime>, route: usize, upto: int, i: int)
    requires
        0 <= i < rides_of(calls, route, upto).len(),
    ensures
        rides_of(calls, route, upto)[i].1 >= MINUTE,
    decreases upto,
{
    if upto > 0 {
        let before = rides_of(calls, route, upto - 1);
        if i < before.len() {
            lemma_rides_last(calls, route, upto - 1, i);
            assert(rides_of(calls, route, upto)[i] == before[i]);
        } else {
            let m = ride_between(calls[upto - 1], calls[upto])->0;
            assert(1 <= m <= 1440);
            assert(m * MINUTE >= MINUTE && m * MINUTE <= u64::MAX) by (nonlinear_arith)
                requires
                    1 <= m <= 1440,
                    MINUTE == 1_000_000,
            ;
        }
    }
}

/// Every ride of a feed lasts a whole minute or more.
pub proof fn lemma_feed_rides_last(
    trips: Seq<Trip>,
    routes: Seq<String>,
    offset: usize,
    upto: int,
    i: int,
)
    requires
        0 <= i < feed_rides(trips, routes, offset, upto).len(),
    ensures
        feed_rides(trips, routes, offset, upto)[i].1 >= MINUTE,
    decreases upto,
{
    if upto > 0 {
        let before = feed_rides(trips, routes, offset, upto - 1);
        if i < before.len() {
            lemma_feed_rides_last(trips, routes, offset, upto - 1, i);
        } else {
            let trip = trips[upto - 1];
            let calls = by_sequence(located(trip.stop_times@));
            lemma_rides_last(
                calls,
                ride_layer(routes, trip.route_id@, offset),
                calls.len() - 1,
                i - before.len(),
            );
        }
    }
}

/// Every located call has a cell.
pub proof fn lemma_located(stop_times: Seq<StopTime>)
    ensures
        forall|i: int|
            0 <= i < located(stop_times).len() ==> (#[trigger] located(stop_times)[i]).cell is Some,
    decreases stop_times.len(),
{
    if stop_times.len() > 0 {
        lemma_located(stop_times.drop_last());
    }
}

/// Putting a call among sorted calls keeps them sorted and adds nothing
/// but the call.
pub proof fn lemma_slotted(sorted: Seq<StopTime>, call: StopTime)
    requires
        forall|i: int, j: int|
            0 <= i < j < sorted.len() ==> (#[trigger] sorted[i]).stop_sequence <= (
            #[trigger] sorted[j]).stop_sequence,
    ensures
        slotted(sorted, call).len() == sorted.len() + 1,
        slotted(sorted, call).to_multiset() == sorted.to_multiset().insert(call),
        forall|i: int, j: int|
            0 <= i < j < slotted(sorted, call).len() ==> (#[trigger] slotted(
                sorted,
                call,
            )[i]).stop_sequence <= (#[trigger] slotted(sorted, call)[j]).stop_sequence,
        forall|i: int|
            0 <= i < slotted(sorted, call).len() ==> (#[trigger] slotted(sorted, call)[i]) == call || (
            exists|k: int| 0 <= k < sorted.len() && sorted[k] == slotted(sorted, call)[i]),
    decreases sorted.len(),
{
    broadcast use vstd::seq_lib::group_to_multiset_ensures;

    let out = slotted(sorted, call);
    if sorted.len() == 0 {
        assert(out =~= Seq::<StopTime>::empty().push(call));
    } else if sorted.last().stop_sequence <= call.stop_sequence {
        assert forall|i: int| 0 <= i < out.len() implies (#[trigger] out[i]) == call || (exists|k: int|
            0 <= k < sorted.len() && sorted[k] == out[i]) by {
            if i < sorted.len() {
                assert(sorted[i] == out[i]);
            }
        }
    } else {
        let rest = sorted.drop_last();
        let inner = slotted(rest, call);
        assert forall|i: int, j: int| 0 <= i < j < rest.len() implies (#[trigger] rest[i]).stop_sequence
            <= (#[trigger] rest[j]).stop_sequence by {
            assert(rest[i] == sorted[i] && rest[j] == sorted[j]);
        }
        lemma_slotted(rest, call);
        assert(sorted =~= rest.push(sorted.last()));
        assert(sorted.to_multiset() == rest.to_multiset().insert(sorted.last()));
        assert(out.to_multiset() =~= sorted.to_multiset().insert(call));
        assert forall|i: int, j: int| 0 <= i < j < out.len() implies (#[trigger] out[i]).stop_sequence
            <= (#[trigger] out[j]).stop_sequence by {
            assert(out[i] == inner[i]);
            if j < inner.len() {
                assert(out[j] == inner[j]);
            } else {
                if inner[i] != call {
                    let k = choose|k: int| 0 <= k < rest.len() && rest[k] == inner[i];
                    assert(sorted[k].stop_sequence <= sorted[sorted.len() - 1].stop_sequence);
                }
            }
        }
        assert forall|i: int| 0 <= i < out.len() implies (#[trigger] out[i]) == call || (exists|k: int|
            0 <= k < sorted.len() && sorted[k] == out[i]) by {
            if i < inner.len() {
                assert(out[i] == inner[i]);
                if inner[i] != call {
                    let k = choose|k: int| 0 <= k < rest.len() && rest[k] == inner[i];
                    assert(sorted[k] == out[i]);
                }
            } else {
                assert(sorted[sorted.len() - 1] == out[i]);
            }
        }
    }
}

/// The calls by their place in the trip are the same calls, sorted by
/// that place.
pub proof fn lemma_by_sequence(calls: Seq<StopTime>)
    ensures
        by_sequence(calls).len() == calls.len(),
        by_sequence(calls).to_multiset() == calls.to_multiset(),
        forall|i: int, j: int|
            0 <= i < j < by_sequence(calls).len() ==> (#[trigger] by_sequence(calls)[i]).stop_sequence
                <= (#[trigger] by_sequence(calls)[j]).stop_sequence,
        forall|i: int|
            0 <= i < by_sequence(calls).len() ==> exists|k: int|
                0 <= k < calls.len() && calls[k] == #[trigger] by_sequence(calls)[i],
    decreases calls.len(),
{
    broadcast use vstd::seq_lib::group_to_multiset_ensures;

    if calls.len() > 0 {
        let rest = calls.drop_last();
        lemma_by_sequence(rest);
        lemma_slotted(by_sequence(rest), calls.last());
        assert(calls =~= rest.push(calls.last()));
        let out = by_sequence(calls);
        assert forall|i: int| 0 <= i < out.len() implies exists|k: int|
            0 <= k < calls.len() && calls[k] == #[trigger] out[i] by {
            if out[i] == calls.last() {
                assert(calls[calls.len() - 1] == out[i]);
            } else {
                let m = choose|m: int|
                    0 <= m < by_sequence(rest).len() && by_sequence(rest)[m] == out[i];
                let k = choose|k: int| 0 <= k < rest.len() && rest[k] == by_sequence(rest)[m];
                assert(calls[k] == out[i]);
            }
        }
    } else {
        assert(by_sequence(calls).to_multiset() =~= calls.to_multiset());
    }
}

/// The calls of a trip at stops that have a cell, by their place in the
/// trip.
pub fn stops_by_sequence(stop_times: &Vec<StopTime>) -> (calls: Vec<StopTime>)
    ensures
        calls@ == by_sequence(located(stop_times@)),
{
    let mut calls: Vec<StopTime> = Vec::new();
    let mut i: usize = 0;
    while i < stop_times.len()
        invariant
            i <= stop_times@.len(),
            calls@ == by_sequence(located(stop_times@.subrange(0, i as int))),
        decreases stop_times@.len() - i,
    {
        let call = stop_times[i];
        proof {
            assert(stop_times@.subrange(0, i + 1).drop_last() =~= stop_times@.subrange(0, i as int));
        }
        if call.cell.is_some() {
            let ghost before = calls@;
            let mut place = calls.len();
            proof {
                assert(before.subrange(0, before.len() as int) =~= before);
                assert(slotted(before, call) + before.subrange(
                    before.len() as int,
                    before.len() as int,
                ) =~= slotted(before, call));
            }
            while place > 0 && calls[place - 1].stop_sequence > call.stop_sequence
                invariant
                    place <= calls@.len(),
                    calls@ == before,
                    slotted(before, call) == slotted(before.subrange(0, place as int), call)
                        + before.subrange(place as int, before.len() as int),
                decreases place,
            {
                proof {
                    let head = before.subrange(0, place as int);
                    assert(head.drop_last() =~= before.subrange(0, place - 1));
                    assert(slotted(head.drop_last(), call).push(head.last()) + before.subrange(
                        place as int,
                        before.len() as int,
                    ) =~= slotted(head.drop_last(), call) + before.subrange(
                        place - 1,
                        before.len() as int,
                    ));
                }
                place = place - 1;
            }
            proof {
                let head = before.subrange(0, place as int);
                assert(before.subrange(0, before.len() as int) =~= before);
                assert(slotted(before, call) =~= before.insert(place as int, call));
                let upto = located(stop_times@.subrange(0, i + 1));
                assert(upto.drop_last() =~= located(stop_times@.subrange(0, i as int)));
            }
            calls.insert(place, call);
        }
        i += 1;
    }
    assert(stop_times@.subrange(0, stop_times@.len() as int) =~= stop_times@);
    calls
}

/// Whether one of the rides joins the same cells on the same layer.
fn holds_ride(rides: &Vec<RideEdge>, route: usize, from: u64, to: u64) -> (b: bool)
    ensures
        b == has_ride(rides@, (route, from, to)),
{
    let mut i: usize = 0;
    while i < rides.len()
        invariant
            i <= rides@.len(),
            forall|k: int| 0 <= k < i ==> (#[trigger] rides@[k]).0 != (route, from, to),
        decreases rides@.len() - i,
    {
        let key = rides[i].0;
        if key.0 == route && key.1 == from && key.2 == to {
            return true;
        }
        i += 1;
    }
    false
}

/// The rides of one trip: between each two calls that follow each other,
/// from the arrival at the first to the departure from the second.
pub fn trip_edge_data(trip: &Trip, routes: &Vec<String>, offset: usize) -> (rides: Vec<RideEdge>)
    requires
        in_order(routes@),
    ensures
        rides@ == trip_rides(*trip, routes@, offset),
{
    let route = match route_layer(routes, trip.route_id.as_str(), offset) {
        Some(l) => l,
        None => 0,
    };
    let calls = stops_by_sequence(&trip.stop_times);
    proof {
        lemma_located(trip.stop_times@);
        lemma_by_sequence(located(trip.stop_times@));
    }
    let mut rides: Vec<RideEdge> = Vec::new();
    if calls.len() < 2 {
        return rides;
    }
    let mut i: usize = 1;
    while i < calls.len()
        invariant
            1 <= i <= calls@.len(),
            forall|k: int| 0 <= k < calls@.len() ==> (#[trigger] calls@[k]).cell is Some,
            rides@ == rides_of(calls@, route, i - 1),
        decreases calls@.len() - i,
    {
        let a = calls[i - 1];
        let b = calls[i];
        let duration = match (a.arrival_time, b.departure_time) {
            (Some(x), Some(y)) => ride_duration(x, y),
            _ => None,
        };
        match (duration, a.cell, b.cell) {
            (Some(m), Some(from), Some(to)) => {
                if !holds_ride(&rides, route, from, to) {
                    assert(m * MINUTE <= u64::MAX) by (nonlinear_arith)
                        requires
                            m <= 1440,
                            MINUTE == 1_000_000,
                    ;
                    rides.push(((route, from, to), m * MINUTE));
                }
            },
            _ => {},
        }
        i += 1;
    }
    rides
}

/// Calculates the time it takes to travel between any two stops that follow
/// each other on a trip.
///
/// Each edge names the layer of the route, the cells of the two stops, and
/// the duration of the ride in whole minutes. A ride of less than a whole
/// minute gives no edge.
pub fn calculate_edge_data(trips: &Vec<Trip>, routes: &Vec<String>, offset: usize) -> (rides: Vec<
    RideEdge,
>)
    requires
        in_order(routes@),
    ensures
        rides@ == feed_rides(trips@, routes@, offset, trips@.len() as int),
{
    let mut rides: Vec<RideEdge> = Vec::new();
    let mut i: usize = 0;
    while i < trips.len()
        invariant
            i <= trips@.len(),
            in_order(routes@),
            rides@ == feed_rides(trips@, routes@, offset, i as int),
        decreases trips@.len() - i,
    {
        let mut part = trip_edge_data(&trips[i], routes, offset);
        rides.append(&mut part);
        i += 1;
    }
    rides
}

/// The days on which the service called `service` runs: those of the first
/// calendar entry of that name.
pub open spec fn days_of(calendar: Seq<Calendar>, service: Seq<char>) -> Option<Seq<bool>>
    decreases calendar.len(),
{
    if calendar.len() == 0 {
        None
    } else if calendar[0].service_id@ == service {
        Some(calendar[0].days@)
    } else {
        days_of(calendar.drop_first(), service)
    }
}

/// Whether a call counts as a departure from `cell` on layer `r` in the
/// hour `slot` of the week: it is a call at that cell by a trip of that
/// layer, it departs within that hour of the day, and the service of the
/// trip runs on the day of the slot.
pub open spec fn serves(
    call: StopTime,
    route: Option<usize>,
    days: Option<Seq<bool>>,
    cell: u64,
    r: usize,
    slot: int,
) -> bool {
    &&& call.cell == Some(cell)
    &&& route == Some(r)
    &&& call.departure_time is Some
    &&& call.departure_time->0 < DAY
    &&& 0 <= slot < HOURS_PER_WEEK
    &&& slot % 24 == call.departure_time->0 / 3600
    &&& days is Some
    &&& days->0[slot / 24]
}

/// How many of the first `upto` calls count as departures from `cell` on
/// layer `r` in the hour `slot` of the week.
pub open spec fn trip_departures(
    calls: Seq<StopTime>,
    route: Option<usize>,
    days: Option<Seq<bool>>,
    cell: u64,
    r: usize,
    slot: int,
    upto: int,
) -> nat
    decreases upto,
{
    if upto <= 0 {
        0
    } else {
        trip_departures(calls, route, days, cell, r, slot, upto - 1) + if serves(
            calls[upto - 1],
            route,
            days,
            cell,
            r,
            slot,
        ) {
            1nat
        } else {
            0nat
        }
    }
}

/// How many calls of the first `upto` trips count as departures from
/// `cell` on layer `r` in the hour `slot` of the week.
pub open spec fn departures(
    trips: Seq<Trip>,
    calendar: Seq<Calendar>,
    routes: Seq<String>,
    offset: usize,
    cell: u64,
    r: usize,
    slot: int,
    upto: int,
) -> nat
    decreases upto,
{
    if upto <= 0 {
        0
    } else {
        departures(trips, calendar, routes, offset, cell, r, slot, upto - 1) + trip_departures(
            trips[upto - 1].stop_times@,
            layer_of(routes, trips[upto - 1].route_id@, offset),
            days_of(calendar, trips[upto - 1].service_id@),
            cell,
            r,
            slot,
            trips[upto - 1].stop_times@.len() as int,
        )
    }
}

/// A count as it is stored: held at the largest number where it goes
/// beyond.
pub open spec fn capped(n: nat) -> u64 {
    if n >= u64::MAX {
        u64::MAX
    } else {
        n as u64
    }
}

/// One number for a cell and a layer together.
pub open spec fn pair_key(cell: u64, r: usize) -> u128 {
    (cell * 0x1_0000_0000_0000_0000 + r) as u128
}

/// What a count says of a cell, a layer and an hour of the week.
pub open spec fn tally(count: spec_fn(u64, usize, int) -> nat, cell: u64, r: usize, slot: int) -> nat {
    count(cell, r, slot)
}

/// Whether `table` holds, for each cell and layer that it names, how often
/// the cell is served on the layer in each hour of the week according to
/// `count`, names each pair once, and names exactly those that are served
/// at all; and `index` tells where each pair stands.
pub open spec fn table_ok(
    table: Seq<StopFrequency>,
    index: Map<u128, usize>,
    count: spec_fn(u64, usize, int) -> nat,
) -> bool {
    &&& forall|k: u128| #[trigger]
        index.contains_key(k) ==> index[k] < table.len() && pair_key(
            table[index[k] as int].0.0,
            table[index[k] as int].0.1,
        ) == k
    &&& forall|p: int|
        0 <= p < table.len() ==> index.contains_key(
            pair_key((#[trigger] table[p]).0.0, table[p].0.1),
        ) && index[pair_key(table[p].0.0, table[p].0.1)] == p
    &&& forall|p: int|
        0 <= p < table.len() ==> (#[trigger] table[p]).1@.len() == HOURS_PER_WEEK && served(count, table[p].0.0, table[p].0.1)
    &&& forall|p: int, slot: int|
        0 <= p < table.len() && 0 <= slot < HOURS_PER_WEEK ==> #[trigger] table[p].1@[slot]
            == capped(tally(count, table[p].0.0, table[p].0.1, slot))
    &&& forall|cell: u64, r: usize, slot: int|
        0 <= slot < HOURS_PER_WEEK && #[trigger] tally(count, cell, r, slot) > 0 ==> index.contains_key(
            pair_key(cell, r),
        )
}

/// Different pairs of cell and layer have different numbers.
pub proof fn lemma_pair_key(a: u64, r: usize, b: u64, q: usize)
    requires
        pair_key(a, r) == pair_key(b, q),
    ensures
        a == b,
        r == q,
{
    assert(a * 0x1_0000_0000_0000_0000 + r == b * 0x1_0000_0000_0000_0000 + q ==> a == b && r == q)
        by (nonlinear_arith)
        requires
            0 <= r < 0x1_0000_0000_0000_0000,
            0 <= q < 0x1_0000_0000_0000_0000,
    ;
    assert(a * 0x1_0000_0000_0000_0000 + r <= u128::MAX) by (nonlinear_arith)
        requires
            0 <= a <= 0xffff_ffff_ffff_ffff,
            0 <= r <= 0xffff_ffff_ffff_ffff,
    ;
    assert(b * 0x1_0000_0000_0000_0000 + q <= u128::MAX) by (nonlinear_arith)
        requires
            0 <= b <= 0xffff_ffff_ffff_ffff,
            0 <= q <= 0xffff_ffff_ffff_ffff,
    ;
}

/// The number for a cell and a layer together.
fn pair_key_of(cell: u64, r: usize) -> (k: u128)
    ensures
        k == pair_key(cell, r),
{
    assert(cell * 0x1_0000_0000_0000_0000 + r <= u128::MAX) by (nonlinear_arith)
        requires
            0 <= cell <= 0xffff_ffff_ffff_ffff,
            0 <= r <= 0xffff_ffff_ffff_ffff,
    ;
    assert(cell * 0x1_0000_0000_0000_0000 <= u128::MAX) by (nonlinear_arith)
        requires
            0 <= cell <= 0xffff_ffff_ffff_ffff,
    ;
    (cell as u128) * 0x1_0000_0000_0000_0000 + (r as u128)
}

/// The count with one more departure from `cell` on layer `r` in the hour
/// `hour` of each of the first `upto` days on which `days` holds.
pub open spec fn count_with(
    count: spec_fn(u64, usize, int) -> nat,
    cell: u64,
    r: usize,
    hour: int,
    days: Seq<bool>,
    upto: int,
) -> spec_fn(u64, usize, int) -> nat {
    |c: u64, q: usize, slot: int|
        if c == cell && q == r && 0 <= slot < HOURS_PER_WEEK && slot % 24 == hour && slot / 24
            < upto && days[slot / 24] {
            tally(count, c, q, slot) + 1
        } else {
            tally(count, c, q, slot)
        }
}

/// Whether the service runs on any day of the week.
fn runs_at_all(days: &[bool; 7]) -> (b: bool)
    ensures
        b == exists|d: int| 0 <= d < 7 && days@[d],
{
    let mut d: usize = 0;
    while d < 7
        invariant
            d <= 7,
            forall|k: int| 0 <= k < d ==> !days@[k],
        decreases 7 - d,
    {
        if days[d] {
            return true;
        }
        d += 1;
    }
    false
}

/// Counts one departure from `cell` on layer `r` in the hour `hour` of each
/// day on which the service runs.
fn count_departure(
    table: &mut Vec<StopFrequency>,
    index: &mut HashMap<u128, usize>,
    cell: u64,
    r: usize,
    hour: usize,
    days: &[bool; 7],
    Ghost(count): Ghost<spec_fn(u64, usize, int) -> nat>,
)
    requires
        table_ok(old(table)@, old(index)@, count),
        hour < 24,
        exists|d: int| 0 <= d < 7 && days@[d],
    ensures
        table_ok(final(table)@, final(index)@, count_with(count, cell, r, hour as int, days@, 7)),
{
    broadcast use vstd::std_specs::hash::group_hash_axioms;

    let key = pair_key_of(cell, r);
    let ghost first = choose|d: int| 0 <= d < 7 && days@[d];
    let place = match index.get(&key) {
        Some(p) => *p,
        None => {
            let p = table.len();
            let mut list: Vec<u64> = Vec::new();
            let mut s: usize = 0;
            while s < HOURS_PER_WEEK
                invariant
                    s <= HOURS_PER_WEEK,
                    list@.len() == s,
                    forall|k: int| 0 <= k < s ==> list@[k] == 0,
                decreases HOURS_PER_WEEK - s,
            {
                list.push(0);
                s += 1;
            }
            table.push(((cell, r), list));
            index.insert(key, p);
            p
        },
    };
    let ghost held = table@;
    proof {
        assert(held[place as int].0 == (cell, r)) by {
            if old(index)@.contains_key(key) {
                lemma_pair_key(held[place as int].0.0, held[place as int].0.1, cell, r);
            }
        }
        assert forall|k: u128| #[trigger] index@.contains_key(k) implies index@[k] < held.len()
            && pair_key(held[index@[k] as int].0.0, held[index@[k] as int].0.1) == k by {
            if k != key {
                assert(old(index)@.contains_key(k));
            }
        }
        assert forall|p: int| 0 <= p < held.len() implies index@.contains_key(
            pair_key((#[trigger] held[p]).0.0, held[p].0.1),
        ) && index@[pair_key(held[p].0.0, held[p].0.1)] == p by {
            if p < old(table)@.len() {
                assert(held[p] == old(table)@[p]);
                if pair_key(held[p].0.0, held[p].0.1) == key {
                    lemma_pair_key(held[p].0.0, held[p].0.1, cell, r);
                }
            }
        }
        assert forall|p: int, slot: int|
            0 <= p < held.len() && 0 <= slot < HOURS_PER_WEEK implies #[trigger] held[p].1@[slot]
            == capped(tally(count, held[p].0.0, held[p].0.1, slot)) by {
            if p < old(table)@.len() {
                assert(held[p] == old(table)@[p]);
            } else {
                if tally(count, cell, r, slot) > 0 {
                    assert(old(index)@.contains_key(pair_key(cell, r)));
                }
            }
        }
    }
    let mut day: usize = 0;
    while day < 7
        invariant
            day <= 7,
            hour < 24,
            place < table@.len(),
            table@.len() == held.len(),
            forall|p: int| 0 <= p < table@.len() ==> (#[trigger] table@[p]).0 == held[p].0,
            forall|p: int| 0 <= p < table@.len() ==> (#[trigger] table@[p]).1@.len() == HOURS_PER_WEEK,
            forall|p: int|
                0 <= p < table@.len() && p != place ==> (#[trigger] table@[p]).1@ == held[p].1@,
            forall|p: int| 0 <= p < held.len() ==> (#[trigger] held[p]).1@.len() == HOURS_PER_WEEK,
            table@[place as int].0 == (cell, r),
            forall|slot: int|
                0 <= slot < HOURS_PER_WEEK ==> held[place as int].1@[slot] == capped(
                    tally(count, cell, r, slot),
                ),
            forall|slot: int|
                0 <= slot < HOURS_PER_WEEK ==> #[trigger] table@[place as int].1@[slot] == capped(
                    tally(count_with(count, cell, r, hour as int, days@, day as int), cell, r, slot),
                ),
        decreases 7 - day,
    {
        if days[day] {
            let slot = hour + 24 * day;
            let ghost before = table@;
            let now = table[place].1[slot];
            let more = if now == u64::MAX {
                now
            } else {
                now + 1
            };
            table[place].1[slot] = more;
            proof {
                assert forall|s: int| 0 <= s < HOURS_PER_WEEK implies #[trigger] table@[place as int].1@[s]
                    == capped(
                    tally(count_with(count, cell, r, hour as int, days@, day + 1), cell, r, s),
                ) by {
                    if s == slot {
                        assert(s % 24 == hour && s / 24 == day);
                    } else {
                        assert(table@[place as int].1@[s] == before[place as int].1@[s]);
                        assert(!(s % 24 == hour && s / 24 == day));
                    }
                }
                assert forall|p: int| 0 <= p < table@.len() && p != place implies (
                #[trigger] table@[p]).1@ == held[p].1@ by {
                    assert(table@[p] == before[p]);
                }
                assert forall|p: int| 0 <= p < table@.len() implies (#[trigger] table@[p]).0
                    == held[p].0 by {
                    assert(before[p].0 == held[p].0);
                }
                assert forall|p: int| 0 <= p < table@.len() implies (#[trigger] table@[p]).1@.len()
                    == HOURS_PER_WEEK by {
                    assert(before[p].1@.len() == HOURS_PER_WEEK);
                }
            }
        } else {
            proof {
                assert forall|s: int| 0 <= s < HOURS_PER_WEEK implies #[trigger] table@[place as int].1@[s]
                    == capped(
                    tally(count_with(count, cell, r, hour as int, days@, day + 1), cell, r, s),
                ) by {
                    assert(tally(count_with(count, cell, r, hour as int, days@, day + 1), cell, r, s)
                        == tally(
                        count_with(count, cell, r, hour as int, days@, day as int),
                        cell,
                        r,
                        s,
                    ));
                }
            }
        }
        day += 1;
    }
    proof {
        let after = count_with(count, cell, r, hour as int, days@, 7);
        assert forall|k: u128| #[trigger] index@.contains_key(k) implies index@[k] < table@.len()
            && pair_key(table@[index@[k] as int].0.0, table@[index@[k] as int].0.1) == k by {
            assert(table@[index@[k] as int].0 == held[index@[k] as int].0);
        }
        assert forall|p: int| 0 <= p < table@.len() implies index@.contains_key(
            pair_key((#[trigger] table@[p]).0.0, table@[p].0.1),
        ) && index@[pair_key(table@[p].0.0, table@[p].0.1)] == p by {
            assert(table@[p].0 == held[p].0);
        }
        assert forall|p: int| 0 <= p < table@.len() implies (#[trigger] table@[p]).1@.len()
            == HOURS_PER_WEEK && served(after, table@[p].0.0, table@[p].0.1) by {
            assert(table@[p].0 == held[p].0);
            if p == place {
                let slot = hour + 24 * first;
                assert(slot % 24 == hour && slot / 24 == first);
                assert(tally(after, cell, r, slot) > 0);
            } else {
                assert(p < old(table)@.len());
                assert(held[p] == old(table)@[p]);
                let slot = choose|slot: int|
                    0 <= slot < HOURS_PER_WEEK && tally(count, old(table)@[p].0.0, old(table)@[p].0.1, slot)
                        > 0;
                assert(tally(after, table@[p].0.0, table@[p].0.1, slot) > 0);
            }
        }
        assert forall|p: int, slot: int|
            0 <= p < table@.len() && 0 <= slot < HOURS_PER_WEEK implies #[trigger] table@[p].1@[slot]
            == capped(tally(after, table@[p].0.0, table@[p].0.1, slot)) by {
            assert(table@[p].0 == held[p].0);
            if p != place {
                assert(table@[p].1@ == held[p].1@);
                if table@[p].0 == (cell, r) {
                    assert(index@[pair_key(cell, r)] == p);
                }
            }
        }
        assert forall|c: u64, q: usize, slot: int|
            0 <= slot < HOURS_PER_WEEK && #[trigger] tally(after, c, q, slot) > 0 implies index@.contains_key(
            pair_key(c, q),
        ) by {
            if !(c == cell && q == r) {
                assert(tally(count, c, q, slot) > 0);
                assert(old(index)@.contains_key(pair_key(c, q)));
            }
        }
    }
}

/// The count after the first `i` trips and the first `j` calls of the next.
pub open spec fn running_count(
    trips: Seq<Trip>,
    calendar: Seq<Calendar>,
    routes: Seq<String>,
    offset: usize,
    i: int,
    j: int,
) -> spec_fn(u64, usize, int) -> nat {
    |c: u64, r: usize, slot: int|
        departures(trips, calendar, routes, offset, c, r, slot, i) + trip_departures(
            trips[i].stop_times@,
            layer_of(routes, trips[i].route_id@, offset),
            days_of(calendar, trips[i].service_id@),
            c,
            r,
            slot,
            j,
        )
}

/// The count over all trips.
pub open spec fn total_count(
    trips: Seq<Trip>,
    calendar: Seq<Calendar>,
    routes: Seq<String>,
    offset: usize,
) -> spec_fn(u64, usize, int) -> nat {
    |c: u64, r: usize, slot: int|
        departures(trips, calendar, routes, offset, c, r, slot, trips.len() as int)
}

/// Whether `table` tells how often each cell is served on each layer in
/// each hour of the week: it names each pair of cell and layer once, names
/// exactly the pairs that are served at all, and holds for each the
/// departures in each of the 168 hours.
pub open spec fn frequencies_ok(table: Seq<StopFrequency>, count: spec_fn(u64, usize, int) -> nat) -> bool {
    &&& forall|p: int, q: int| 0 <= p < q < table.len() ==> (#[trigger] table[p]).0 != (#[trigger] table[q]).0
    &&& forall|p: int| 0 <= p < table.len() ==> (#[trigger] table[p]).1@.len() == HOURS_PER_WEEK
    &&& forall|p: int, slot: int|
        0 <= p < table.len() && 0 <= slot < HOURS_PER_WEEK ==> #[trigger] table[p].1@[slot]
            == capped(tally(count, table[p].0.0, table[p].0.1, slot))
    &&& forall|cell: u64, r: usize| #[trigger] names_pair(table, cell, r) <==> served(count, cell, r)
}

/// Whether the table has an entry for a cell and a layer.
pub open spec fn names_pair(table: Seq<StopFrequency>, cell: u64, r: usize) -> bool {
    exists|p: int| 0 <= p < table.len() && (#[trigger] table[p]).0 == (cell, r)
}

/// Whether a cell is served on a layer in any hour of the week.
pub open spec fn served(count: spec_fn(u64, usize, int) -> nat, cell: u64, r: usize) -> bool {
    exists|slot: int| 0 <= slot < HOURS_PER_WEEK && #[trigger] tally(count, cell, r, slot) > 0
}

/// A table that is right for one count is right for every count that says
/// the same.
proof fn lemma_table_same(
    table: Seq<StopFrequency>,
    index: Map<u128, usize>,
    f: spec_fn(u64, usize, int) -> nat,
    g: spec_fn(u64, usize, int) -> nat,
)
    requires
        table_ok(table, index, f),
        forall|c: u64, r: usize, slot: int| #[trigger] tally(g, c, r, slot) == tally(f, c, r, slot),
    ensures
        table_ok(table, index, g),
{
    assert forall|p: int| 0 <= p < table.len() implies (#[trigger] table[p]).1@.len() == HOURS_PER_WEEK
        && served(g, table[p].0.0, table[p].0.1) by {
        assert(served(f, table[p].0.0, table[p].0.1));
        let slot = choose|slot: int|
            0 <= slot < HOURS_PER_WEEK && #[trigger] tally(f, table[p].0.0, table[p].0.1, slot) > 0;
        assert(tally(g, table[p].0.0, table[p].0.1, slot) > 0);
    }
    assert forall|p: int, slot: int|
        0 <= p < table.len() && 0 <= slot < HOURS_PER_WEEK implies #[trigger] table[p].1@[slot]
        == capped(tally(g, table[p].0.0, table[p].0.1, slot)) by {
        assert(tally(g, table[p].0.0, table[p].0.1, slot) == tally(
            f,
            table[p].0.0,
            table[p].0.1,
            slot,
        ));
    }
    assert forall|cell: u64, r: usize, slot: int|
        0 <= slot < HOURS_PER_WEEK && #[trigger] tally(g, cell, r, slot) > 0 implies index.contains_key(
        pair_key(cell, r),
    ) by {
        assert(tally(f, cell, r, slot) > 0);
    }
}

/// A table with its index in order tells the frequencies.
proof fn lemma_table_done(
    table: Seq<StopFrequency>,
    index: Map<u128, usize>,
    f: spec_fn(u64, usize, int) -> nat,
)
    requires
        table_ok(table, index, f),
    ensures
        frequencies_ok(table, f),
{
    assert forall|p: int, q: int| 0 <= p < q < table.len() implies (#[trigger] table[p]).0 != (
    #[trigger] table[q]).0 by {
        assert(index[pair_key(table[p].0.0, table[p].0.1)] == p);
        assert(index[pair_key(table[q].0.0, table[q].0.1)] == q);
    }
    assert forall|cell: u64, r: usize| #[trigger]
        names_pair(table, cell, r) <==> served(f, cell, r) by {
        if names_pair(table, cell, r) {
            let p = choose|p: int| 0 <= p < table.len() && (#[trigger] table[p]).0 == (cell, r);
            let slot = choose|slot: int|
                0 <= slot < HOURS_PER_WEEK && tally(f, table[p].0.0, table[p].0.1, slot) > 0;
            assert(tally(f, cell, r, slot) > 0);
        }
        if served(f, cell, r) {
            let slot = choose|slot: int|
                0 <= slot < HOURS_PER_WEEK && #[trigger] tally(f, cell, r, slot) > 0;
            let k = pair_key(cell, r);
            assert(index.contains_key(k));
            let p = index[k] as int;
            lemma_pair_key(table[p].0.0, table[p].0.1, cell, r);
            assert(table[p].0 == (cell, r));
        }
    }
}

/// The days on which the service called `service` runs.
pub fn service_days(calendar: &Vec<Calendar>, service: &str) -> (r: Option<[bool; 7]>)
    ensures
        match r {
            Some(d) => days_of(calendar@, service@) == Some(d@),
            None => days_of(calendar@, service@) is None,
        },
{
    let mut i: usize = 0;
    assert(calendar@.skip(0) =~= calendar@);
    while i < calendar.len()
        invariant
            i <= calendar@.len(),
            days_of(calendar@, service@) == days_of(calendar@.skip(i as int), service@),
        decreases calendar@.len() - i,
    {
        proof {
            assert(calendar@.skip(i as int).drop_first() =~= calendar@.skip(i + 1));
            assert(calendar@.skip(i as int)[0] == calendar@[i as int]);
        }
        match place_of(calendar[i].service_id.as_str(), service) {
            Place::Same => {
                return Some(calendar[i].days);
            },
            _ => {},
        }
        i += 1;
    }
    None
}

/// Calculates how often each stop is served by each route.
///
/// Frequencies are kept per cell of a stop and layer of a route, for each
/// hour of the week: the number of departures in that hour. A call counts
/// where its stop has a cell, its departure is a time of day, its route is
/// known and its service has a calendar; it counts once for each day on
/// which the service runs.
pub fn calcualte_stop_frequencies(
    trips: &Vec<Trip>,
    calendar: &Vec<Calendar>,
    routes: &Vec<String>,
    offset: usize,
) -> (table: Vec<StopFrequency>)
    requires
        in_order(routes@),
    ensures
        frequencies_ok(table@, total_count(trips@, calendar@, routes@, offset)),
{
    broadcast use vstd::std_specs::hash::group_hash_axioms;

    let mut table: Vec<StopFrequency> = Vec::new();
    let mut index: HashMap<u128, usize> = HashMap::new();
    let mut i: usize = 0;
    while i < trips.len()
        invariant
            i <= trips@.len(),
            in_order(routes@),
            table_ok(table@, index@, running_count(trips@, calendar@, routes@, offset, i as int, 0)),
        decreases trips@.len() - i,
    {
        let trip = &trips[i];
        let route = route_layer(routes, trip.route_id.as_str(), offset);
        let days = service_days(calendar, trip.service_id.as_str());
        let ghost route_spec = layer_of(routes@, trip.route_id@, offset);
        let ghost days_spec = days_of(calendar@, trip.service_id@);
        let mut j: usize = 0;
        while j < trip.stop_times.len()
            invariant
                j <= trip.stop_times@.len(),
                i < trips@.len(),
                *trip == trips@[i as int],
                route == route_spec,
                route_spec == layer_of(routes@, trip.route_id@, offset),
                days_spec == days_of(calendar@, trip.service_id@),
                match days {
                    Some(d) => days_spec == Some(d@),
                    None => days_spec is None,
                },
                table_ok(
                    table@,
                    index@,
                    running_count(trips@, calendar@, routes@, offset, i as int, j as int),
                ),
            decreases trip.stop_times@.len() - j,
        {
            let call = trip.stop_times[j];
            let ghost now = running_count(trips@, calendar@, routes@, offset, i as int, j as int);
            let ghost next = running_count(trips@, calendar@, routes@, offset, i as int, j + 1);
            let mut counted = false;
            match (call.cell, call.departure_time, route, days) {
                (Some(cell), Some(t), Some(r), Some(d)) => {
                    if t < DAY && runs_at_all(&d) {
                        let hour = (t / 3600) as usize;
                        count_departure(&mut table, &mut index, cell, r, hour, &d, Ghost(now));
                        proof {
                            let with = count_with(now, cell, r, hour as int, d@, 7);
                            assert forall|c: u64, q: usize, slot: int| #[trigger]
                                tally(next, c, q, slot) == tally(with, c, q, slot) by {
                                assert(serves(call, route_spec, days_spec, c, q, slot) <==> (c
                                    == cell && q == r && 0 <= slot < HOURS_PER_WEEK && slot % 24
                                    == hour && d@[slot / 24]));
                            }
                            lemma_table_same(table@, index@, with, next);
                        }
                        counted = true;
                    }
                },
                _ => {},
            }
            proof {
                if !counted {
                    assert forall|c: u64, q: usize, slot: int| #[trigger]
                        tally(next, c, q, slot) == tally(now, c, q, slot) by {
                        assert(!serves(call, route_spec, days_spec, c, q, slot));
                    }
                    lemma_table_same(table@, index@, now, next);
                }
            }
            j += 1;
        }
        proof {
            let done = running_count(
                trips@,
                calendar@,
                routes@,
                offset,
                i as int,
                trip.stop_times@.len() as int,
            );
            let next = running_count(trips@, calendar@, routes@, offset, i + 1, 0);
            assert forall|c: u64, q: usize, slot: int| #[trigger]
                tally(next, c, q, slot) == tally(done, c, q, slot) by {}
            lemma_table_same(table@, index@, done, next);
        }
        i += 1;
    }
    proof {
        let done = running_count(trips@, calendar@, routes@, offset, trips@.len() as int, 0);
        let total = total_count(trips@, calendar@, routes@, offset);
        assert forall|c: u64, q: usize, slot: int| #[trigger]
            tally(total, c, q, slot) == tally(done, c, q, slot) by {}
        lemma_table_same(table@, index@, done, total);
        lemma_table_done(table@, index@, total);
    }
    table
}

/// The routes of a feed and what is read from its trips: the rides between
/// stops and the frequencies at stops. The layers of the routes are their
/// places in the order of the dictionary, counted from
/// `route_index_offset`.
pub fn process_gtfs(feed: &GtfsFeed, route_index_offset: usize) -> (r: GtfsProcessingResult)
    ensures
        r.edge_data@ == feed_rides(
            feed.trips@,
            r.routes@,
            route_index_offset,
            feed.trips@.len() as int,
        ),
        frequencies_ok(
            r.stop_frequencies@,
            total_count(feed.trips@, feed.calendar@, r.routes@, route_index_offset),
        ),
        in_order(r.routes@),
        forall|id: Seq<char>| lists(r.routes@, id) <==> lists(feed.routes@, id),
        r.nr_routes == r.routes@.len(),
{
    let routes = sort_routes(&feed.routes);
    let edge_data = calculate_edge_data(&feed.trips, &routes, route_index_offset);
    let stop_frequencies = calcualte_stop_frequencies(
        &feed.trips,
        &feed.calendar,
        &routes,
        route_index_offset,
    );
    let nr_routes = routes.len();
    GtfsProcessingResult { edge_data, stop_frequencies, nr_routes, routes }
}


} // verus!
