//! Why a step keeps the timeline in order: timed, contiguous, and handing
//! over what the packages are marked with.

use vstd::prelude::*;
use crate::destination::{tos, DestinationView};
use crate::graph::{remembered, sources, PathTableView};
use crate::movement::MovementView;
use crate::package::{package_names, PackageView};
use crate::paths::{
    follows, is_path_table, legs_non_negative, lemma_walk_legs_non_negative,
    lemma_walk_len_non_negative, sound, AdjacencyView,
};
use crate::route::RouteView;
use crate::candidates::CandidateView;
use crate::search::{
    advance, goal, hand_over, hand_over_all, route, set_out, settle, take_on, take_on_all, way,
    HoldView,
};
use crate::table::{distinct, lemma_position, position};
use crate::timeline::{
    due, handed_over, last_end, leg_count, leg_length, moved, stop, time_at, times_fit, trip,
    TripView,
};
use crate::train::{train_names, TrainView};
use crate::paths::{legs_of, station_before};
use crate::validity::{
    chained, contiguous, delivered_in, hands_over, known_trains, lemma_chain_order,
    lemma_last_end, lemma_runs_add, lemma_runs_has, lemma_runs_own, lemma_runs_timed, on_leg,
    on_legs, runs, starts_right, timed,
};

verus! {

/// The way starts at `from`, and none of its distances is negative.
pub open spec fn way_ok(d: DestinationView, from: Seq<char>) -> bool {
    &&& d.from == from
    &&& d.cumulative_distance >= 0
    &&& d.distance >= 0
    &&& forall|c: int| 0 <= c < d.checkpoints.len() ==> (#[trigger] d.checkpoints[c]).distance >= 0
}

/// Every way that the oracle knows starts at the source of its table, and
/// none of its distances is negative.
pub open spec fn ways_ok(known: Seq<PathTableView>) -> bool {
    forall|i: int, k: int|
        0 <= i < known.len() && 0 <= k < known[i].destinations.len() ==> way_ok(
            #[trigger] known[i].destinations[k],
            known[i].source,
        )
}

/// Every record of a path table is a way from its source without a negative distance.
pub proof fn lemma_path_table_way(
    adj: Seq<AdjacencyView>,
    source: Seq<char>,
    t: Seq<DestinationView>,
    k: int,
)
    requires
        legs_non_negative(adj),
        is_path_table(adj, source, t),
        0 <= k < t.len(),
    ensures
        way_ok(t[k], source),
{
    assert(sound(adj, source, t[k]));
    let p = choose|p: Seq<RouteView>| follows(adj, source, t[k], p);
    lemma_walk_len_non_negative(adj, source, p);
    lemma_walk_legs_non_negative(adj, source, p);
    if p.len() > 0 {
        assert(p.last() == p[p.len() - 1]);
    }
    assert forall|c: int| 0 <= c < t[k].checkpoints.len() implies (
    #[trigger] t[k].checkpoints[c]).distance >= 0 by {
        assert(t[k].checkpoints[c] == p[c]);
    }
}

/// Where every remembered table is the path table of its source, every way that is known is in order.
pub proof fn lemma_known_ways(adj: Seq<AdjacencyView>, known: Seq<PathTableView>)
    requires
        legs_non_negative(adj),
        forall|i: int|
            0 <= i < known.len() ==> is_path_table(
                adj,
                (#[trigger] known[i]).source,
                known[i].destinations,
            ),
    ensures
        ways_ok(known),
{
    assert forall|i: int, k: int|
        0 <= i < known.len() && 0 <= k < known[i].destinations.len() implies way_ok(
        #[trigger] known[i].destinations[k],
        known[i].source,
    ) by {
        lemma_path_table_way(adj, known[i].source, known[i].destinations, k);
    }
}

/// The way that the oracle answers with is in order.
pub proof fn lemma_route_ok(known: Seq<PathTableView>, from: Seq<char>, to: Seq<char>)
    requires
        ways_ok(known),
        route(known, from, to) is Some,
        route(known, from, to).unwrap() is Ok,
    ensures
        way_ok(route(known, from, to).unwrap().unwrap(), from),
{
    lemma_position(sources(known), from);
    let i = position(sources(known), from).unwrap();
    let t = known[i].destinations;
    lemma_position(tos(t), to);
    let k = position(tos(t), to).unwrap();
    assert(way_ok(known[i].destinations[k], known[i].source));
}

/// The way that a step takes is in order.
pub proof fn lemma_way_ok(
    known: Seq<PathTableView>,
    from: Seq<char>,
    package: PackageView,
    is_pickup: bool,
)
    requires
        ways_ok(known),
        way(known, from, package, is_pickup) is Some,
        way(known, from, package, is_pickup).unwrap() is Ok,
    ensures
        way_ok(way(known, from, package, is_pickup).unwrap().unwrap(), from),
{
    lemma_route_ok(known, from, goal(package, is_pickup));
}

/// Along a way without a negative distance, time does not go back.
pub proof fn lemma_time_goes_on(d: DestinationView, start: int, m: int)
    requires
        d.distance >= 0,
        forall|c: int| 0 <= c < d.checkpoints.len() ==> (#[trigger] d.checkpoints[c]).distance >= 0,
        m >= 0,
    ensures
        time_at(d, start, m) <= time_at(d, start, m + 1),
        time_at(d, start, m + 1) == time_at(d, start, m) + leg_length(d, m),
        leg_length(d, m) >= 0,
{
    if 0 <= m < d.checkpoints.len() {
        assert(d.checkpoints[m].distance >= 0);
    }
}

/// The legs of a trip: all of the one train, timed, joined end to end, from
/// where the way starts to where it ends, the first at the time the trip starts.
pub proof fn lemma_trip_legs(
    train: TrainView,
    d: DestinationView,
    packages: Seq<PackageView>,
    start: int,
)
    requires
        d.distance >= 0,
        forall|c: int| 0 <= c < d.checkpoints.len() ==> (#[trigger] d.checkpoints[c]).distance >= 0,
        times_fit(d, start),
    ensures
        ({
            let legs = trip(train, d, packages, start);
            &&& legs.len() == leg_count(d)
            &&& forall|j: int| 0 <= j < legs.len() ==> (#[trigger] legs[j]).train == train.name
            &&& timed(legs)
            &&& chained(legs)
            &&& legs[0].start_time == start
            &&& legs[0].from == d.from
            &&& legs.last().to == d.to
        }),
{
    let legs = trip(train, d, packages, start);
    assert forall|j: int| 0 <= j < legs.len() implies (#[trigger] legs[j]).start_time
        <= legs[j].end_time <= i32::MAX by {
        lemma_time_goes_on(d, start, j);
        assert(time_at(d, start, j + 1) <= i32::MAX);
    }
    assert forall|j: int| 1 <= j < legs.len() implies (#[trigger] legs[j]).start_time == legs[j
        - 1].end_time && legs[j].from == legs[j - 1].to by {}
}

/// What the first `m` legs hand over, some leg among them hands over.
pub proof fn lemma_handed_over(
    train: TrainView,
    d: DestinationView,
    packages: Seq<PackageView>,
    m: int,
    name: Seq<char>,
)
    requires
        handed_over(train, d, packages, m).contains(name),
    ensures
        exists|j: int, k: int|
            0 <= j < m && 0 <= k < due(train.claimed(), packages, stop(d, j)).unwrap().len()
                && #[trigger] due(train.claimed(), packages, stop(d, j)).unwrap()[k] == name,
    decreases m,
{
    if m > 0 {
        let before = handed_over(train, d, packages, m - 1);
        let now = due(train.claimed(), packages, stop(d, m - 1)).unwrap();
        let all = before + now;
        let at = choose|at: int| 0 <= at < all.len() && all[at] == name;
        if at < before.len() {
            assert(before[at] == name);
            lemma_handed_over(train, d, packages, m - 1, name);
        } else {
            assert(now[at - before.len()] == name);
        }
    }
}

/// A trip leaves the timeline timed and contiguous, with the movements of
/// the other trains as they were and those of its train ending where the
/// way ends; what was handed over stays so, and what the trip hands over is
/// handed over by its legs.
pub proof fn lemma_moved_ok(
    train: TrainView,
    d: DestinationView,
    packages: Seq<PackageView>,
    movements: Seq<MovementView>,
    names: Seq<Seq<char>>,
)
    requires
        moved(train, d, packages, movements) is Ok,
        way_ok(d, train.current_location),
        timed(movements),
        contiguous(movements),
        known_trains(movements, names),
        names.contains(train.name),
        runs(movements, train.name).len() > 0 ==> train.current_location == runs(
            movements,
            train.name,
        ).last().to,
    ensures
        ({
            let after = moved(train, d, packages, movements).unwrap();
            &&& timed(after.movements)
            &&& contiguous(after.movements)
            &&& known_trains(after.movements, names)
            &&& forall|other: Seq<char>|
                other != train.name ==> #[trigger] runs(after.movements, other) == runs(
                    movements,
                    other,
                )
            &&& d.cumulative_distance == 0 ==> after.movements == movements
            &&& d.cumulative_distance != 0 ==> runs(after.movements, train.name).len() > 0
                && runs(after.movements, train.name).last().to == d.to
            &&& forall|name: Seq<char>| #[trigger]
                delivered_in(movements, name) ==> delivered_in(after.movements, name)
            &&& forall|name: Seq<char>| #[trigger]
                after.delivered.contains(name) ==> delivered_in(after.movements, name)
        }),
{
    let after = moved(train, d, packages, movements).unwrap();
    if d.cumulative_distance != 0 {
        let start = last_end(movements, train.name);
        let legs = trip(train, d, packages, start);
        lemma_trip_legs(train, d, packages, start);
        lemma_last_end(movements, train.name);
        let whole = movements + legs;
        assert forall|j: int| 0 <= j < whole.len() implies (#[trigger] whole[j]).start_time
            <= whole[j].end_time <= i32::MAX && names.contains(whole[j].train) by {
            if j < movements.len() {
                assert(whole[j] == movements[j]);
            } else {
                assert(whole[j] == legs[j - movements.len()]);
            }
        }
        assert forall|other: Seq<char>| chained(#[trigger] runs(whole, other)) && (other
            != train.name ==> runs(whole, other) == runs(movements, other)) by {
            lemma_runs_add(movements, legs, other);
            lemma_runs_own(legs, train.name, other);
            let old_runs = runs(movements, other);
            assert(chained(old_runs));
            if other == train.name {
                let r = old_runs + legs;
                assert forall|j: int| 1 <= j < r.len() implies (#[trigger] r[j]).start_time == r[j
                    - 1].end_time && r[j].from == r[j - 1].to by {
                    if j < old_runs.len() {
                        assert(r[j] == old_runs[j]);
                        assert(r[j - 1] == old_runs[j - 1]);
                    } else if j == old_runs.len() {
                        assert(r[j] == legs[0]);
                        assert(r[j - 1] == old_runs.last());
                    } else {
                        assert(r[j] == legs[j - old_runs.len()]);
                        assert(r[j - 1] == legs[j - old_runs.len() - 1]);
                    }
                }
            } else {
                assert(old_runs + Seq::<MovementView>::empty() =~= old_runs);
            }
        }
        assert(runs(whole, train.name).last().to == d.to) by {
            lemma_runs_add(movements, legs, train.name);
            lemma_runs_own(legs, train.name, train.name);
            let r = runs(movements, train.name) + legs;
            assert(r.last() == legs.last());
        }
        assert forall|name: Seq<char>| #[trigger] delivered_in(movements, name) implies delivered_in(
            whole,
            name,
        ) by {
            let (j, k) = choose|j: int, k: int| hands_over(movements, j, k, name);
            assert(whole[j] == movements[j]);
            assert(hands_over(whole, j, k, name));
        }
        assert forall|name: Seq<char>| #[trigger] after.delivered.contains(name) implies delivered_in(
            whole,
            name,
        ) by {
            lemma_handed_over(train, d, packages, leg_count(d) as int, name);
            let (j, k) = choose|j: int, k: int|
                0 <= j < leg_count(d) && 0 <= k < due(
                    train.claimed(),
                    packages,
                    stop(d, j),
                ).unwrap().len() && #[trigger] due(train.claimed(), packages, stop(d, j)).unwrap()[k]
                    == name;
            assert(whole[movements.len() + j] == legs[j]);
            assert(hands_over(whole, movements.len() + j, k, name));
        }
    } else {
        assert forall|name: Seq<char>| #[trigger] after.delivered.contains(name) implies delivered_in(
            after.movements,
            name,
        ) by {
            let k = choose|k: int| 0 <= k < after.delivered.len() && after.delivered[k] == name;
        }
    }
}

/// A step on its way has the train, the package and the table it started
/// with, but for the lists of the train and the marks of the packages.
pub open spec fn same_base(h: HoldView, g: HoldView) -> bool {
    &&& g.train.name == h.train.name
    &&& g.train.start == h.train.start
    &&& g.train.current_location == h.train.current_location
    &&& g.train.capacity == h.train.capacity
    &&& g.train.total_distance == h.train.total_distance
    &&& g.package.name == h.package.name
    &&& g.package.from == h.package.from
    &&& g.package.to == h.package.to
    &&& g.package.weight == h.package.weight
    &&& g.packages.len() == h.packages.len()
    &&& forall|i: int|
        0 <= i < h.packages.len() ==> (#[trigger] g.packages[i]).name == h.packages[i].name
            && g.packages[i].from == h.packages[i].from && g.packages[i].to == h.packages[i].to
            && g.packages[i].weight == h.packages[i].weight
}

/// Between `h` and `g` no package came to be delivered but those named.
pub open spec fn delivers_only(h: HoldView, g: HoldView, names: Seq<Seq<char>>) -> bool {
    &&& g.package.is_delivered() ==> h.package.is_delivered() || names.contains(h.package.name)
    &&& forall|i: int|
        0 <= i < g.packages.len() && i < h.packages.len() && (
        #[trigger] g.packages[i]).is_delivered() ==> h.packages[i].is_delivered()
            || names.contains(h.packages[i].name)
}

/// Taking packages on board delivers none.
pub proof fn lemma_take_on_all(h: HoldView, names: Seq<Seq<char>>)
    requires
        take_on_all(h, names) is Ok,
    ensures
        same_base(h, take_on_all(h, names).unwrap()),
        delivers_only(h, take_on_all(h, names).unwrap(), Seq::empty()),
    decreases names.len(),
{
    if names.len() > 0 {
        lemma_take_on_all(h, names.drop_last());
        let mid = take_on_all(h, names.drop_last()).unwrap();
        let g = take_on(mid, names.last()).unwrap();
        lemma_position(package_names(mid.packages), names.last());
        assert forall|i: int|
            0 <= i < g.packages.len() && i < h.packages.len() && (
            #[trigger] g.packages[i]).is_delivered() implies h.packages[i].is_delivered() by {
            assert(mid.packages[i].name == h.packages[i].name);
            if !mid.packages[i].is_delivered() {
                assert(g.packages[i] != mid.packages[i]);
            }
        }
        assert forall|i: int| 0 <= i < h.packages.len() implies (#[trigger] g.packages[i]).name
            == h.packages[i].name && g.packages[i].from == h.packages[i].from && g.packages[i].to
            == h.packages[i].to && g.packages[i].weight == h.packages[i].weight by {
            assert(mid.packages[i].name == h.packages[i].name);
        }
    }
}

/// Handing packages over delivers those that are handed over, and no other.
pub proof fn lemma_hand_over_all(h: HoldView, names: Seq<Seq<char>>)
    requires
        hand_over_all(h, names) is Ok,
    ensures
        same_base(h, hand_over_all(h, names).unwrap()),
        delivers_only(h, hand_over_all(h, names).unwrap(), names),
    decreases names.len(),
{
    if names.len() > 0 {
        lemma_hand_over_all(h, names.drop_last());
        let mid = hand_over_all(h, names.drop_last()).unwrap();
        let g = hand_over(mid, names.last()).unwrap();
        lemma_position(package_names(mid.packages), names.last());
        assert(names.last() == names[names.len() - 1]);
        assert(names.contains(names.last()));
        assert forall|x: Seq<char>| names.drop_last().contains(x) implies names.contains(x) by {
            let k = choose|k: int| 0 <= k < names.drop_last().len() && names.drop_last()[k] == x;
            assert(names[k] == x);
        }
        assert forall|i: int|
            0 <= i < g.packages.len() && i < h.packages.len() && (
            #[trigger] g.packages[i]).is_delivered() implies h.packages[i].is_delivered()
            || names.contains(h.packages[i].name) by {
            assert(mid.packages[i].name == h.packages[i].name);
            if mid.packages[i].is_delivered() {
            } else {
                assert(g.packages[i] != mid.packages[i]);
                assert(package_names(mid.packages)[i] == names.last());
            }
        }
        assert forall|i: int| 0 <= i < h.packages.len() implies (#[trigger] g.packages[i]).name
            == h.packages[i].name && g.packages[i].from == h.packages[i].from && g.packages[i].to
            == h.packages[i].to && g.packages[i].weight == h.packages[i].weight by {
            assert(mid.packages[i].name == h.packages[i].name);
        }
    } else {
        assert(hand_over_all(h, names).unwrap() == h);
    }
}

/// What settling a trip changes: the timeline is that of the trip; of the
/// trains only the one that moved, which keeps its name and stands where
/// the way ends, if the way has a length; the packages keep their names,
/// and none comes to be delivered that the trip did not hand over.
pub proof fn lemma_settle(
    trains: Seq<TrainView>,
    packages: Seq<PackageView>,
    ti: int,
    pi: int,
    c: CandidateView,
    d: DestinationView,
    trip: TripView,
)
    requires
        position(train_names(trains), trains[ti].name) == Some(ti),
        position(package_names(packages), packages[pi].name) == Some(pi),
        0 <= ti < trains.len(),
        0 <= pi < packages.len(),
        settle(trains, packages, trains[ti], packages[pi], c, d, trip) is Ok,
    ensures
        ({
            let next = settle(trains, packages, trains[ti], packages[pi], c, d, trip).unwrap();
            &&& next.movements == trip.movements
            &&& next.trains.len() == trains.len()
            &&& train_names(next.trains) == train_names(trains)
            &&& forall|i: int| 0 <= i < trains.len() && i != ti ==> next.trains[i] == trains[i]
            &&& next.trains[ti].current_location == if d.cumulative_distance > 0 {
                d.to
            } else {
                trains[ti].current_location
            }
            &&& next.packages.len() == packages.len()
            &&& package_names(next.packages) == package_names(packages)
            &&& forall|i: int|
                0 <= i < packages.len() && (#[trigger] next.packages[i]).is_delivered()
                    ==> packages[i].is_delivered() || trip.delivered.contains(packages[i].name)
        }),
{
    let start = set_out(trains[ti], packages[pi], packages, c, d);
    let loaded = take_on_all(start, trip.picked_up).unwrap();
    let h = hand_over_all(loaded, trip.delivered).unwrap();
    let next = settle(trains, packages, trains[ti], packages[pi], c, d, trip).unwrap();
    lemma_take_on_all(start, trip.picked_up);
    lemma_hand_over_all(loaded, trip.delivered);
    assert(h.train.name == trains[ti].name);
    assert(next.trains == trains.update(ti, h.train));
    assert(train_names(next.trains) =~= train_names(trains));
    assert(package_names(h.packages) =~= package_names(packages)) by {
        assert forall|i: int| 0 <= i < packages.len() implies package_names(h.packages)[i]
            == package_names(packages)[i] by {
            assert(loaded.packages[i].name == start.packages[i].name);
            assert(h.packages[i].name == loaded.packages[i].name);
        }
    }
    assert(h.package.name == packages[pi].name);
    assert(next.packages == h.packages.update(pi, h.package));
    assert(package_names(next.packages) =~= package_names(packages));
    assert forall|i: int|
        0 <= i < packages.len() && (#[trigger] next.packages[i]).is_delivered()
            implies packages[i].is_delivered() || trip.delivered.contains(packages[i].name) by {
        if i == pi {
            assert(next.packages[i] == h.package);
            if !loaded.package.is_delivered() {
                assert(trip.delivered.contains(loaded.package.name));
            }
        } else {
            assert(next.packages[i] == h.packages[i]);
            assert(loaded.packages[i].name == start.packages[i].name);
            if !loaded.packages[i].is_delivered() {
                assert(trip.delivered.contains(loaded.packages[i].name));
            } else {
                assert(start.packages[i].is_delivered());
            }
        }
    }
}

/// The state is in order: no two trains of one name, and fewer trains than
/// an `i32` can count; the timeline timed, contiguous, and of these trains;
/// each train that has moved stands where its last movement ended; each
/// package that is marked as delivered is handed over in the timeline.
pub open spec fn timeline_ok(
    trains: Seq<TrainView>,
    packages: Seq<PackageView>,
    movements: Seq<MovementView>,
) -> bool {
    &&& distinct(train_names(trains))
    &&& trains.len() < i32::MAX
    &&& timed(movements)
    &&& contiguous(movements)
    &&& known_trains(movements, train_names(trains))
    &&& forall|i: int|
        0 <= i < trains.len() && runs(movements, (#[trigger] trains[i]).name).len() > 0
            ==> trains[i].current_location == runs(movements, trains[i].name).last().to
    &&& forall|i: int|
        0 <= i < packages.len() && (#[trigger] packages[i]).is_delivered() ==> delivered_in(
            movements,
            packages[i].name,
        )
}

/// A step keeps the state in order, and the names of the trains and of the packages.
pub proof fn lemma_advance_ok(
    known: Seq<PathTableView>,
    trains: Seq<TrainView>,
    packages: Seq<PackageView>,
    movements: Seq<MovementView>,
    c: CandidateView,
)
    requires
        ways_ok(known),
        timeline_ok(trains, packages, movements),
        advance(known, trains, packages, movements, c) is Some,
        advance(known, trains, packages, movements, c).unwrap() is Ok,
    ensures
        ({
            let next = advance(known, trains, packages, movements, c).unwrap().unwrap();
            &&& timeline_ok(next.trains, next.packages, next.movements)
            &&& train_names(next.trains) == train_names(trains)
            &&& package_names(next.packages) == package_names(packages)
        }),
{
    let next = advance(known, trains, packages, movements, c).unwrap().unwrap();
    lemma_position(train_names(trains), c.train);
    lemma_position(package_names(packages), c.package);
    let ti = position(train_names(trains), c.train).unwrap();
    let pi = position(package_names(packages), c.package).unwrap();
    let train = trains[ti];
    let package = packages[pi];
    let names = train_names(trains);
    lemma_way_ok(known, train.current_location, package, c.is_pickup);
    let d = way(known, train.current_location, package, c.is_pickup).unwrap().unwrap();
    assert(names[ti] == train.name);
    assert(names.contains(train.name));
    lemma_moved_ok(train, d, packages, movements, names);
    let after = moved(train, d, packages, movements).unwrap();
    lemma_settle(trains, packages, ti, pi, c, d, after);
    assert forall|i: int|
        0 <= i < next.trains.len() && runs(next.movements, (#[trigger] next.trains[i]).name).len()
            > 0 implies next.trains[i].current_location == runs(
        next.movements,
        next.trains[i].name,
    ).last().to by {
        assert(train_names(next.trains)[i] == names[i]);
        if i != ti {
            assert(next.trains[i] == trains[i]);
            assert(names[i] != names[ti]);
            assert(runs(after.movements, trains[i].name) == runs(movements, trains[i].name));
        } else {
            assert(next.trains[i].name == train.name);
        }
    }
    assert forall|i: int|
        0 <= i < next.packages.len() && (#[trigger] next.packages[i]).is_delivered()
            implies delivered_in(next.movements, next.packages[i].name) by {
        assert(package_names(next.packages)[i] == package_names(packages)[i]);
        if packages[i].is_delivered() {
            assert(delivered_in(movements, packages[i].name));
        } else {
            assert(after.delivered.contains(packages[i].name));
        }
    }
}

/// Every way that the oracle knows is the record of a walk through the
/// adjacency that passes no station twice.
pub open spec fn ways_sound(adj: Seq<AdjacencyView>, known: Seq<PathTableView>) -> bool {
    forall|i: int, k: int|
        0 <= i < known.len() && 0 <= k < known[i].destinations.len() ==> sound(
            adj,
            known[i].source,
            #[trigger] known[i].destinations[k],
        )
}

/// Where every remembered table is the path table of its source, every way that is known is sound.
pub proof fn lemma_known_sound(adj: Seq<AdjacencyView>, known: Seq<PathTableView>)
    requires
        forall|i: int|
            0 <= i < known.len() ==> is_path_table(
                adj,
                (#[trigger] known[i]).source,
                known[i].destinations,
            ),
    ensures
        ways_sound(adj, known),
{
    assert forall|i: int, k: int|
        0 <= i < known.len() && 0 <= k < known[i].destinations.len() implies sound(
        adj,
        known[i].source,
        #[trigger] known[i].destinations[k],
    ) by {
        assert(is_path_table(adj, known[i].source, known[i].destinations));
    }
}

/// The way that a step takes is the record of a walk from where the train stands.
pub proof fn lemma_way_sound(
    adj: Seq<AdjacencyView>,
    known: Seq<PathTableView>,
    from: Seq<char>,
    package: PackageView,
    is_pickup: bool,
)
    requires
        ways_sound(adj, known),
        way(known, from, package, is_pickup) is Some,
        way(known, from, package, is_pickup).unwrap() is Ok,
    ensures
        sound(adj, from, way(known, from, package, is_pickup).unwrap().unwrap()),
{
    let to = goal(package, is_pickup);
    lemma_position(sources(known), from);
    let i = position(sources(known), from).unwrap();
    let t = known[i].destinations;
    lemma_position(tos(t), to);
    let k = position(tos(t), to).unwrap();
    assert(sound(adj, known[i].source, known[i].destinations[k]));
}

/// Every leg of a trip along the record of a walk runs along a leg of the adjacency.
pub proof fn lemma_trip_on_legs(
    adj: Seq<AdjacencyView>,
    source: Seq<char>,
    train: TrainView,
    d: DestinationView,
    packages: Seq<PackageView>,
    start: int,
)
    requires
        sound(adj, source, d),
        d.cumulative_distance != 0,
    ensures
        on_legs(adj, trip(train, d, packages, start)),
{
    let legs = trip(train, d, packages, start);
    let p = choose|p: Seq<RouteView>| follows(adj, source, d, p);
    assert(p.len() > 0);
    assert forall|j: int| 0 <= j < legs.len() implies on_leg(adj, #[trigger] legs[j]) by {
        assert(time_at(d, start, j + 1) == time_at(d, start, j) + leg_length(d, j));
        assert(legs_of(adj, station_before(source, p, j)).contains(p[j]));
        if j < p.len() - 1 {
            assert(d.checkpoints[j] == p[j]);
        } else {
            assert(p.last() == p[j]);
        }
        if j > 0 {
            assert(d.checkpoints[j - 1] == p[j - 1]);
        }
        assert(RouteView { to: legs[j].to, distance: legs[j].end_time - legs[j].start_time }
            == p[j]);
    }
}

/// A step keeps every movement of the timeline on a leg of the adjacency.
pub proof fn lemma_advance_on_legs(
    adj: Seq<AdjacencyView>,
    known: Seq<PathTableView>,
    trains: Seq<TrainView>,
    packages: Seq<PackageView>,
    movements: Seq<MovementView>,
    c: CandidateView,
)
    requires
        ways_sound(adj, known),
        on_legs(adj, movements),
        advance(known, trains, packages, movements, c) is Some,
        advance(known, trains, packages, movements, c).unwrap() is Ok,
    ensures
        on_legs(adj, advance(known, trains, packages, movements, c).unwrap().unwrap().movements),
{
    let next = advance(known, trains, packages, movements, c).unwrap().unwrap();
    lemma_position(train_names(trains), c.train);
    lemma_position(package_names(packages), c.package);
    let ti = position(train_names(trains), c.train).unwrap();
    let pi = position(package_names(packages), c.package).unwrap();
    let train = trains[ti];
    lemma_way_sound(adj, known, train.current_location, packages[pi], c.is_pickup);
    let d = way(known, train.current_location, packages[pi], c.is_pickup).unwrap().unwrap();
    let after = moved(train, d, packages, movements).unwrap();
    assert(next.movements == after.movements);
    if d.cumulative_distance != 0 {
        let start = last_end(movements, train.name);
        let legs = trip(train, d, packages, start);
        lemma_trip_on_legs(adj, train.current_location, train, d, packages, start);
        let whole = movements + legs;
        assert forall|j: int| 0 <= j < whole.len() implies on_leg(adj, #[trigger] whole[j]) by {
            if j < movements.len() {
                assert(whole[j] == movements[j]);
            } else {
                assert(whole[j] == legs[j - movements.len()]);
            }
        }
    }
}

/// A train that has not moved stands where it starts.
pub open spec fn at_start(trains: Seq<TrainView>, movements: Seq<MovementView>) -> bool {
    forall|i: int|
        0 <= i < trains.len() && runs(movements, (#[trigger] trains[i]).name).len() == 0
            ==> trains[i].current_location == trains[i].start
}

/// A step keeps the first movement of each train at time 0 and at the
/// station where the train starts, and a train that has not moved where it starts.
pub proof fn lemma_advance_starts(
    known: Seq<PathTableView>,
    trains: Seq<TrainView>,
    packages: Seq<PackageView>,
    movements: Seq<MovementView>,
    c: CandidateView,
)
    requires
        ways_ok(known),
        timeline_ok(trains, packages, movements),
        at_start(trains, movements),
        starts_right(movements, trains),
        advance(known, trains, packages, movements, c) is Some,
        advance(known, trains, packages, movements, c).unwrap() is Ok,
    ensures
        ({
            let next = advance(known, trains, packages, movements, c).unwrap().unwrap();
            &&& at_start(next.trains, next.movements)
            &&& starts_right(next.movements, next.trains)
        }),
{
    let next = advance(known, trains, packages, movements, c).unwrap().unwrap();
    lemma_position(train_names(trains), c.train);
    lemma_position(package_names(packages), c.package);
    let ti = position(train_names(trains), c.train).unwrap();
    let pi = position(package_names(packages), c.package).unwrap();
    let train = trains[ti];
    let package = packages[pi];
    let names = train_names(trains);
    lemma_way_ok(known, train.current_location, package, c.is_pickup);
    let d = way(known, train.current_location, package, c.is_pickup).unwrap().unwrap();
    assert(names[ti] == train.name);
    assert(names.contains(train.name));
    lemma_moved_ok(train, d, packages, movements, names);
    let after = moved(train, d, packages, movements).unwrap();
    lemma_settle(trains, packages, ti, pi, c, d, after);
    let start = set_out(train, package, packages, c, d);
    let loaded = take_on_all(start, after.picked_up).unwrap();
    let h = hand_over_all(loaded, after.delivered).unwrap();
    lemma_take_on_all(start, after.picked_up);
    lemma_hand_over_all(loaded, after.delivered);
    assert(next.trains == trains.update(ti, h.train));
    assert(h.train.start == train.start);
    assert(h.train.name == train.name);
    let r = runs(movements, train.name);
    if d.cumulative_distance != 0 {
        let begin = last_end(movements, train.name);
        let legs = trip(train, d, packages, begin);
        lemma_trip_legs(train, d, packages, begin);
        lemma_last_end(movements, train.name);
        lemma_runs_add(movements, legs, train.name);
        lemma_runs_own(legs, train.name, train.name);
        assert(runs(next.movements, train.name) == r + legs);
        if r.len() > 0 {
            assert((r + legs)[0] == r[0]);
        } else {
            assert((r + legs)[0] == legs[0]);
        }
    }
    assert forall|i: int| 0 <= i < next.trains.len() implies (runs(
        next.movements,
        (#[trigger] next.trains[i]).name,
    ).len() == 0 ==> next.trains[i].current_location == next.trains[i].start) && (runs(
        next.movements,
        next.trains[i].name,
    ).len() > 0 ==> runs(next.movements, next.trains[i].name)[0].start_time == 0 && runs(
        next.movements,
        next.trains[i].name,
    )[0].from == next.trains[i].start) by {
        assert(names[i] == trains[i].name);
        if i != ti {
            assert(next.trains[i] == trains[i]);
            assert(names[i] != names[ti]);
            assert(runs(after.movements, trains[i].name) == runs(movements, trains[i].name));
        }
    }
}

/// In a timeline that is timed and contiguous, where the first movement of
/// each train starts at time 0, no movement starts before time 0.
pub proof fn lemma_starts_non_negative(
    plan: Seq<MovementView>,
    trains: Seq<TrainView>,
    j: int,
)
    requires
        timed(plan),
        contiguous(plan),
        known_trains(plan, train_names(trains)),
        starts_right(plan, trains),
        0 <= j < plan.len(),
    ensures
        plan[j].start_time >= 0,
{
    let names = train_names(trains);
    assert(names.contains(plan[j].train));
    let i = choose|i: int| 0 <= i < names.len() && names[i] == plan[j].train;
    let r = runs(plan, trains[i].name);
    assert(plan.contains(plan[j]));
    lemma_runs_has(plan, trains[i].name, plan[j]);
    let a = choose|a: int| 0 <= a < r.len() && r[a] == plan[j];
    lemma_runs_timed(plan, trains[i].name);
    assert(chained(r));
    lemma_chain_order(r, 0, a);
}

} // verus!
