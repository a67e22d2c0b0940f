//! Where the packages of a plan are taken on.

use vstd::prelude::*;
use crate::candidates::{candidates, CandidateView};
use crate::capacity::{
    is_offer, lemma_candidate_is_offer, lemma_hand_over_all_mass, lemma_set_out_fits,
    lemma_step_keeps_capacity, lemma_take_on_all_mass, same_cargo, step_fits,
};
use crate::destination::{tos, DestinationView};
use crate::graph::{sources, PathTableView};
use crate::loads::{lemma_hand_over_all_held, lemma_take_on_all_held, loads_ok};
use crate::movement::{Movement, MovementView};
use crate::package::{package_names, PackageView};
use crate::paths::{
    follows, is_walk, legs_non_negative, lemma_walk_drop_last, lemma_walk_len_non_negative,
    sound, stations, walk_end, walk_len, AdjacencyView,
};
use crate::route::RouteView;
use crate::search::{advance, goal, hand_over_all, set_out, take_on_all, way};
use crate::soundness::{
    lemma_moved_ok, lemma_settle, lemma_way_ok, lemma_way_sound, timeline_ok, ways_ok,
    ways_sound,
};
use crate::sorting::{lemma_sorted_has, sorted};
use crate::sums::lemma_concat_has;
use crate::table::{lemma_position, lemma_position_is, position};
use crate::timeline::{last_end, moved, trip};
use crate::train::{train_names, TrainView};

verus! {

/// Every leg has a length.
pub open spec fn legs_positive(adj: Seq<AdjacencyView>) -> bool {
    forall|i: int, j: int|
        0 <= i < adj.len() && 0 <= j < adj[i].routes.len() ==> (#[trigger] adj[i].routes[j]).distance
            > 0
}

/// The table holds the package called `name`, and it comes from `from`.
pub open spec fn bound_from(packages: Seq<PackageView>, name: Seq<char>, from: Seq<char>) -> bool {
    match position(package_names(packages), name) {
        Some(i) => packages[i].from == from,
        None => false,
    }
}

/// The movement takes on only packages of the table, where they come from.
pub open spec fn takes_home_at(packages: Seq<PackageView>, m: MovementView) -> bool {
    forall|k: int|
        0 <= k < m.packages_picked_up.len() ==> bound_from(
            packages,
            #[trigger] m.packages_picked_up[k],
            m.from,
        )
}

/// Every movement takes on only packages of the table, where they come from.
pub open spec fn takes_home(plan: Seq<MovementView>, packages: Seq<PackageView>) -> bool {
    forall|j: int| 0 <= j < plan.len() ==> takes_home_at(packages, #[trigger] plan[j])
}

/// Every train stands where the packages come from that it is committed to.
pub open spec fn waits_at_origin(trains: Seq<TrainView>, packages: Seq<PackageView>) -> bool {
    forall|i: int, k: int|
        0 <= i < trains.len() && 0 <= k < trains[i].packages_to_pick_up.len() ==> bound_from(
            packages,
            #[trigger] trains[i].packages_to_pick_up[k],
            trains[i].current_location,
        )
}

/// Where every leg has a length, a walk with a leg has one.
pub proof fn lemma_walk_positive(adj: Seq<AdjacencyView>, source: Seq<char>, p: Seq<RouteView>)
    requires
        legs_positive(adj),
        is_walk(adj, source, p),
        p.len() > 0,
    ensures
        walk_len(p) > 0,
{
    assert(legs_non_negative(adj)) by {
        assert forall|i: int, j: int|
            0 <= i < adj.len() && 0 <= j < adj[i].routes.len() implies (
        #[trigger] adj[i].routes[j]).distance >= 0 by {}
    }
    lemma_walk_drop_last(adj, source, p);
    lemma_walk_len_non_negative(adj, source, p.drop_last());
    let u = walk_end(source, p.drop_last());
    lemma_position(stations(adj), u);
    let i = position(stations(adj), u).unwrap();
    let j = choose|j: int| 0 <= j < adj[i].routes.len() && adj[i].routes[j] == p.last();
    assert(adj[i].routes[j].distance > 0);
}

/// Where every leg has a length, a way without length leads nowhere else.
pub proof fn lemma_zero_way(adj: Seq<AdjacencyView>, source: Seq<char>, d: DestinationView)
    requires
        legs_positive(adj),
        sound(adj, source, d),
        d.cumulative_distance == 0,
    ensures
        d.to == source,
{
    let p = choose|p: Seq<RouteView>| follows(adj, source, d, p);
    if p.len() > 0 {
        lemma_walk_positive(adj, source, p);
    }
}

/// The way that a step takes leads to the station that the action sends the train to.
pub proof fn lemma_way_to(
    known: Seq<PathTableView>,
    from: Seq<char>,
    package: PackageView,
    is_pickup: bool,
)
    requires
        way(known, from, package, is_pickup) is Some,
        way(known, from, package, is_pickup).unwrap() is Ok,
    ensures
        way(known, from, package, is_pickup).unwrap().unwrap().to == goal(package, is_pickup),
{
    let to = goal(package, is_pickup);
    lemma_position(sources(known), from);
    let i = position(sources(known), from).unwrap();
    let t = known[i].destinations;
    lemma_position(tos(t), to);
}

/// What takes on at the origin with one table of packages does so with another of the same packages.
pub proof fn lemma_bound_from_same(
    packages: Seq<PackageView>,
    after: Seq<PackageView>,
    name: Seq<char>,
    from: Seq<char>,
)
    requires
        same_cargo(packages, after),
        bound_from(packages, name, from),
    ensures
        bound_from(after, name, from),
{
    assert(package_names(after) =~= package_names(packages));
    lemma_position(package_names(packages), name);
}

/// What takes on at the origin with one table of packages does so with another of the same packages.
pub proof fn lemma_takes_home_same(
    plan: Seq<MovementView>,
    packages: Seq<PackageView>,
    after: Seq<PackageView>,
)
    requires
        same_cargo(packages, after),
        takes_home(plan, packages),
    ensures
        takes_home(plan, after),
{
    assert forall|j: int| 0 <= j < plan.len() implies takes_home_at(after, #[trigger] plan[j]) by {
        assert(takes_home_at(packages, plan[j]));
        assert forall|k: int| 0 <= k < plan[j].packages_picked_up.len() implies bound_from(
            after,
            #[trigger] plan[j].packages_picked_up[k],
            plan[j].from,
        ) by {
            lemma_bound_from_same(packages, after, plan[j].packages_picked_up[k], plan[j].from);
        }
    }
}

/// Sorting keeps where the packages are taken on.
pub proof fn lemma_sorted_takes_home(plan: Seq<MovementView>, packages: Seq<PackageView>)
    requires
        takes_home(plan, packages),
    ensures
        takes_home(sorted::<Movement>(plan), packages),
{
    let s = sorted::<Movement>(plan);
    assert forall|j: int| 0 <= j < s.len() implies takes_home_at(packages, #[trigger] s[j]) by {
        assert(s.contains(s[j]));
        lemma_sorted_has::<Movement>(plan, s[j]);
        let i = choose|i: int| 0 <= i < plan.len() && plan[i] == s[j];
        assert(takes_home_at(packages, plan[i]));
    }
}

/// Where every leg has a length, every step takes packages on only where
/// they come from, and leaves every train where the packages come from
/// that it is committed to.
#[verifier::rlimit(40)]
pub proof fn lemma_advance_origins(
    adj: Seq<AdjacencyView>,
    known: Seq<PathTableView>,
    trains: Seq<TrainView>,
    packages: Seq<PackageView>,
    movements: Seq<MovementView>,
    c: CandidateView,
)
    requires
        legs_positive(adj),
        ways_ok(known),
        ways_sound(adj, known),
        timeline_ok(trains, packages, movements),
        loads_ok(trains, packages, movements),
        waits_at_origin(trains, packages),
        takes_home(movements, packages),
        candidates(trains, packages) is Ok,
        candidates(trains, packages).unwrap().contains(c),
        advance(known, trains, packages, movements, c) is Some,
        advance(known, trains, packages, movements, c).unwrap() is Ok,
    ensures
        ({
            let next = advance(known, trains, packages, movements, c).unwrap().unwrap();
            &&& waits_at_origin(next.trains, next.packages)
            &&& takes_home(next.movements, next.packages)
        }),
{
    let next = advance(known, trains, packages, movements, c).unwrap().unwrap();
    lemma_step_keeps_capacity(known, trains, packages, movements, c);
    lemma_position(train_names(trains), c.train);
    lemma_position(package_names(packages), c.package);
    let ti = position(train_names(trains), c.train).unwrap();
    let pi = position(package_names(packages), c.package).unwrap();
    let train = trains[ti];
    let package = packages[pi];
    let names = train_names(trains);
    if c.is_pickup {
        lemma_candidate_is_offer(trains, packages, c);
        let (i, j) = choose|i: int, j: int| is_offer(trains, packages, c, i, j);
        if i != pi {
            assert(package_names(packages)[i] != package_names(packages)[pi]);
        }
        if j != ti {
            assert(train_names(trains)[j] != train_names(trains)[ti]);
        }
    }
    assert(step_fits(trains, packages, ti, pi, c));
    lemma_way_ok(known, train.current_location, package, c.is_pickup);
    lemma_way_sound(adj, known, train.current_location, package, c.is_pickup);
    lemma_way_to(known, train.current_location, package, c.is_pickup);
    let d = way(known, train.current_location, package, c.is_pickup).unwrap().unwrap();
    if d.cumulative_distance == 0 {
        lemma_zero_way(adj, train.current_location, d);
    }
    assert(names[ti] == train.name);
    assert(names.contains(train.name));
    lemma_moved_ok(train, d, packages, movements, names);
    let after = moved(train, d, packages, movements).unwrap();
    lemma_settle(trains, packages, ti, pi, c, d, after);
    let tp = train.packages_to_pick_up;
    let picked = after.picked_up;
    let start = set_out(train, package, packages, c, d);
    let loaded = take_on_all(start, picked).unwrap();
    let h = hand_over_all(loaded, after.delivered).unwrap();
    lemma_set_out_fits(trains, packages, ti, pi, c, d);
    assert forall|k: int| 0 <= k < picked.len() implies start.train.packages_to_pick_up.contains(
        #[trigger] picked[k],
    ) by {}
    lemma_take_on_all_mass(start, picked, packages);
    lemma_hand_over_all_mass(loaded, after.delivered, packages);
    lemma_take_on_all_held(start, picked);
    lemma_hand_over_all_held(loaded, after.delivered);
    assert(next.trains == trains.update(ti, h.train));
    assert(package_names(packages)[pi] == package.name);
    assert forall|j: int| 0 <= j < pi implies package_names(packages)[j] != package.name by {
        assert(package_names(packages)[j] != package_names(packages)[pi]);
    }
    lemma_position_is(package_names(packages), package.name, pi);
    assert forall|x: Seq<char>| tp.contains(x) implies bound_from(
        packages,
        x,
        train.current_location,
    ) by {
        let k = choose|k: int| 0 <= k < tp.len() && tp[k] == x;
        assert(bound_from(packages, train.packages_to_pick_up[k], train.current_location));
    }
    if d.cumulative_distance != 0 {
        let legs = trip(train, d, packages, last_end(movements, train.name));
        let whole = movements + legs;
        assert forall|j: int| 0 <= j < whole.len() implies takes_home_at(
            packages,
            #[trigger] whole[j],
        ) by {
            if j < movements.len() {
                assert(whole[j] == movements[j]);
            } else {
                let m = j - movements.len();
                assert(whole[j] == legs[m]);
                assert forall|k: int| 0 <= k < legs[m].packages_picked_up.len() implies bound_from(
                    packages,
                    #[trigger] legs[m].packages_picked_up[k],
                    legs[m].from,
                ) by {
                    assert(m == 0);
                    assert(tp.contains(tp[k]));
                }
            }
        }
    }
    lemma_takes_home_same(next.movements, packages, next.packages);
    assert forall|i: int, k: int|
        0 <= i < next.trains.len() && 0 <= k < next.trains[i].packages_to_pick_up.len()
            implies bound_from(
        next.packages,
        #[trigger] next.trains[i].packages_to_pick_up[k],
        next.trains[i].current_location,
    ) by {
        let x = next.trains[i].packages_to_pick_up[k];
        if i != ti {
            assert(next.trains[i] == trains[i]);
            assert(bound_from(packages, trains[i].packages_to_pick_up[k], trains[i].current_location));
        } else {
            assert(h.train.packages_to_pick_up.contains(x));
            assert(loaded.train.packages_to_pick_up.contains(x));
            assert(start.train.packages_to_pick_up.contains(x) && !picked.contains(x));
            if c.is_pickup {
                assert(tp.push(package.name) =~= tp + seq![package.name]);
                lemma_concat_has(tp, seq![package.name], x);
                if seq![package.name].contains(x) {
                    let k2 = choose|k2: int|
                        0 <= k2 < seq![package.name].len() && seq![package.name][k2] == x;
                }
            }
            if tp.contains(x) {
                assert(d.cumulative_distance == 0);
            } else {
                assert(x == package.name && c.is_pickup);
                assert(bound_from(packages, x, d.to));
            }
            assert(bound_from(packages, x, next.trains[i].current_location));
        }
        lemma_bound_from_same(packages, next.packages, x, next.trains[i].current_location);
    }
}

} // verus!
