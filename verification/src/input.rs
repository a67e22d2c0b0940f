//! What a planner starts from, and the state that it makes up.

use vstd::prelude::*;
use crate::capacity::{mass, names_known, tidy, weights_ok, within_capacity};
use crate::movement::MovementView;
use crate::package::{package_names, PackageView};
use crate::paths::{with_leg, AdjacencyView};
use crate::route::RouteView;
use crate::search::{with_package, with_train};
use crate::loads::{held, run_fits};
use crate::once::train_gives;
use crate::pickups::train_takes;
use crate::sums::run_distinct;
use crate::plans::state_ok;
use crate::soundness::timeline_ok;
use crate::table::{distinct, lemma_position, position};
use crate::train::{train_names, TrainView};
use crate::validity::{chained, delivered_in, runs};

verus! {

/// The network, the packages and the trains, as lists of plain tuples.
pub struct Input {
    /// Each edge: its name, its two stations, its length.
    pub edges: Vec<(String, String, String, i32)>,
    /// Each package: its name, its weight, its origin, its destination.
    pub packages: Vec<(String, i32, String, String)>,
    /// Each train: its name, its capacity, the station where it starts.
    pub trains: Vec<(String, i32, String)>,
}

/// The adjacency that the edges make up, each joined in both directions, in their order.
pub open spec fn network(edges: Seq<(String, String, String, i32)>) -> Seq<AdjacencyView>
    decreases edges.len(),
{
    if edges.len() == 0 {
        Seq::empty()
    } else {
        let e = edges.last();
        with_leg(
            with_leg(
                network(edges.drop_last()),
                e.1@,
                RouteView { to: e.2@, distance: e.3 as int },
            ),
            e.2@,
            RouteView { to: e.1@, distance: e.3 as int },
        )
    }
}

/// A train as it starts out.
pub open spec fn fresh_train(t: (String, i32, String)) -> TrainView {
    TrainView {
        name: t.0@,
        start: t.2@,
        current_location: t.2@,
        capacity: t.1 as int,
        total_distance: 0,
        packages_to_pick_up: Seq::empty(),
        packages_picked_up: Seq::empty(),
        packages_delivered: Seq::empty(),
    }
}

/// The table of trains that the list makes up: of two of one name the later one stays.
pub open spec fn fleet(trains: Seq<(String, i32, String)>) -> Seq<TrainView>
    decreases trains.len(),
{
    if trains.len() == 0 {
        Seq::empty()
    } else {
        with_train(fleet(trains.drop_last()), fresh_train(trains.last()))
    }
}

/// A package as it starts out.
pub open spec fn fresh_package(p: (String, i32, String, String)) -> PackageView {
    PackageView {
        name: p.0@,
        from: p.2@,
        to: p.3@,
        weight: p.1 as int,
        to_be_picked_up_by: Seq::empty(),
        picked_up_by: Seq::empty(),
        delivered_by: Seq::empty(),
    }
}

/// The table of packages that the list makes up: of two of one name the later one stays.
pub open spec fn cargo(packages: Seq<(String, i32, String, String)>) -> Seq<PackageView>
    decreases packages.len(),
{
    if packages.len() == 0 {
        Seq::empty()
    } else {
        with_package(cargo(packages.drop_last()), fresh_package(packages.last()))
    }
}

/// The trains of a fleet have different names, and there are no more of them than were listed.
pub proof fn lemma_fleet_distinct(trains: Seq<(String, i32, String)>)
    ensures
        distinct(train_names(fleet(trains))),
        fleet(trains).len() <= trains.len(),
    decreases trains.len(),
{
    if trains.len() > 0 {
        lemma_fleet_distinct(trains.drop_last());
        let before = fleet(trains.drop_last());
        let t = fresh_train(trains.last());
        let after = with_train(before, t);
        lemma_position(train_names(before), t.name);
        assert forall|i: int, j: int|
            0 <= i < after.len() && 0 <= j < after.len() && i != j implies train_names(after)[i]
            != train_names(after)[j] by {
            match position(train_names(before), t.name) {
                Some(at) => {
                    assert(train_names(after)[i] == train_names(before)[i]);
                    assert(train_names(after)[j] == train_names(before)[j]);
                },
                None => {
                    if i < before.len() {
                        assert(train_names(after)[i] == train_names(before)[i]);
                    }
                    if j < before.len() {
                        assert(train_names(after)[j] == train_names(before)[j]);
                    }
                },
            }
        }
    }
}

/// The packages of a cargo have different names.
pub proof fn lemma_cargo_distinct(packages: Seq<(String, i32, String, String)>)
    ensures
        distinct(package_names(cargo(packages))),
    decreases packages.len(),
{
    if packages.len() > 0 {
        lemma_cargo_distinct(packages.drop_last());
        let before = cargo(packages.drop_last());
        let p = fresh_package(packages.last());
        let after = with_package(before, p);
        lemma_position(package_names(before), p.name);
        assert forall|i: int, j: int|
            0 <= i < after.len() && 0 <= j < after.len() && i != j implies package_names(after)[i]
            != package_names(after)[j] by {
            match position(package_names(before), p.name) {
                Some(at) => {
                    assert(package_names(after)[i] == package_names(before)[i]);
                    assert(package_names(after)[j] == package_names(before)[j]);
                },
                None => {
                    if i < before.len() {
                        assert(package_names(after)[i] == package_names(before)[i]);
                    }
                    if j < before.len() {
                        assert(package_names(after)[j] == package_names(before)[j]);
                    }
                },
            }
        }
    }
}

/// Every train of a fleet is one of those listed, as it starts out.
pub proof fn lemma_fleet_fresh(trains: Seq<(String, i32, String)>, i: int)
    requires
        0 <= i < fleet(trains).len(),
    ensures
        exists|k: int| 0 <= k < trains.len() && fleet(trains)[i] == fresh_train(#[trigger] trains[k]),
    decreases trains.len(),
{
    if trains.len() > 0 {
        let before = fleet(trains.drop_last());
        let t = fresh_train(trains.last());
        lemma_position(train_names(before), t.name);
        if fleet(trains)[i] != t {
            lemma_fleet_fresh(trains.drop_last(), i);
            let k = choose|k: int|
                0 <= k < trains.drop_last().len() && before[i] == fresh_train(
                    #[trigger] trains.drop_last()[k],
                );
            assert(trains[k] == trains.drop_last()[k]);
        } else {
            assert(trains[trains.len() - 1] == trains.last());
        }
    }
}

/// Every package of a cargo is one of those listed, as it starts out.
pub proof fn lemma_cargo_fresh(packages: Seq<(String, i32, String, String)>, i: int)
    requires
        0 <= i < cargo(packages).len(),
    ensures
        exists|k: int|
            0 <= k < packages.len() && cargo(packages)[i] == fresh_package(#[trigger] packages[k]),
    decreases packages.len(),
{
    if packages.len() > 0 {
        let before = cargo(packages.drop_last());
        let p = fresh_package(packages.last());
        lemma_position(package_names(before), p.name);
        if cargo(packages)[i] != p {
            lemma_cargo_fresh(packages.drop_last(), i);
            let k = choose|k: int|
                0 <= k < packages.drop_last().len() && before[i] == fresh_package(
                    #[trigger] packages.drop_last()[k],
                );
            assert(packages[k] == packages.drop_last()[k]);
        } else {
            assert(packages[packages.len() - 1] == packages.last());
        }
    }
}

/// The tables that a planner starts from are tidy, and every train is
/// within its capacity, where no capacity and no weight is negative and
/// every train has a name.
pub proof fn lemma_fresh_state_fits(
    trains: Seq<(String, i32, String)>,
    packages: Seq<(String, i32, String, String)>,
)
    requires
        forall|k: int| 0 <= k < trains.len() ==> (#[trigger] trains[k]).1 >= 0 && trains[k].0@.len() > 0,
        forall|k: int| 0 <= k < packages.len() ==> (#[trigger] packages[k]).1 >= 0,
    ensures
        tidy(fleet(trains), cargo(packages)),
        weights_ok(cargo(packages)),
        within_capacity(fleet(trains), cargo(packages)),
{
    lemma_fleet_distinct(trains);
    lemma_cargo_distinct(packages);
    let t = fleet(trains);
    let p = cargo(packages);
    assert forall|i: int| 0 <= i < p.len() implies (#[trigger] p[i]).weight >= 0 by {
        lemma_cargo_fresh(packages, i);
    }
    assert forall|i: int| 0 <= i < t.len() implies (#[trigger] t[i]).name.len() > 0
        && t[i].packages_to_pick_up.no_duplicates() && names_known(t[i].claimed(), p) && mass(
        t[i].claimed(),
        p,
    ) <= t[i].capacity && t[i].packages_to_pick_up.len() == 0 by {
        lemma_fleet_fresh(trains, i);
        assert(t[i].claimed() =~= Seq::<Seq<char>>::empty());
    }
}

/// The packages of a cargo are all free.
pub proof fn lemma_cargo_free(packages: Seq<(String, i32, String, String)>, i: int)
    requires
        0 <= i < cargo(packages).len(),
    ensures
        cargo(packages)[i].is_free(),
    decreases packages.len(),
{
    if packages.len() > 0 {
        let before = cargo(packages.drop_last());
        let p = fresh_package(packages.last());
        lemma_position(package_names(before), p.name);
        if cargo(packages)[i] != p {
            lemma_cargo_free(packages.drop_last(), i);
        }
    }
}

/// The state that a planner starts from is in order: its trains and
/// packages as they were listed, and an empty timeline.
pub proof fn lemma_fresh_timeline_ok(
    trains: Seq<(String, i32, String)>,
    packages: Seq<(String, i32, String, String)>,
)
    requires
        trains.len() < i32::MAX,
    ensures
        timeline_ok(fleet(trains), cargo(packages), Seq::empty()),
{
    lemma_fleet_distinct(trains);
    let none = Seq::<MovementView>::empty();
    assert forall|train: Seq<char>| chained(#[trigger] runs(none, train)) by {}
    assert forall|i: int|
        0 <= i < cargo(packages).len() && (#[trigger] cargo(packages)[i]).is_delivered()
            implies delivered_in(none, cargo(packages)[i].name) by {
        lemma_cargo_free(packages, i);
    }
}

/// The state that a planner starts from is in order, where no capacity
/// and no weight is negative, every train has a name, and the trains are
/// fewer than an `i32` can count.
pub proof fn lemma_fresh_state_ok(
    adj: Seq<AdjacencyView>,
    trains: Seq<(String, i32, String)>,
    packages: Seq<(String, i32, String, String)>,
)
    requires
        trains.len() < i32::MAX,
        forall|k: int| 0 <= k < trains.len() ==> (#[trigger] trains[k]).1 >= 0 && trains[k].0@.len() > 0,
        forall|k: int| 0 <= k < packages.len() ==> (#[trigger] packages[k]).1 >= 0,
    ensures
        state_ok(adj, fleet(trains), cargo(packages), Seq::empty()),
{
    lemma_fresh_timeline_ok(trains, packages);
    lemma_fresh_state_fits(trains, packages);
    let t = fleet(trains);
    let none = Seq::<MovementView>::empty();
    assert forall|i: int| 0 <= i < t.len() implies (#[trigger] t[i]).packages_picked_up == held(
        none,
        t[i].name,
    ) && run_fits(runs(none, t[i].name), cargo(packages), t[i].capacity)
        && t[i].current_location == t[i].start && runs(none, t[i].name).len() == 0
        && t[i].claimed().no_duplicates() && t[i].packages_picked_up.len() == 0
        && t[i].packages_to_pick_up.len() == 0 && run_distinct(runs(none, t[i].name)) by {
        lemma_fleet_fresh(trains, i);
        assert(t[i].claimed() =~= Seq::<Seq<char>>::empty());
    }
    assert forall|i: int, a: int, k: int, name: Seq<char>|
        !#[trigger] train_gives(none, t, i, a, k, name) by {
        if 0 <= i < t.len() {
            assert(runs(none, t[i].name).len() == 0);
        }
    }
    assert forall|i: int, a: int, k: int, name: Seq<char>|
        !#[trigger] train_takes(none, t, i, a, k, name) by {
        if 0 <= i < t.len() {
            assert(runs(none, t[i].name).len() == 0);
        }
    }
    assert forall|i: int, x: Seq<char>|
        0 <= i < t.len() implies !#[trigger] t[i].packages_picked_up.contains(x) by {
        lemma_fleet_fresh(trains, i);
        if t[i].packages_picked_up.contains(x) {
            let k = choose|k: int|
                0 <= k < t[i].packages_picked_up.len() && t[i].packages_picked_up[k] == x;
        }
    }
    assert forall|i: int, x: Seq<char>| 0 <= i < t.len() implies !#[trigger] t[i].claimed().contains(
        x,
    ) by {
        lemma_fleet_fresh(trains, i);
        assert(t[i].claimed() =~= Seq::<Seq<char>>::empty());
        if t[i].claimed().contains(x) {
            let k = choose|k: int| 0 <= k < t[i].claimed().len() && t[i].claimed()[k] == x;
        }
    }
}

} // verus!
