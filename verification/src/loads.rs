//! What each train has on board through a timeline, and why it never
//! weighs more than the train can carry.

use vstd::prelude::*;
use crate::candidates::{candidates, CandidateView};
use crate::capacity::{
    lemma_mass_add, lemma_remaining_mass, lemma_same_cargo, lemma_step_keeps_capacity, mass,
    remaining, same_cargo, tidy, weights_ok, within_capacity,
};
use crate::destination::DestinationView;
use crate::graph::PathTableView;
use crate::movement::MovementView;
use crate::package::{package_names, PackageView};
use crate::search::{advance, hand_over_all, set_out, take_on_all, way, without, HoldView};
use crate::soundness::{
    lemma_moved_ok, lemma_settle, lemma_trip_legs, lemma_way_ok, timeline_ok, ways_ok,
};
use crate::table::{lemma_position, position};
use crate::timeline::{due, handed_over, last_end, leg_count, moved, stop, trip};
use crate::train::{train_names, TrainView};
use crate::validity::{lemma_runs_add, lemma_runs_own, runs};

verus! {

/// What a train has on board while its `j`th movement runs: what it had on
/// board on the movement before, without what it handed over at the end of
/// that, and what it takes on now.
pub open spec fn board(r: Seq<MovementView>, j: int) -> Seq<Seq<char>>
    decreases j,
{
    if j <= 0 {
        r[0].packages_picked_up
    } else {
        remaining(board(r, j - 1), r[j - 1].packages_delivered) + r[j].packages_picked_up
    }
}

/// What a train has on board when its `j`th movement is over.
pub open spec fn left_on_board(r: Seq<MovementView>, j: int) -> Seq<Seq<char>> {
    remaining(board(r, j), r[j].packages_delivered)
}

/// On none of the movements does what is on board weigh more than `capacity`.
pub open spec fn run_fits(r: Seq<MovementView>, packages: Seq<PackageView>, capacity: int) -> bool {
    forall|j: int| 0 <= j < r.len() ==> mass(#[trigger] board(r, j), packages) <= capacity
}

/// No train is, on any of its movements, loaded beyond its capacity.
pub open spec fn loads_fit(
    plan: Seq<MovementView>,
    trains: Seq<TrainView>,
    packages: Seq<PackageView>,
) -> bool {
    forall|i: int|
        0 <= i < trains.len() ==> run_fits(
            runs(plan, (#[trigger] trains[i]).name),
            packages,
            trains[i].capacity,
        )
}

/// What a train holds according to the timeline: nothing while it has not
/// moved, else what it had on board when its last movement was over.
pub open spec fn held(movements: Seq<MovementView>, train: Seq<char>) -> Seq<Seq<char>> {
    let r = runs(movements, train);
    if r.len() == 0 {
        Seq::empty()
    } else {
        left_on_board(r, r.len() - 1)
    }
}

/// Each train holds what the timeline says it holds.
pub open spec fn on_track(trains: Seq<TrainView>, movements: Seq<MovementView>) -> bool {
    forall|i: int|
        0 <= i < trains.len() ==> (#[trigger] trains[i]).packages_picked_up == held(
            movements,
            trains[i].name,
        )
}

/// The tables hold the same trains, by name, capacity and start, place by place.
pub open spec fn same_fleet(before: Seq<TrainView>, after: Seq<TrainView>) -> bool {
    &&& after.len() == before.len()
    &&& forall|i: int|
        0 <= i < before.len() ==> (#[trigger] after[i]).name == before[i].name
            && after[i].capacity == before[i].capacity && after[i].start == before[i].start
}

/// Nothing gone, all remains.
pub proof fn lemma_remaining_all(names: Seq<Seq<char>>)
    ensures
        remaining(names, Seq::empty()) == names,
    decreases names.len(),
{
    if names.len() > 0 {
        lemma_remaining_all(names.drop_last());
        assert(!Seq::<Seq<char>>::empty().contains(names.last()));
        assert(names.drop_last().push(names.last()) =~= names);
    }
}

/// What remains without `a` and then without `b` is what remains without both.
pub proof fn lemma_remaining_twice(names: Seq<Seq<char>>, a: Seq<Seq<char>>, b: Seq<Seq<char>>)
    ensures
        remaining(remaining(names, a), b) == remaining(names, a + b),
    decreases names.len(),
{
    if names.len() > 0 {
        let rest = names.drop_last();
        let x = names.last();
        lemma_remaining_twice(rest, a, b);
        assert((a + b).contains(x) <==> a.contains(x) || b.contains(x)) by {
            if a.contains(x) {
                let k = choose|k: int| 0 <= k < a.len() && a[k] == x;
                assert((a + b)[k] == x);
            }
            if b.contains(x) {
                let k = choose|k: int| 0 <= k < b.len() && b[k] == x;
                assert((a + b)[a.len() + k] == x);
            }
            if (a + b).contains(x) {
                let k = choose|k: int| 0 <= k < (a + b).len() && (a + b)[k] == x;
                if k < a.len() {
                    assert(a[k] == x);
                } else {
                    assert(b[k - a.len()] == x);
                }
            }
        }
        if !a.contains(x) {
            let inner = remaining(rest, a);
            assert(inner.push(x).drop_last() =~= inner);
            assert(inner.push(x).last() == x);
        }
    }
}

/// What remains without the names and one more is what remains without
/// the names, without the one.
pub proof fn lemma_remaining_push(names: Seq<Seq<char>>, gone: Seq<Seq<char>>, x: Seq<char>)
    ensures
        remaining(names, gone.push(x)) == without(remaining(names, gone), x),
    decreases names.len(),
{
    if names.len() > 0 {
        let rest = names.drop_last();
        let y = names.last();
        lemma_remaining_push(rest, gone, x);
        assert(gone.push(x).contains(y) <==> gone.contains(y) || y == x) by {
            if gone.contains(y) {
                let k = choose|k: int| 0 <= k < gone.len() && gone[k] == y;
                assert(gone.push(x)[k] == y);
            }
            if y == x {
                assert(gone.push(x)[gone.len() as int] == y);
            }
            if gone.push(x).contains(y) {
                let k = choose|k: int| 0 <= k < gone.push(x).len() && gone.push(x)[k] == y;
                if k < gone.len() {
                    assert(gone[k] == y);
                }
            }
        }
        if !gone.contains(y) {
            let inner = remaining(rest, gone);
            assert(inner.push(y).drop_last() =~= inner);
            assert(inner.push(y).last() == y);
        }
    }
}

/// What is on board on a movement does not depend on the movements after it.
pub proof fn lemma_board_prefix(r: Seq<MovementView>, more: Seq<MovementView>, j: int)
    requires
        0 <= j < r.len(),
    ensures
        board(r + more, j) == board(r, j),
    decreases j,
{
    assert((r + more)[j] == r[j]);
    assert((r + more)[0] == r[0]);
    if j > 0 {
        lemma_board_prefix(r, more, j - 1);
        assert((r + more)[j - 1] == r[j - 1]);
    }
}

/// Taking packages on board adds their names to what the train holds.
pub proof fn lemma_take_on_all_held(h: HoldView, names: Seq<Seq<char>>)
    requires
        take_on_all(h, names) is Ok,
    ensures
        take_on_all(h, names).unwrap().train.packages_picked_up == h.train.packages_picked_up
            + names,
        take_on_all(h, names).unwrap().train.capacity == h.train.capacity,
        take_on_all(h, names).unwrap().train.name == h.train.name,
        take_on_all(h, names).unwrap().train.start == h.train.start,
    decreases names.len(),
{
    if names.len() > 0 {
        lemma_take_on_all_held(h, names.drop_last());
        assert((h.train.packages_picked_up + names.drop_last()).push(names.last())
            =~= h.train.packages_picked_up + names);
    } else {
        assert(h.train.packages_picked_up + names =~= h.train.packages_picked_up);
    }
}

/// Handing packages over leaves the train holding what remains without them.
pub proof fn lemma_hand_over_all_held(h: HoldView, names: Seq<Seq<char>>)
    requires
        hand_over_all(h, names) is Ok,
    ensures
        hand_over_all(h, names).unwrap().train.packages_picked_up == remaining(
            h.train.packages_picked_up,
            names,
        ),
        hand_over_all(h, names).unwrap().train.capacity == h.train.capacity,
        hand_over_all(h, names).unwrap().train.name == h.train.name,
        hand_over_all(h, names).unwrap().train.start == h.train.start,
    decreases names.len(),
{
    if names.len() > 0 {
        lemma_hand_over_all_held(h, names.drop_last());
        lemma_remaining_push(h.train.packages_picked_up, names.drop_last(), names.last());
        assert(names.drop_last().push(names.last()) =~= names);
    } else {
        lemma_remaining_all(h.train.packages_picked_up);
        assert(names =~= Seq::<Seq<char>>::empty());
    }
}

/// What a train has on board on leg `m` of a trip that follows the
/// movements `r`: what it held and what it had committed to when it set
/// out, without what it handed over on the legs before.
pub proof fn lemma_trip_board(
    train: TrainView,
    d: DestinationView,
    packages: Seq<PackageView>,
    start: int,
    r: Seq<MovementView>,
    m: int,
)
    requires
        0 <= m < leg_count(d),
        train.packages_picked_up == if r.len() == 0 {
            Seq::<Seq<char>>::empty()
        } else {
            left_on_board(r, r.len() - 1)
        },
    ensures
        board(r + trip(train, d, packages, start), r.len() + m) == remaining(
            train.packages_picked_up + train.packages_to_pick_up,
            handed_over(train, d, packages, m),
        ),
    decreases m,
{
    let legs = trip(train, d, packages, start);
    let all = r + legs;
    let set = train.packages_picked_up + train.packages_to_pick_up;
    assert(all[r.len() + m] == legs[m]);
    if m == 0 {
        lemma_remaining_all(set);
        if r.len() == 0 {
            assert(set =~= train.packages_to_pick_up);
        } else {
            lemma_board_prefix(r, legs, r.len() - 1);
            assert(all[r.len() - 1] == r[r.len() - 1]);
        }
    } else {
        lemma_trip_board(train, d, packages, start, r, m - 1);
        assert(all[r.len() + m - 1] == legs[m - 1]);
        lemma_remaining_twice(
            set,
            handed_over(train, d, packages, m - 1),
            due(train.claimed(), packages, stop(d, m - 1)).unwrap(),
        );
        let before = remaining(board(all, r.len() + m - 1), legs[m - 1].packages_delivered);
        assert(before + Seq::<Seq<char>>::empty() =~= before);
    }
}

/// After a trip, on none of its movements is the train loaded beyond its
/// capacity, and it holds what the timeline says.
pub proof fn lemma_trip_loads(
    train: TrainView,
    d: DestinationView,
    packages: Seq<PackageView>,
    movements: Seq<MovementView>,
)
    requires
        moved(train, d, packages, movements) is Ok,
        d.cumulative_distance != 0,
        d.distance >= 0,
        forall|c: int| 0 <= c < d.checkpoints.len() ==> (#[trigger] d.checkpoints[c]).distance >= 0,
        weights_ok(packages),
        mass(train.claimed(), packages) <= train.capacity,
        train.packages_picked_up == held(movements, train.name),
        run_fits(runs(movements, train.name), packages, train.capacity),
    ensures
        ({
            let after = moved(train, d, packages, movements).unwrap();
            &&& run_fits(runs(after.movements, train.name), packages, train.capacity)
            &&& held(after.movements, train.name) == remaining(
                train.packages_picked_up + train.packages_to_pick_up,
                after.delivered,
            )
        }),
{
    let after = moved(train, d, packages, movements).unwrap();
    let start = last_end(movements, train.name);
    let legs = trip(train, d, packages, start);
    let r = runs(movements, train.name);
    let all = r + legs;
    let set = train.packages_picked_up + train.packages_to_pick_up;
    let n = leg_count(d) as int;
    lemma_trip_legs(train, d, packages, start);
    lemma_runs_add(movements, legs, train.name);
    lemma_runs_own(legs, train.name, train.name);
    assert(runs(after.movements, train.name) == all);
    lemma_mass_add(train.packages_picked_up, train.packages_to_pick_up, packages);
    lemma_mass_add(train.packages_to_pick_up, train.packages_picked_up, packages);
    assert forall|j: int| 0 <= j < all.len() implies mass(#[trigger] board(all, j), packages)
        <= train.capacity by {
        if j < r.len() {
            lemma_board_prefix(r, legs, j);
            assert(mass(board(r, j), packages) <= train.capacity);
        } else {
            lemma_trip_board(train, d, packages, start, r, j - r.len());
            lemma_remaining_mass(set, handed_over(train, d, packages, j - r.len()), packages);
        }
    }
    lemma_trip_board(train, d, packages, start, r, n - 1);
    assert(all[all.len() - 1] == legs[n - 1]);
    lemma_remaining_twice(
        set,
        handed_over(train, d, packages, n - 1),
        due(train.claimed(), packages, stop(d, n - 1)).unwrap(),
    );
}

/// A run that fits with one table of packages fits with another of the same packages.
pub proof fn lemma_run_fits_same(
    r: Seq<MovementView>,
    before: Seq<PackageView>,
    after: Seq<PackageView>,
    capacity: int,
)
    requires
        same_cargo(before, after),
        run_fits(r, before, capacity),
    ensures
        run_fits(r, after, capacity),
{
    assert forall|j: int| 0 <= j < r.len() implies mass(#[trigger] board(r, j), after)
        <= capacity by {
        lemma_same_cargo(before, after, board(r, j));
        assert(mass(board(r, j), before) <= capacity);
    }
}

/// Loads that fit with tables of trains and packages fit with tables of
/// the same trains and the same packages.
pub proof fn lemma_loads_fit_same(
    plan: Seq<MovementView>,
    trains: Seq<TrainView>,
    packages: Seq<PackageView>,
    trains_after: Seq<TrainView>,
    packages_after: Seq<PackageView>,
)
    requires
        same_fleet(trains, trains_after),
        same_cargo(packages, packages_after),
        loads_fit(plan, trains, packages),
    ensures
        loads_fit(plan, trains_after, packages_after),
{
    assert forall|i: int| 0 <= i < trains_after.len() implies run_fits(
        runs(plan, (#[trigger] trains_after[i]).name),
        packages_after,
        trains_after[i].capacity,
    ) by {
        assert(run_fits(runs(plan, trains[i].name), packages, trains[i].capacity));
        lemma_run_fits_same(
            runs(plan, trains[i].name),
            packages,
            packages_after,
            trains[i].capacity,
        );
    }
}

/// The loads of a state are in order: the tables tidy, no weight negative,
/// every train within its capacity in what it has claimed, holding what
/// the timeline says, and on none of its movements loaded beyond its capacity.
pub open spec fn loads_ok(
    trains: Seq<TrainView>,
    packages: Seq<PackageView>,
    movements: Seq<MovementView>,
) -> bool {
    &&& tidy(trains, packages)
    &&& weights_ok(packages)
    &&& within_capacity(trains, packages)
    &&& on_track(trains, movements)
    &&& loads_fit(movements, trains, packages)
}

/// A step that the search takes keeps the loads in order, and the trains
/// and the packages what they are.
pub proof fn lemma_advance_loads(
    known: Seq<PathTableView>,
    trains: Seq<TrainView>,
    packages: Seq<PackageView>,
    movements: Seq<MovementView>,
    c: CandidateView,
)
    requires
        ways_ok(known),
        timeline_ok(trains, packages, movements),
        loads_ok(trains, packages, movements),
        candidates(trains, packages) is Ok,
        candidates(trains, packages).unwrap().contains(c),
        advance(known, trains, packages, movements, c) is Some,
        advance(known, trains, packages, movements, c).unwrap() is Ok,
    ensures
        ({
            let next = advance(known, trains, packages, movements, c).unwrap().unwrap();
            &&& loads_ok(next.trains, next.packages, next.movements)
            &&& same_fleet(trains, next.trains)
            &&& same_cargo(packages, next.packages)
        }),
{
    let next = advance(known, trains, packages, movements, c).unwrap().unwrap();
    lemma_step_keeps_capacity(known, trains, packages, movements, c);
    lemma_position(train_names(trains), c.train);
    lemma_position(package_names(packages), c.package);
    let ti = position(train_names(trains), c.train).unwrap();
    let pi = position(package_names(packages), c.package).unwrap();
    let train = trains[ti];
    let package = packages[pi];
    let names = train_names(trains);
    lemma_way_ok(known, train.current_location, package, c.is_pickup);
    let d = way(known, train.current_location, package, c.is_pickup).unwrap().unwrap();
    assert(names[ti] == train.name);
    assert(names.contains(train.name));
    lemma_moved_ok(train, d, packages, movements, names);
    let after = moved(train, d, packages, movements).unwrap();
    lemma_settle(trains, packages, ti, pi, c, d, after);
    let start = set_out(train, package, packages, c, d);
    let loaded = take_on_all(start, after.picked_up).unwrap();
    let h = hand_over_all(loaded, after.delivered).unwrap();
    lemma_take_on_all_held(start, after.picked_up);
    lemma_hand_over_all_held(loaded, after.delivered);
    assert(next.trains == trains.update(ti, h.train));
    assert(same_fleet(trains, next.trains)) by {
        assert forall|i: int| 0 <= i < trains.len() implies (#[trigger] next.trains[i]).name
            == trains[i].name && next.trains[i].capacity == trains[i].capacity
            && next.trains[i].start == trains[i].start by {}
    }
    assert(within_capacity(trains, packages));
    assert(mass(train.claimed(), packages) <= train.capacity);
    assert(train.packages_picked_up == held(movements, train.name));
    assert(run_fits(runs(movements, train.name), packages, train.capacity));
    if d.cumulative_distance != 0 {
        lemma_trip_loads(train, d, packages, movements);
    } else {
        assert(train.packages_picked_up + after.picked_up =~= train.packages_picked_up);
        lemma_remaining_all(train.packages_picked_up);
    }
    assert forall|i: int| 0 <= i < next.trains.len() implies (
    #[trigger] next.trains[i]).packages_picked_up == held(next.movements, next.trains[i].name)
        && run_fits(runs(next.movements, next.trains[i].name), next.packages, next.trains[i].capacity) by {
        assert(names[i] == trains[i].name);
        if i != ti {
            assert(next.trains[i] == trains[i]);
            assert(names[i] != names[ti]);
            assert(runs(after.movements, trains[i].name) == runs(movements, trains[i].name));
            assert(trains[i].packages_picked_up == held(movements, trains[i].name));
            assert(run_fits(runs(movements, trains[i].name), packages, trains[i].capacity));
            lemma_run_fits_same(
                runs(movements, trains[i].name),
                packages,
                next.packages,
                trains[i].capacity,
            );
        } else {
            lemma_run_fits_same(
                runs(after.movements, train.name),
                packages,
                next.packages,
                train.capacity,
            );
        }
    }
}

} // verus!
