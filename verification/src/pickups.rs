//! Why every package is taken on once, by the train that hands it over, and before that.

use vstd::prelude::*;
use crate::candidates::{candidates, CandidateView};
use crate::capacity::{
    committed, is_offer, lemma_candidate_is_offer, lemma_hand_over_all_mass, lemma_set_out_fits,
    lemma_step_keeps_capacity, lemma_take_on_all_mass, step_fits,
};
use crate::graph::PathTableView;
use crate::loads::{lemma_hand_over_all_held, lemma_take_on_all_held, loads_ok};
use crate::movement::MovementView;
use crate::once::{claims_apart, gives, lemma_claimed_committed, train_gives};
use crate::package::{package_names, PackageView};
use crate::search::{advance, hand_over_all, set_out, take_on_all, way};
use crate::soundness::{lemma_moved_ok, lemma_settle, lemma_trip_legs, lemma_way_ok, timeline_ok, ways_ok};
use crate::sums::{claims_ok, lemma_concat_has, lemma_remaining_has};
use crate::table::{lemma_position, lemma_position_is, position};
use crate::timeline::{due, last_end, lemma_due_known, moved, stop, trip};
use crate::train::{train_names, TrainView};
use crate::validity::{lemma_runs_add, lemma_runs_own, runs};

verus! {

/// Movement `a` of the run takes the package called `name` on, as the `k`th of its packages.
pub open spec fn takes(r: Seq<MovementView>, a: int, k: int, name: Seq<char>) -> bool {
    0 <= a < r.len() && 0 <= k < r[a].packages_picked_up.len() && r[a].packages_picked_up[k]
        == name
}

/// Movement `a` of train `i` takes the package called `name` on, as the `k`th of its packages.
pub open spec fn train_takes(
    plan: Seq<MovementView>,
    trains: Seq<TrainView>,
    i: int,
    a: int,
    k: int,
    name: Seq<char>,
) -> bool {
    0 <= i < trains.len() && takes(runs(plan, trains[i].name), a, k, name)
}

/// No package is taken on twice: not by two trains, not by two movements of
/// a train, and not twice by one movement.
pub open spec fn takes_once(plan: Seq<MovementView>, trains: Seq<TrainView>) -> bool {
    forall|i: int, a: int, k: int, i2: int, a2: int, k2: int, name: Seq<char>|
        #[trigger] train_takes(plan, trains, i, a, k, name) && #[trigger] train_takes(
            plan,
            trains,
            i2,
            a2,
            k2,
            name,
        ) ==> i == i2 && a == a2 && k == k2
}

/// Train `i` has taken the package called `name` on with a movement no later than its `a`th.
pub open spec fn taken_by(
    plan: Seq<MovementView>,
    trains: Seq<TrainView>,
    i: int,
    a: int,
    name: Seq<char>,
) -> bool {
    exists|a0: int, k0: int| #[trigger] train_takes(plan, trains, i, a0, k0, name) && a0 <= a
}

/// What a train hands over, that train has taken on, with that movement or an earlier one.
pub open spec fn given_after_taken(plan: Seq<MovementView>, trains: Seq<TrainView>) -> bool {
    forall|i: int, a: int, k: int, name: Seq<char>| #[trigger]
        train_gives(plan, trains, i, a, k, name) ==> taken_by(plan, trains, i, a, name)
}

/// No train is committed to the package called `name`.
pub open spec fn uncommitted(trains: Seq<TrainView>, name: Seq<char>) -> bool {
    forall|i: int|
        0 <= i < trains.len() ==> !(#[trigger] trains[i]).packages_to_pick_up.contains(name)
}

/// What has been taken on is marked, and no train is committed to it any more.
pub open spec fn taken_off(
    trains: Seq<TrainView>,
    packages: Seq<PackageView>,
    movements: Seq<MovementView>,
) -> bool {
    forall|i: int, a: int, k: int, name: Seq<char>| #[trigger]
        train_takes(movements, trains, i, a, k, name) ==> committed(packages, name)
            && uncommitted(trains, name)
}

/// What a train holds, it has taken on.
pub open spec fn held_taken(trains: Seq<TrainView>, movements: Seq<MovementView>) -> bool {
    forall|i: int, x: Seq<char>|
        0 <= i < trains.len() && #[trigger] trains[i].packages_picked_up.contains(x) ==> taken_by(
            movements,
            trains,
            i,
            runs(movements, trains[i].name).len() - 1,
            x,
        )
}

/// What a step changes, as far as taking on goes.
pub open spec fn take_shape(
    trains: Seq<TrainView>,
    packages: Seq<PackageView>,
    movements: Seq<MovementView>,
    after_trains: Seq<TrainView>,
    after_movements: Seq<MovementView>,
    ti: int,
    legs: Seq<MovementView>,
    key: Option<Seq<char>>,
) -> bool {
    &&& 0 <= ti < trains.len()
    &&& after_trains.len() == trains.len()
    &&& forall|i: int| 0 <= i < trains.len() ==> (#[trigger] after_trains[i]).name == trains[i].name
    &&& forall|i: int|
        0 <= i < trains.len() && i != ti ==> runs(after_movements, (#[trigger] trains[i]).name)
            == runs(movements, trains[i].name)
    &&& runs(after_movements, trains[ti].name) == runs(movements, trains[ti].name) + legs
    &&& forall|m: int, k: int, x: Seq<char>| #[trigger]
        takes(legs, m, k, x) ==> m == 0 && trains[ti].packages_to_pick_up.contains(x)
            && !after_trains[ti].packages_to_pick_up.contains(x)
    &&& forall|m: int, k: int, m2: int, k2: int, x: Seq<char>|
        #[trigger] takes(legs, m, k, x) && #[trigger] takes(legs, m2, k2, x) ==> m == m2 && k == k2
    &&& forall|i: int, x: Seq<char>|
        0 <= i < trains.len() && #[trigger] after_trains[i].packages_to_pick_up.contains(x)
            ==> trains[i].packages_to_pick_up.contains(x) || (i == ti && key == Some(x))
    &&& forall|i: int, x: Seq<char>|
        0 <= i < trains.len() && #[trigger] after_trains[i].packages_picked_up.contains(x)
            ==> trains[i].packages_picked_up.contains(x) || (i == ti && legs.len() > 0
            && trains[ti].packages_to_pick_up.contains(x))
    &&& forall|x: Seq<char>|
        legs.len() > 0 && #[trigger] trains[ti].packages_to_pick_up.contains(x) ==> exists|
            k: int,
        |
            takes(legs, 0, k, x)
    &&& forall|m: int, k: int, x: Seq<char>| #[trigger]
        gives(legs, m, k, x) ==> trains[ti].claimed().contains(x)
    &&& match key {
        Some(x) => !committed(packages, x),
        None => true,
    }
    &&& forall|i: int, x: Seq<char>|
        0 <= i < trains.len() && #[trigger] trains[i].claimed().contains(x) ==> committed(
            packages,
            x,
        )
}

/// A movement of a train after the step takes on what one before did, or what one of the legs does.
proof fn lemma_takes_split(
    trains: Seq<TrainView>,
    packages: Seq<PackageView>,
    movements: Seq<MovementView>,
    after_trains: Seq<TrainView>,
    after_movements: Seq<MovementView>,
    ti: int,
    legs: Seq<MovementView>,
    key: Option<Seq<char>>,
    i: int,
    a: int,
    k: int,
    name: Seq<char>,
)
    requires
        take_shape(trains, packages, movements, after_trains, after_movements, ti, legs, key),
        0 <= i < trains.len(),
    ensures
        train_takes(after_movements, after_trains, i, a, k, name) <==> train_takes(
            movements,
            trains,
            i,
            a,
            k,
            name,
        ) || (i == ti && takes(legs, a - runs(movements, trains[ti].name).len(), k, name)),
        train_gives(after_movements, after_trains, i, a, k, name) <==> train_gives(
            movements,
            trains,
            i,
            a,
            k,
            name,
        ) || (i == ti && gives(legs, a - runs(movements, trains[ti].name).len(), k, name)),
{
    assert(after_trains[i].name == trains[i].name);
    if i != ti {
        assert(runs(after_movements, trains[i].name) == runs(movements, trains[i].name));
    } else {
        let r = runs(movements, trains[ti].name);
        if 0 <= a < r.len() {
            assert((r + legs)[a] == r[a]);
        } else if r.len() <= a < r.len() + legs.len() {
            assert((r + legs)[a] == legs[a - r.len()]);
        }
    }
}

/// What was taken by a train no later than some movement is so after the step.
proof fn lemma_taken_stays(
    trains: Seq<TrainView>,
    packages: Seq<PackageView>,
    movements: Seq<MovementView>,
    after_trains: Seq<TrainView>,
    after_movements: Seq<MovementView>,
    ti: int,
    legs: Seq<MovementView>,
    key: Option<Seq<char>>,
    i: int,
    a: int,
    later: int,
    name: Seq<char>,
)
    requires
        take_shape(trains, packages, movements, after_trains, after_movements, ti, legs, key),
        0 <= i < trains.len(),
        taken_by(movements, trains, i, a, name),
        a <= later,
    ensures
        taken_by(after_movements, after_trains, i, later, name),
{
    let (a0, k0) = choose|a0: int, k0: int| #[trigger]
        train_takes(movements, trains, i, a0, k0, name) && a0 <= a;
    lemma_takes_split(
        trains,
        packages,
        movements,
        after_trains,
        after_movements,
        ti,
        legs,
        key,
        i,
        a0,
        k0,
        name,
    );
    assert(train_takes(after_movements, after_trains, i, a0, k0, name) && a0 <= later);
}

/// A step of that shape keeps every package taken on at most once, by the
/// train that holds it or has handed it over.
pub proof fn lemma_shape_keeps_takes(
    trains: Seq<TrainView>,
    packages: Seq<PackageView>,
    movements: Seq<MovementView>,
    after_trains: Seq<TrainView>,
    after_movements: Seq<MovementView>,
    ti: int,
    legs: Seq<MovementView>,
    key: Option<Seq<char>>,
)
    requires
        take_shape(trains, packages, movements, after_trains, after_movements, ti, legs, key),
        takes_once(movements, trains),
        taken_off(trains, packages, movements),
        held_taken(trains, movements),
        given_after_taken(movements, trains),
        claims_apart(trains),
    ensures
        takes_once(after_movements, after_trains),
        taken_off(after_trains, packages, after_movements),
        held_taken(after_trains, after_movements),
        given_after_taken(after_movements, after_trains),
{
    let r = runs(movements, trains[ti].name);
    assert forall|i: int, a: int, k: int, name: Seq<char>| #[trigger]
        train_takes(after_movements, after_trains, i, a, k, name) implies committed(
        packages,
        name,
    ) && uncommitted(after_trains, name) by {
        lemma_takes_split(
            trains,
            packages,
            movements,
            after_trains,
            after_movements,
            ti,
            legs,
            key,
            i,
            a,
            k,
            name,
        );
        if train_takes(movements, trains, i, a, k, name) {
            assert(committed(packages, name) && uncommitted(trains, name));
            assert forall|j: int| 0 <= j < after_trains.len() implies !(
            #[trigger] after_trains[j]).packages_to_pick_up.contains(name) by {
                if after_trains[j].packages_to_pick_up.contains(name) {
                    assert(!trains[j].packages_to_pick_up.contains(name));
                }
            }
        } else {
            assert(takes(legs, a - r.len(), k, name));
            assert(trains[ti].packages_to_pick_up.contains(name));
            lemma_concat_has(
                trains[ti].packages_to_pick_up,
                trains[ti].packages_picked_up,
                name,
            );
            assert(trains[ti].claimed().contains(name));
            assert forall|j: int| 0 <= j < after_trains.len() implies !(
            #[trigger] after_trains[j]).packages_to_pick_up.contains(name) by {
                if after_trains[j].packages_to_pick_up.contains(name) && j != ti {
                    assert(trains[j].packages_to_pick_up.contains(name));
                    lemma_concat_has(
                        trains[j].packages_to_pick_up,
                        trains[j].packages_picked_up,
                        name,
                    );
                    assert(trains[j].claimed().contains(name));
                }
            }
        }
    }
    assert forall|i: int, a: int, k: int, i2: int, a2: int, k2: int, name: Seq<char>|
        #[trigger] train_takes(after_movements, after_trains, i, a, k, name)
            && #[trigger] train_takes(
            after_movements,
            after_trains,
            i2,
            a2,
            k2,
            name,
        ) implies i == i2 && a == a2 && k == k2 by {
        lemma_takes_split(
            trains,
            packages,
            movements,
            after_trains,
            after_movements,
            ti,
            legs,
            key,
            i,
            a,
            k,
            name,
        );
        lemma_takes_split(
            trains,
            packages,
            movements,
            after_trains,
            after_movements,
            ti,
            legs,
            key,
            i2,
            a2,
            k2,
            name,
        );
        let old1 = train_takes(movements, trains, i, a, k, name);
        let old2 = train_takes(movements, trains, i2, a2, k2, name);
        if old1 && old2 {
        } else if old1 {
            assert(uncommitted(trains, name));
            assert(takes(legs, a2 - r.len(), k2, name));
            assert(trains[ti].packages_to_pick_up.contains(name));
        } else if old2 {
            assert(uncommitted(trains, name));
            assert(takes(legs, a - r.len(), k, name));
            assert(trains[ti].packages_to_pick_up.contains(name));
        } else {
            assert(takes(legs, a - r.len(), k, name));
            assert(takes(legs, a2 - r.len(), k2, name));
        }
    }
    assert forall|i: int, x: Seq<char>|
        0 <= i < after_trains.len() && #[trigger] after_trains[i].packages_picked_up.contains(
            x,
        ) implies taken_by(
        after_movements,
        after_trains,
        i,
        runs(after_movements, after_trains[i].name).len() - 1,
        x,
    ) by {
        assert(after_trains[i].name == trains[i].name);
        let last = runs(after_movements, trains[i].name).len() - 1;
        if trains[i].packages_picked_up.contains(x) {
            assert(taken_by(movements, trains, i, runs(movements, trains[i].name).len() - 1, x));
            if i != ti {
                assert(runs(after_movements, trains[i].name) == runs(movements, trains[i].name));
            }
            lemma_taken_stays(
                trains, packages, movements, after_trains, after_movements, ti, legs, key, i,
                runs(movements, trains[i].name).len() - 1, last, x,
            );
        } else {
            assert(i == ti && legs.len() > 0 && trains[ti].packages_to_pick_up.contains(x));
            let k = choose|k: int| takes(legs, 0, k, x);
            lemma_takes_split(
                trains,
                packages,
                movements,
                after_trains,
                after_movements,
                ti,
                legs,
                key,
                ti,
                r.len() as int,
                k,
                x,
            );
            assert(train_takes(after_movements, after_trains, ti, r.len() as int, k, x));
        }
    }
    assert forall|i: int, a: int, k: int, name: Seq<char>| #[trigger]
        train_gives(after_movements, after_trains, i, a, k, name) implies taken_by(
        after_movements,
        after_trains,
        i,
        a,
        name,
    ) by {
        lemma_takes_split(
            trains,
            packages,
            movements,
            after_trains,
            after_movements,
            ti,
            legs,
            key,
            i,
            a,
            k,
            name,
        );
        if train_gives(movements, trains, i, a, k, name) {
            assert(taken_by(movements, trains, i, a, name));
            lemma_taken_stays(
                trains, packages, movements, after_trains, after_movements, ti, legs, key, i, a,
                a, name,
            );
        } else {
            assert(gives(legs, a - r.len(), k, name));
            assert(trains[ti].claimed().contains(name));
            lemma_concat_has(
                trains[ti].packages_to_pick_up,
                trains[ti].packages_picked_up,
                name,
            );
            if trains[ti].packages_to_pick_up.contains(name) {
                let k0 = choose|k0: int| takes(legs, 0, k0, name);
                lemma_takes_split(
                    trains,
                    packages,
                    movements,
                    after_trains,
                    after_movements,
                    ti,
                    legs,
                    key,
                    ti,
                    r.len() as int,
                    k0,
                    name,
                );
                assert(train_takes(after_movements, after_trains, ti, r.len() as int, k0, name));
            } else {
                assert(taken_by(movements, trains, ti, r.len() - 1, name));
                lemma_taken_stays(
                    trains, packages, movements, after_trains, after_movements, ti, legs, key,
                    ti, r.len() - 1, a, name,
                );
            }
        }
    }
}

/// Every step that the search takes keeps every package taken on at most
/// once, by the train that holds it or hands it over.
#[verifier::rlimit(40)]
pub proof fn lemma_advance_takes(
    known: Seq<PathTableView>,
    trains: Seq<TrainView>,
    packages: Seq<PackageView>,
    movements: Seq<MovementView>,
    c: CandidateView,
)
    requires
        ways_ok(known),
        timeline_ok(trains, packages, movements),
        loads_ok(trains, packages, movements),
        claims_ok(trains, packages),
        claims_apart(trains),
        takes_once(movements, trains),
        taken_off(trains, packages, movements),
        held_taken(trains, movements),
        given_after_taken(movements, trains),
        candidates(trains, packages) is Ok,
        candidates(trains, packages).unwrap().contains(c),
        advance(known, trains, packages, movements, c) is Some,
        advance(known, trains, packages, movements, c).unwrap() is Ok,
    ensures
        ({
            let next = advance(known, trains, packages, movements, c).unwrap().unwrap();
            &&& takes_once(next.movements, next.trains)
            &&& taken_off(next.trains, next.packages, next.movements)
            &&& held_taken(next.trains, next.movements)
            &&& given_after_taken(next.movements, next.trains)
        }),
{
    let next = advance(known, trains, packages, movements, c).unwrap().unwrap();
    lemma_step_keeps_capacity(known, trains, packages, movements, c);
    lemma_position(train_names(trains), c.train);
    lemma_position(package_names(packages), c.package);
    let ti = position(train_names(trains), c.train).unwrap();
    let pi = position(package_names(packages), c.package).unwrap();
    let train = trains[ti];
    let package = packages[pi];
    let names = train_names(trains);
    if c.is_pickup {
        lemma_candidate_is_offer(trains, packages, c);
        let (i, j) = choose|i: int, j: int| is_offer(trains, packages, c, i, j);
        if i != pi {
            assert(package_names(packages)[i] != package_names(packages)[pi]);
        }
        if j != ti {
            assert(train_names(trains)[j] != train_names(trains)[ti]);
        }
    }
    assert(step_fits(trains, packages, ti, pi, c));
    lemma_way_ok(known, train.current_location, package, c.is_pickup);
    let d = way(known, train.current_location, package, c.is_pickup).unwrap().unwrap();
    assert(names[ti] == train.name);
    assert(names.contains(train.name));
    lemma_moved_ok(train, d, packages, movements, names);
    let after = moved(train, d, packages, movements).unwrap();
    lemma_settle(trains, packages, ti, pi, c, d, after);
    let tp = train.packages_to_pick_up;
    let pu = train.packages_picked_up;
    let picked = after.picked_up;
    let start = set_out(train, package, packages, c, d);
    let loaded = take_on_all(start, picked).unwrap();
    let h = hand_over_all(loaded, after.delivered).unwrap();
    lemma_set_out_fits(trains, packages, ti, pi, c, d);
    assert forall|k: int| 0 <= k < picked.len() implies start.train.packages_to_pick_up.contains(
        #[trigger] picked[k],
    ) by {}
    lemma_take_on_all_mass(start, picked, packages);
    lemma_hand_over_all_mass(loaded, after.delivered, packages);
    lemma_take_on_all_held(start, picked);
    lemma_hand_over_all_held(loaded, after.delivered);
    assert(next.trains == trains.update(ti, h.train));
    assert(package_names(packages)[pi] == package.name);
    assert forall|j: int| 0 <= j < pi implies package_names(packages)[j] != package.name by {
        assert(package_names(packages)[j] != package_names(packages)[pi]);
    }
    lemma_position_is(package_names(packages), package.name, pi);
    let begin = last_end(movements, train.name);
    let legs = if d.cumulative_distance != 0 {
        trip(train, d, packages, begin)
    } else {
        Seq::<MovementView>::empty()
    };
    let key = if c.is_pickup {
        Some(package.name)
    } else {
        None
    };
    let r = runs(movements, train.name);
    if d.cumulative_distance != 0 {
        lemma_trip_legs(train, d, packages, begin);
        lemma_runs_add(movements, legs, train.name);
        lemma_runs_own(legs, train.name, train.name);
    } else {
        assert(r + legs =~= r);
    }
    assert(runs(next.movements, train.name) == r + legs);
    assert forall|i: int| 0 <= i < trains.len() implies (#[trigger] next.trains[i]).name
        == trains[i].name by {
        assert(train_names(next.trains)[i] == names[i]);
    }
    assert forall|i: int| 0 <= i < trains.len() && i != ti implies runs(
        next.movements,
        (#[trigger] trains[i]).name,
    ) == runs(movements, trains[i].name) by {
        assert(names[i] != names[ti]);
    }
    assert forall|i: int, x: Seq<char>|
        0 <= i < trains.len() && #[trigger] trains[i].claimed().contains(x) implies committed(
        packages,
        x,
    ) by {
        lemma_claimed_committed(trains, packages, i, x);
    }
    assert forall|i: int, x: Seq<char>|
        0 <= i < trains.len() && #[trigger] next.trains[i].packages_to_pick_up.contains(x)
            implies trains[i].packages_to_pick_up.contains(x) || (i == ti && key == Some(x)) by {
        if i != ti {
            assert(next.trains[i] == trains[i]);
        } else {
            assert(loaded.train.packages_to_pick_up.contains(x));
            assert(start.train.packages_to_pick_up.contains(x));
            if c.is_pickup {
                assert(tp.push(package.name) =~= tp + seq![package.name]);
                lemma_concat_has(tp, seq![package.name], x);
                if seq![package.name].contains(x) {
                    let k = choose|k: int|
                        0 <= k < seq![package.name].len() && seq![package.name][k] == x;
                }
            }
        }
    }
    assert forall|i: int, x: Seq<char>|
        0 <= i < trains.len() && #[trigger] next.trains[i].packages_picked_up.contains(x)
            implies trains[i].packages_picked_up.contains(x) || (i == ti && legs.len() > 0
        && trains[ti].packages_to_pick_up.contains(x)) by {
        if i != ti {
            assert(next.trains[i] == trains[i]);
        } else {
            lemma_remaining_has(pu + picked, after.delivered, x);
            lemma_concat_has(pu, picked, x);
            if picked.contains(x) && d.cumulative_distance == 0 {
                let k = choose|k: int| 0 <= k < picked.len() && picked[k] == x;
            }
        }
    }
    assert forall|m: int, k: int, x: Seq<char>| #[trigger] takes(legs, m, k, x) implies m == 0
        && trains[ti].packages_to_pick_up.contains(x) && !next.trains[ti].packages_to_pick_up.contains(
        x,
    ) by {
        assert(tp[k] == x);
        assert(picked.contains(x));
        if h.train.packages_to_pick_up.contains(x) {
            assert(loaded.train.packages_to_pick_up.contains(x));
        }
    }
    assert forall|x: Seq<char>|
        legs.len() > 0 && #[trigger] trains[ti].packages_to_pick_up.contains(x) implies exists|
        k: int,
    |
        takes(legs, 0, k, x) by {
        let k = choose|k: int| 0 <= k < tp.len() && tp[k] == x;
        assert(takes(legs, 0, k, x));
    }
    assert forall|m: int, k: int, x: Seq<char>| #[trigger] gives(legs, m, k, x)
        implies trains[ti].claimed().contains(x) by {
        lemma_due_known(train.claimed(), packages, stop(d, 0), stop(d, m));
        let list = due(train.claimed(), packages, stop(d, m)).unwrap();
        assert(list.contains(list[k]));
        crate::deliveries::lemma_due_bound(train.claimed(), packages, stop(d, m), x);
    }
    assert(take_shape(trains, packages, movements, next.trains, next.movements, ti, legs, key));
    lemma_shape_keeps_takes(
        trains,
        packages,
        movements,
        next.trains,
        next.movements,
        ti,
        legs,
        key,
    );
    assert forall|i: int, a: int, k: int, name: Seq<char>| #[trigger]
        train_takes(next.movements, next.trains, i, a, k, name) implies committed(
        next.packages,
        name,
    ) && uncommitted(next.trains, name) by {
        assert(committed(packages, name));
        lemma_position(package_names(packages), name);
        assert(package_names(next.packages) =~= package_names(packages));
    }
}

/// What holds of taking on and handing over in one timeline holds in
/// another in which every train has the same movements, whatever else
/// differs in the trains but their names.
pub proof fn lemma_takes_same_runs(
    plan: Seq<MovementView>,
    other: Seq<MovementView>,
    trains: Seq<TrainView>,
    others: Seq<TrainView>,
)
    requires
        others.len() == trains.len(),
        forall|i: int| 0 <= i < trains.len() ==> (#[trigger] others[i]).name == trains[i].name,
        forall|i: int|
            0 <= i < trains.len() ==> runs(other, (#[trigger] trains[i]).name) == runs(
                plan,
                trains[i].name,
            ),
        takes_once(plan, trains),
        given_after_taken(plan, trains),
    ensures
        takes_once(other, others),
        given_after_taken(other, others),
{
    assert forall|i: int, a: int, k: int, name: Seq<char>|
        train_takes(other, others, i, a, k, name) == train_takes(plan, trains, i, a, k, name)
        && train_gives(other, others, i, a, k, name) == train_gives(plan, trains, i, a, k, name) by {
        if 0 <= i < trains.len() {
            assert(others[i].name == trains[i].name);
            assert(runs(other, trains[i].name) == runs(plan, trains[i].name));
        }
    }
    assert forall|i: int, a: int, k: int, i2: int, a2: int, k2: int, name: Seq<char>|
        #[trigger] train_takes(other, others, i, a, k, name) && #[trigger] train_takes(
            other,
            others,
            i2,
            a2,
            k2,
            name,
        ) implies i == i2 && a == a2 && k == k2 by {
        assert(train_takes(plan, trains, i, a, k, name));
        assert(train_takes(plan, trains, i2, a2, k2, name));
    }
    assert forall|i: int, a: int, k: int, name: Seq<char>| #[trigger]
        train_gives(other, others, i, a, k, name) implies taken_by(other, others, i, a, name) by {
        assert(train_gives(plan, trains, i, a, k, name));
        assert(taken_by(plan, trains, i, a, name));
        let (a0, k0) = choose|a0: int, k0: int| #[trigger]
            train_takes(plan, trains, i, a0, k0, name) && a0 <= a;
        assert(train_takes(other, others, i, a0, k0, name));
    }
}

/// What holds of taking on and handing over for trains holds for trains of the same names.
pub proof fn lemma_takes_same(
    plan: Seq<MovementView>,
    trains: Seq<TrainView>,
    others: Seq<TrainView>,
)
    requires
        others.len() == trains.len(),
        forall|i: int| 0 <= i < trains.len() ==> (#[trigger] others[i]).name == trains[i].name,
        takes_once(plan, trains),
        given_after_taken(plan, trains),
    ensures
        takes_once(plan, others),
        given_after_taken(plan, others),
{
    lemma_takes_same_runs(plan, plan, trains, others);
}

} // verus!
