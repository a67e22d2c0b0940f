//! Why no package is handed over twice.

use vstd::prelude::*;
use crate::candidates::{candidates, CandidateView};
use crate::capacity::{
    committed, is_offer, lemma_candidate_is_offer, lemma_hand_over_all_mass, lemma_set_out_fits,
    lemma_step_keeps_capacity, lemma_take_on_all_mass, step_fits,
};
use crate::deliveries::{bound_for, lemma_due_bound};
use crate::destination::DestinationView;
use crate::graph::PathTableView;
use crate::loads::{lemma_hand_over_all_held, lemma_take_on_all_held, loads_ok};
use crate::movement::MovementView;
use crate::package::{package_names, PackageView};
use crate::paths::{follows, is_simple, sound, station_before, AdjacencyView};
use crate::route::RouteView;
use crate::search::{advance, hand_over_all, set_out, take_on_all, way};
use crate::soundness::{
    lemma_handed_over, lemma_moved_ok, lemma_settle, lemma_trip_legs, lemma_way_ok,
    lemma_way_sound, timeline_ok, ways_ok, ways_sound,
};
use crate::sums::{claims_ok, lemma_concat_has, lemma_remaining_has};
use crate::table::{lemma_position, lemma_position_is, position};
use crate::timeline::{
    due, handed_over, last_end, leg_count, lemma_due_known, moved, stop, trip,
};
use crate::train::{train_names, TrainView};
use crate::validity::{lemma_runs_add, lemma_runs_own, runs};

verus! {

/// Movement `a` of the run hands the package called `name` over, as the `k`th of its packages.
pub open spec fn gives(r: Seq<MovementView>, a: int, k: int, name: Seq<char>) -> bool {
    0 <= a < r.len() && 0 <= k < r[a].packages_delivered.len() && r[a].packages_delivered[k]
        == name
}

/// Movement `a` of train `i` hands the package called `name` over, as the `k`th of its packages.
pub open spec fn train_gives(
    plan: Seq<MovementView>,
    trains: Seq<TrainView>,
    i: int,
    a: int,
    k: int,
    name: Seq<char>,
) -> bool {
    0 <= i < trains.len() && gives(runs(plan, trains[i].name), a, k, name)
}

/// No package is handed over twice: not by two trains, not by two movements
/// of a train, and not twice by one movement.
pub open spec fn hands_once(plan: Seq<MovementView>, trains: Seq<TrainView>) -> bool {
    forall|i: int, a: int, k: int, i2: int, a2: int, k2: int, name: Seq<char>|
        #[trigger] train_gives(plan, trains, i, a, k, name) && #[trigger] train_gives(
            plan,
            trains,
            i2,
            a2,
            k2,
            name,
        ) ==> i == i2 && a == a2 && k == k2
}

/// No train has claimed the package called `name`.
pub open spec fn unclaimed(trains: Seq<TrainView>, name: Seq<char>) -> bool {
    forall|i: int| 0 <= i < trains.len() ==> !(#[trigger] trains[i]).claimed().contains(name)
}

/// What has been handed over is marked, and no train claims it any more.
pub open spec fn done_with(
    trains: Seq<TrainView>,
    packages: Seq<PackageView>,
    movements: Seq<MovementView>,
) -> bool {
    forall|i: int, a: int, k: int, name: Seq<char>| #[trigger]
        train_gives(movements, trains, i, a, k, name) ==> committed(packages, name) && unclaimed(
            trains,
            name,
        )
}

/// No two trains have claimed the same package.
pub open spec fn claims_apart(trains: Seq<TrainView>) -> bool {
    forall|i: int, i2: int, x: Seq<char>|
        0 <= i < trains.len() && 0 <= i2 < trains.len() && i != i2 && #[trigger] trains[i].claimed().contains(
            x,
        ) ==> !#[trigger] trains[i2].claimed().contains(x)
}

/// What is due at a station of names of which none is there twice holds none twice.
pub proof fn lemma_due_distinct(names: Seq<Seq<char>>, packages: Seq<PackageView>, to: Seq<char>)
    requires
        names.no_duplicates(),
        due(names, packages, to) is Some,
    ensures
        due(names, packages, to).unwrap().no_duplicates(),
    decreases names.len(),
{
    if names.len() > 0 {
        let rest = names.drop_last();
        let last = names.last();
        assert(names[names.len() - 1] == last);
        assert forall|i: int, j: int|
            0 <= i < rest.len() && 0 <= j < rest.len() && i != j implies rest[i] != rest[j] by {
            assert(rest[i] == names[i] && rest[j] == names[j]);
        }
        lemma_due_distinct(rest, packages, to);
        let inner = due(rest, packages, to).unwrap();
        let all = due(names, packages, to).unwrap();
        if all != inner {
            assert(all == inner.push(last));
            if inner.contains(last) {
                lemma_due_bound(rest, packages, to, last);
                let k = choose|k: int| 0 <= k < rest.len() && rest[k] == last;
                assert(names[k] == names[names.len() - 1]);
            }
            assert forall|i: int, j: int|
                0 <= i < all.len() && 0 <= j < all.len() && i != j implies all[i] != all[j] by {
                if i < inner.len() && j < inner.len() {
                } else if i < inner.len() {
                    assert(inner.contains(inner[i]));
                } else {
                    assert(inner.contains(inner[j]));
                }
            }
        }
    }
}

/// What a leg hands over is among what the trip hands over.
pub proof fn lemma_due_in_handed(
    train: TrainView,
    d: DestinationView,
    packages: Seq<PackageView>,
    n: int,
    m: int,
    x: Seq<char>,
)
    requires
        0 <= m < n,
        due(train.claimed(), packages, stop(d, m)).unwrap().contains(x),
    ensures
        handed_over(train, d, packages, n).contains(x),
    decreases n,
{
    lemma_concat_has(
        handed_over(train, d, packages, n - 1),
        due(train.claimed(), packages, stop(d, n - 1)).unwrap(),
        x,
    );
    if m < n - 1 {
        lemma_due_in_handed(train, d, packages, n - 1, m, x);
    }
}

/// The legs of a way that is the record of a walk arrive at different stations.
pub proof fn lemma_stops_distinct(
    adj: Seq<AdjacencyView>,
    source: Seq<char>,
    d: DestinationView,
    m: int,
    m2: int,
)
    requires
        sound(adj, source, d),
        d.cumulative_distance != 0,
        0 <= m < m2 < leg_count(d),
    ensures
        stop(d, m) != stop(d, m2),
{
    reveal(is_simple);
    let p = choose|p: Seq<RouteView>| follows(adj, source, d, p);
    assert(p.len() > 0);
    assert(stop(d, m) == station_before(source, p, m + 1)) by {
        if m < p.len() - 1 {
            assert(d.checkpoints[m] == p[m]);
        }
    }
    assert(stop(d, m2) == station_before(source, p, m2 + 1)) by {
        if m2 < p.len() - 1 {
            assert(d.checkpoints[m2] == p[m2]);
        } else {
            assert(p.last() == p[m2]);
        }
    }
}

/// What a trip hands over, the train had claimed.
pub proof fn lemma_delivered_claimed(
    train: TrainView,
    d: DestinationView,
    packages: Seq<PackageView>,
    movements: Seq<MovementView>,
    x: Seq<char>,
)
    requires
        moved(train, d, packages, movements) is Ok,
        moved(train, d, packages, movements).unwrap().delivered.contains(x),
    ensures
        train.claimed().contains(x),
        d.cumulative_distance != 0,
{
    let after = moved(train, d, packages, movements).unwrap();
    if d.cumulative_distance == 0 {
        let k = choose|k: int| 0 <= k < after.delivered.len() && after.delivered[k] == x;
    } else {
        lemma_handed_over(train, d, packages, leg_count(d) as int, x);
        let (j, k) = choose|j: int, k: int|
            0 <= j < leg_count(d) && 0 <= k < due(
                train.claimed(),
                packages,
                stop(d, j),
            ).unwrap().len() && #[trigger] due(train.claimed(), packages, stop(d, j)).unwrap()[k]
                == x;
        lemma_due_known(train.claimed(), packages, stop(d, 0), stop(d, j));
        let list = due(train.claimed(), packages, stop(d, j)).unwrap();
        assert(list.contains(list[k]));
        lemma_due_bound(train.claimed(), packages, stop(d, j), x);
    }
}

/// What the train that moved claims after the step, it claimed before or
/// commits to now, and has not handed over on the trip.
pub proof fn lemma_next_claims(
    trains: Seq<TrainView>,
    packages: Seq<PackageView>,
    ti: int,
    pi: int,
    c: CandidateView,
    d: DestinationView,
    picked: Seq<Seq<char>>,
    delivered: Seq<Seq<char>>,
)
    requires
        step_fits(trains, packages, ti, pi, c),
        claims_ok(trains, packages),
        picked == trains[ti].packages_to_pick_up || (picked == Seq::<Seq<char>>::empty()
            && delivered == Seq::<Seq<char>>::empty()),
        forall|x: Seq<char>| delivered.contains(x) ==> trains[ti].claimed().contains(x),
        take_on_all(set_out(trains[ti], packages[pi], packages, c, d), picked) is Ok,
        hand_over_all(
            take_on_all(set_out(trains[ti], packages[pi], packages, c, d), picked).unwrap(),
            delivered,
        ) is Ok,
    ensures
        ({
            let h = hand_over_all(
                take_on_all(set_out(trains[ti], packages[pi], packages, c, d), picked).unwrap(),
                delivered,
            ).unwrap();
            &&& forall|x: Seq<char>| #[trigger]
                h.train.claimed().contains(x) ==> !delivered.contains(x) && (
                trains[ti].claimed().contains(x) || (c.is_pickup && x == packages[pi].name))
            &&& forall|x: Seq<char>| #[trigger]
                trains[ti].claimed().contains(x) ==> committed(packages, x)
            &&& c.is_pickup ==> !committed(packages, packages[pi].name)
        }),
{
    let train = trains[ti];
    let package = packages[pi];
    let tp = train.packages_to_pick_up;
    let pu = train.packages_picked_up;
    let start = set_out(train, package, packages, c, d);
    let loaded = take_on_all(start, picked).unwrap();
    let h = hand_over_all(loaded, delivered).unwrap();
    lemma_set_out_fits(trains, packages, ti, pi, c, d);
    assert forall|k: int| 0 <= k < picked.len() implies start.train.packages_to_pick_up.contains(
        #[trigger] picked[k],
    ) by {}
    lemma_take_on_all_mass(start, picked, packages);
    lemma_hand_over_all_mass(loaded, delivered, packages);
    lemma_take_on_all_held(start, picked);
    lemma_hand_over_all_held(loaded, delivered);
    assert(start.train.packages_picked_up == pu);
    assert(package_names(packages)[pi] == package.name);
    assert forall|j: int| 0 <= j < pi implies package_names(packages)[j] != package.name by {
        assert(package_names(packages)[j] != package_names(packages)[pi]);
    }
    lemma_position_is(package_names(packages), package.name, pi);
    assert forall|x: Seq<char>| #[trigger] train.claimed().contains(x) implies committed(
        packages,
        x,
    ) by {
        lemma_concat_has(tp, pu, x);
        if tp.contains(x) {
            let k = choose|k: int| 0 <= k < tp.len() && tp[k] == x;
            assert(committed(packages, train.packages_to_pick_up[k]));
        } else {
            let k = choose|k: int| 0 <= k < pu.len() && pu[k] == x;
            assert(committed(packages, train.packages_picked_up[k]));
        }
    }
    assert forall|x: Seq<char>| #[trigger] h.train.claimed().contains(x) implies !delivered.contains(
        x,
    ) && (train.claimed().contains(x) || (c.is_pickup && x == package.name)) by {
        lemma_concat_has(h.train.packages_to_pick_up, h.train.packages_picked_up, x);
        lemma_concat_has(tp, pu, x);
        if h.train.packages_picked_up.contains(x) {
            lemma_remaining_has(pu + picked, delivered, x);
            lemma_concat_has(pu, picked, x);
            if picked.contains(x) && picked != tp {
                let k = choose|k: int| 0 <= k < picked.len() && picked[k] == x;
            }
        } else {
            assert(loaded.train.packages_to_pick_up.contains(x));
            assert(start.train.packages_to_pick_up.contains(x) && !picked.contains(x));
            if c.is_pickup {
                assert(tp.push(package.name) =~= tp + seq![package.name]);
                lemma_concat_has(tp, seq![package.name], x);
                if seq![package.name].contains(x) {
                    let k = choose|k: int|
                        0 <= k < seq![package.name].len() && seq![package.name][k] == x;
                }
            }
            if delivered.contains(x) {
                assert(train.claimed().contains(x));
                assert(committed(packages, x));
                if tp.contains(x) {
                    assert(picked == tp);
                } else {
                    assert(x == package.name);
                }
            }
        }
    }
}

/// What a step changes, as far as handing over goes: the trains keep
/// their names; the train at `ti` gets the movements `legs`, the others
/// none; a train claims only what it claimed, or the train at `ti` what it
/// commits to, which was free; the legs hand over only what that train had
/// claimed, and claims no more, each package once.
pub open spec fn step_shape(
    trains: Seq<TrainView>,
    packages: Seq<PackageView>,
    movements: Seq<MovementView>,
    after_trains: Seq<TrainView>,
    after_movements: Seq<MovementView>,
    ti: int,
    legs: Seq<MovementView>,
    key: Option<Seq<char>>,
) -> bool {
    &&& 0 <= ti < trains.len()
    &&& after_trains.len() == trains.len()
    &&& forall|i: int| 0 <= i < trains.len() ==> (#[trigger] after_trains[i]).name == trains[i].name
    &&& forall|i: int|
        0 <= i < trains.len() && i != ti ==> runs(after_movements, (#[trigger] trains[i]).name)
            == runs(movements, trains[i].name)
    &&& runs(after_movements, trains[ti].name) == runs(movements, trains[ti].name) + legs
    &&& forall|i: int, x: Seq<char>|
        0 <= i < trains.len() && #[trigger] after_trains[i].claimed().contains(x)
            ==> trains[i].claimed().contains(x) || (i == ti && key == Some(x))
    &&& forall|m: int, k: int, x: Seq<char>| #[trigger]
        gives(legs, m, k, x) ==> trains[ti].claimed().contains(x)
            && !after_trains[ti].claimed().contains(x)
    &&& forall|m: int, k: int, m2: int, k2: int, x: Seq<char>|
        #[trigger] gives(legs, m, k, x) && #[trigger] gives(legs, m2, k2, x) ==> m == m2 && k == k2
    &&& match key {
        Some(x) => !committed(packages, x),
        None => true,
    }
    &&& forall|i: int, x: Seq<char>|
        0 <= i < trains.len() && #[trigger] trains[i].claimed().contains(x) ==> committed(
            packages,
            x,
        )
}

/// A movement of a train after the step is one that it had before, or one of the legs.
proof fn lemma_gives_split(
    trains: Seq<TrainView>,
    packages: Seq<PackageView>,
    movements: Seq<MovementView>,
    after_trains: Seq<TrainView>,
    after_movements: Seq<MovementView>,
    ti: int,
    legs: Seq<MovementView>,
    key: Option<Seq<char>>,
    i: int,
    a: int,
    k: int,
    name: Seq<char>,
)
    requires
        step_shape(trains, packages, movements, after_trains, after_movements, ti, legs, key),
        train_gives(after_movements, after_trains, i, a, k, name),
    ensures
        train_gives(movements, trains, i, a, k, name) || (i == ti && gives(
            legs,
            a - runs(movements, trains[ti].name).len(),
            k,
            name,
        )),
{
    assert(after_trains[i].name == trains[i].name);
    if i != ti {
        assert(runs(after_movements, trains[i].name) == runs(movements, trains[i].name));
    } else {
        let r = runs(movements, trains[ti].name);
        if a < r.len() {
            assert((r + legs)[a] == r[a]);
        } else {
            assert((r + legs)[a] == legs[a - r.len()]);
        }
    }
}

/// A step of that shape keeps every package handed over at most once, what
/// is handed over unclaimed, and the claims of the trains apart.
pub proof fn lemma_shape_keeps_once(
    trains: Seq<TrainView>,
    packages: Seq<PackageView>,
    movements: Seq<MovementView>,
    after_trains: Seq<TrainView>,
    after_movements: Seq<MovementView>,
    ti: int,
    legs: Seq<MovementView>,
    key: Option<Seq<char>>,
)
    requires
        step_shape(trains, packages, movements, after_trains, after_movements, ti, legs, key),
        hands_once(movements, trains),
        done_with(trains, packages, movements),
        claims_apart(trains),
    ensures
        hands_once(after_movements, after_trains),
        done_with(after_trains, packages, after_movements),
        claims_apart(after_trains),
{
    let r = runs(movements, trains[ti].name);
    assert forall|i: int, i2: int, x: Seq<char>|
        0 <= i < after_trains.len() && 0 <= i2 < after_trains.len() && i != i2
            && #[trigger] after_trains[i].claimed().contains(x)
            implies !#[trigger] after_trains[i2].claimed().contains(x) by {
        if after_trains[i2].claimed().contains(x) {
            if trains[i].claimed().contains(x) && trains[i2].claimed().contains(x) {
            } else if trains[i].claimed().contains(x) {
                assert(committed(packages, x));
            } else {
                assert(trains[i2].claimed().contains(x));
                assert(committed(packages, x));
            }
        }
    }
    assert forall|i: int, a: int, k: int, name: Seq<char>| #[trigger]
        train_gives(after_movements, after_trains, i, a, k, name) implies committed(
        packages,
        name,
    ) && unclaimed(after_trains, name) by {
        lemma_gives_split(
            trains,
            packages,
            movements,
            after_trains,
            after_movements,
            ti,
            legs,
            key,
            i,
            a,
            k,
            name,
        );
        if train_gives(movements, trains, i, a, k, name) {
            assert(committed(packages, name) && unclaimed(trains, name));
            assert forall|j: int| 0 <= j < after_trains.len() implies !(
            #[trigger] after_trains[j]).claimed().contains(name) by {
                if after_trains[j].claimed().contains(name) {
                    assert(!trains[j].claimed().contains(name));
                }
            }
        } else {
            assert(gives(legs, a - r.len(), k, name));
            assert(trains[ti].claimed().contains(name));
            assert forall|j: int| 0 <= j < after_trains.len() implies !(
            #[trigger] after_trains[j]).claimed().contains(name) by {
                if after_trains[j].claimed().contains(name) {
                    if j != ti {
                        assert(trains[j].claimed().contains(name));
                    }
                }
            }
        }
    }
    assert forall|i: int, a: int, k: int, i2: int, a2: int, k2: int, name: Seq<char>|
        #[trigger] train_gives(after_movements, after_trains, i, a, k, name)
            && #[trigger] train_gives(
            after_movements,
            after_trains,
            i2,
            a2,
            k2,
            name,
        ) implies i == i2 && a == a2 && k == k2 by {
        lemma_gives_split(
            trains,
            packages,
            movements,
            after_trains,
            after_movements,
            ti,
            legs,
            key,
            i,
            a,
            k,
            name,
        );
        lemma_gives_split(
            trains,
            packages,
            movements,
            after_trains,
            after_movements,
            ti,
            legs,
            key,
            i2,
            a2,
            k2,
            name,
        );
        let old1 = train_gives(movements, trains, i, a, k, name);
        let old2 = train_gives(movements, trains, i2, a2, k2, name);
        if old1 && old2 {
        } else if old1 {
            assert(unclaimed(trains, name));
            assert(gives(legs, a2 - r.len(), k2, name));
            assert(trains[ti].claimed().contains(name));
        } else if old2 {
            assert(unclaimed(trains, name));
            assert(gives(legs, a - r.len(), k, name));
            assert(trains[ti].claimed().contains(name));
        } else {
            assert(gives(legs, a - r.len(), k, name));
            assert(gives(legs, a2 - r.len(), k2, name));
        }
    }
}

/// What a train has claimed is marked.
pub proof fn lemma_claimed_committed(
    trains: Seq<TrainView>,
    packages: Seq<PackageView>,
    i: int,
    x: Seq<char>,
)
    requires
        crate::capacity::tidy(trains, packages),
        claims_ok(trains, packages),
        0 <= i < trains.len(),
        trains[i].claimed().contains(x),
    ensures
        committed(packages, x),
{
    let tp = trains[i].packages_to_pick_up;
    let pu = trains[i].packages_picked_up;
    lemma_concat_has(tp, pu, x);
    if tp.contains(x) {
        let k = choose|k: int| 0 <= k < tp.len() && tp[k] == x;
        assert(committed(packages, trains[i].packages_to_pick_up[k]));
    } else {
        let k = choose|k: int| 0 <= k < pu.len() && pu[k] == x;
        assert(committed(packages, trains[i].packages_picked_up[k]));
    }
}

/// The legs of a trip hand over only what the train had claimed, each package once.
pub proof fn lemma_trip_gives(
    adj: Seq<AdjacencyView>,
    source: Seq<char>,
    train: TrainView,
    d: DestinationView,
    packages: Seq<PackageView>,
    start: int,
)
    requires
        sound(adj, source, d),
        d.cumulative_distance != 0,
        train.claimed().no_duplicates(),
        due(train.claimed(), packages, stop(d, 0)) is Some,
    ensures
        forall|m: int, k: int, x: Seq<char>| #[trigger]
            gives(trip(train, d, packages, start), m, k, x) ==> train.claimed().contains(x)
                && handed_over(train, d, packages, leg_count(d) as int).contains(x),
        forall|m: int, k: int, m2: int, k2: int, x: Seq<char>|
            #[trigger] gives(trip(train, d, packages, start), m, k, x) && #[trigger] gives(
                trip(train, d, packages, start),
                m2,
                k2,
                x,
            ) ==> m == m2 && k == k2,
{
    let legs = trip(train, d, packages, start);
    assert forall|m: int, k: int, x: Seq<char>| #[trigger] gives(legs, m, k, x)
        implies train.claimed().contains(x) && handed_over(
        train,
        d,
        packages,
        leg_count(d) as int,
    ).contains(x) && bound_for(packages, x, stop(d, m)) by {
        lemma_due_known(train.claimed(), packages, stop(d, 0), stop(d, m));
        let list = due(train.claimed(), packages, stop(d, m)).unwrap();
        assert(list.contains(list[k]));
        lemma_due_bound(train.claimed(), packages, stop(d, m), x);
        lemma_due_in_handed(train, d, packages, leg_count(d) as int, m, x);
    }
    assert forall|m: int, k: int, m2: int, k2: int, x: Seq<char>|
        #[trigger] gives(legs, m, k, x) && #[trigger] gives(legs, m2, k2, x) implies m == m2 && k
        == k2 by {
        lemma_due_known(train.claimed(), packages, stop(d, 0), stop(d, m));
        lemma_due_known(train.claimed(), packages, stop(d, 0), stop(d, m2));
        let list = due(train.claimed(), packages, stop(d, m)).unwrap();
        let list2 = due(train.claimed(), packages, stop(d, m2)).unwrap();
        assert(list.contains(list[k]));
        assert(list2.contains(list2[k2]));
        lemma_due_bound(train.claimed(), packages, stop(d, m), x);
        lemma_due_bound(train.claimed(), packages, stop(d, m2), x);
        if m < m2 {
            lemma_stops_distinct(adj, source, d, m, m2);
        } else if m2 < m {
            lemma_stops_distinct(adj, source, d, m2, m);
        } else {
            lemma_due_distinct(train.claimed(), packages, stop(d, m));
        }
    }
}

/// Every step that the search takes keeps every package handed over at
/// most once, what is handed over unclaimed, and the claims of the trains apart.
#[verifier::rlimit(40)]
pub proof fn lemma_advance_once(
    adj: Seq<AdjacencyView>,
    known: Seq<PathTableView>,
    trains: Seq<TrainView>,
    packages: Seq<PackageView>,
    movements: Seq<MovementView>,
    c: CandidateView,
)
    requires
        ways_ok(known),
        ways_sound(adj, known),
        timeline_ok(trains, packages, movements),
        loads_ok(trains, packages, movements),
        claims_ok(trains, packages),
        hands_once(movements, trains),
        done_with(trains, packages, movements),
        claims_apart(trains),
        candidates(trains, packages) is Ok,
        candidates(trains, packages).unwrap().contains(c),
        advance(known, trains, packages, movements, c) is Some,
        advance(known, trains, packages, movements, c).unwrap() is Ok,
    ensures
        ({
            let next = advance(known, trains, packages, movements, c).unwrap().unwrap();
            &&& hands_once(next.movements, next.trains)
            &&& done_with(next.trains, next.packages, next.movements)
            &&& claims_apart(next.trains)
        }),
{
    let next = advance(known, trains, packages, movements, c).unwrap().unwrap();
    lemma_step_keeps_capacity(known, trains, packages, movements, c);
    lemma_position(train_names(trains), c.train);
    lemma_position(package_names(packages), c.package);
    let ti = position(train_names(trains), c.train).unwrap();
    let pi = position(package_names(packages), c.package).unwrap();
    let train = trains[ti];
    let package = packages[pi];
    let names = train_names(trains);
    if c.is_pickup {
        lemma_candidate_is_offer(trains, packages, c);
        let (i, j) = choose|i: int, j: int| is_offer(trains, packages, c, i, j);
        if i != pi {
            assert(package_names(packages)[i] != package_names(packages)[pi]);
        }
        if j != ti {
            assert(train_names(trains)[j] != train_names(trains)[ti]);
        }
    }
    assert(step_fits(trains, packages, ti, pi, c));
    lemma_way_ok(known, train.current_location, package, c.is_pickup);
    lemma_way_sound(adj, known, train.current_location, package, c.is_pickup);
    let d = way(known, train.current_location, package, c.is_pickup).unwrap().unwrap();
    assert(names[ti] == train.name);
    assert(names.contains(train.name));
    lemma_moved_ok(train, d, packages, movements, names);
    let after = moved(train, d, packages, movements).unwrap();
    lemma_settle(trains, packages, ti, pi, c, d, after);
    let start = set_out(train, package, packages, c, d);
    let loaded = take_on_all(start, after.picked_up).unwrap();
    let h = hand_over_all(loaded, after.delivered).unwrap();
    lemma_take_on_all_held(start, after.picked_up);
    lemma_hand_over_all_held(loaded, after.delivered);
    assert(next.trains == trains.update(ti, h.train));
    assert forall|x: Seq<char>| after.delivered.contains(x) implies train.claimed().contains(x) by {
        lemma_delivered_claimed(train, d, packages, movements, x);
    }
    lemma_next_claims(trains, packages, ti, pi, c, d, after.picked_up, after.delivered);
    let begin = last_end(movements, train.name);
    let legs = if d.cumulative_distance != 0 {
        trip(train, d, packages, begin)
    } else {
        Seq::<MovementView>::empty()
    };
    let key = if c.is_pickup {
        Some(package.name)
    } else {
        None
    };
    let r = runs(movements, train.name);
    if d.cumulative_distance != 0 {
        lemma_trip_legs(train, d, packages, begin);
        lemma_runs_add(movements, legs, train.name);
        lemma_runs_own(legs, train.name, train.name);
        lemma_trip_gives(adj, train.current_location, train, d, packages, begin);
    } else {
        assert(r + legs =~= r);
    }
    assert(runs(next.movements, train.name) == r + legs);
    assert forall|i: int| 0 <= i < trains.len() implies (#[trigger] next.trains[i]).name
        == trains[i].name by {
        assert(train_names(next.trains)[i] == names[i]);
    }
    assert forall|i: int| 0 <= i < trains.len() && i != ti implies runs(
        next.movements,
        (#[trigger] trains[i]).name,
    ) == runs(movements, trains[i].name) by {
        assert(names[i] != names[ti]);
    }
    assert forall|i: int, x: Seq<char>|
        0 <= i < trains.len() && #[trigger] trains[i].claimed().contains(x) implies committed(
        packages,
        x,
    ) by {
        lemma_claimed_committed(trains, packages, i, x);
    }
    assert forall|i: int, x: Seq<char>|
        0 <= i < trains.len() && #[trigger] next.trains[i].claimed().contains(x)
            implies trains[i].claimed().contains(x) || (i == ti && key == Some(x)) by {
        if i != ti {
            assert(next.trains[i] == trains[i]);
        }
    }
    assert forall|m: int, k: int, x: Seq<char>| #[trigger] gives(legs, m, k, x)
        implies trains[ti].claimed().contains(x) && !next.trains[ti].claimed().contains(x) by {
        assert(after.delivered.contains(x));
    }
    assert(step_shape(trains, packages, movements, next.trains, next.movements, ti, legs, key));
    lemma_shape_keeps_once(
        trains,
        packages,
        movements,
        next.trains,
        next.movements,
        ti,
        legs,
        key,
    );
    assert forall|i: int, a: int, k: int, name: Seq<char>| #[trigger]
        train_gives(next.movements, next.trains, i, a, k, name) implies committed(
        next.packages,
        name,
    ) && unclaimed(next.trains, name) by {
        assert(committed(packages, name));
        lemma_position(package_names(packages), name);
        assert(package_names(next.packages) =~= package_names(packages));
    }
}

} // verus!
