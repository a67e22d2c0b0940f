//! The capacity bound as sums: what a train has taken on, less what it has
//! handed over, never weighs more than it can carry.

use vstd::prelude::*;
use crate::candidates::{candidates, CandidateView};
use crate::capacity::{
    committed, is_offer, lemma_candidate_is_offer, lemma_hand_over_all_mass, lemma_mass_add,
    lemma_mass_without, lemma_set_out_fits, lemma_step_keeps_capacity, lemma_take_on_all_mass,
    lemma_weight_non_negative, lemma_without_has, mass, remaining, step_fits, weights_ok,
};
use crate::graph::PathTableView;
use crate::loads::{
    board, lemma_board_prefix, lemma_hand_over_all_held, lemma_take_on_all_held,
    lemma_trip_board, loads_ok,
};
use crate::movement::MovementView;
use crate::package::{package_names, PackageView};
use crate::search::{advance, hand_over_all, set_out, take_on_all, way, without};
use crate::soundness::{lemma_moved_ok, lemma_settle, lemma_trip_legs, lemma_way_ok, timeline_ok, ways_ok};
use crate::table::{lemma_position, position};
use crate::timeline::{last_end, moved, trip};
use crate::train::{train_names, TrainView};
use crate::validity::{lemma_runs_add, lemma_runs_own, runs};

verus! {

/// No train has claimed a package twice, and what a train holds is not free.
pub open spec fn claims_ok(trains: Seq<TrainView>, packages: Seq<PackageView>) -> bool {
    &&& forall|i: int| 0 <= i < trains.len() ==> (#[trigger] trains[i]).claimed().no_duplicates()
    &&& forall|i: int, k: int|
        0 <= i < trains.len() && 0 <= k < trains[i].packages_picked_up.len() ==> committed(
            packages,
            #[trigger] trains[i].packages_picked_up[k],
        )
}

/// On none of the movements is a package on board twice.
pub open spec fn run_distinct(r: Seq<MovementView>) -> bool {
    forall|j: int| 0 <= j < r.len() ==> (#[trigger] board(r, j)).no_duplicates()
}

/// No train has, on any of its movements, a package on board twice.
pub open spec fn boards_distinct(plan: Seq<MovementView>, trains: Seq<TrainView>) -> bool {
    forall|i: int| 0 <= i < trains.len() ==> run_distinct(runs(plan, (#[trigger] trains[i]).name))
}

/// What the first `n` movements take on, by weight.
pub open spec fn picked_sum(r: Seq<MovementView>, n: int, packages: Seq<PackageView>) -> int
    decreases n,
{
    if n <= 0 {
        0
    } else {
        picked_sum(r, n - 1, packages) + mass(r[n - 1].packages_picked_up, packages)
    }
}

/// What the first `n` movements hand over, by weight.
pub open spec fn given_sum(r: Seq<MovementView>, n: int, packages: Seq<PackageView>) -> int
    decreases n,
{
    if n <= 0 {
        0
    } else {
        given_sum(r, n - 1, packages) + mass(r[n - 1].packages_delivered, packages)
    }
}

/// A name is in one of two lists put together where it is in one of them.
pub proof fn lemma_concat_has(a: Seq<Seq<char>>, b: Seq<Seq<char>>, x: Seq<char>)
    ensures
        (a + b).contains(x) <==> a.contains(x) || b.contains(x),
{
    if a.contains(x) {
        let k = choose|k: int| 0 <= k < a.len() && a[k] == x;
        assert((a + b)[k] == x);
    }
    if b.contains(x) {
        let k = choose|k: int| 0 <= k < b.len() && b[k] == x;
        assert((a + b)[a.len() + k] == x);
    }
    if (a + b).contains(x) {
        let k = choose|k: int| 0 <= k < (a + b).len() && (a + b)[k] == x;
        if k < a.len() {
            assert(a[k] == x);
        } else {
            assert(b[k - a.len()] == x);
        }
    }
}

/// Two lists without a name twice, and without a name in both, make one such list.
pub proof fn lemma_concat_distinct(a: Seq<Seq<char>>, b: Seq<Seq<char>>)
    requires
        a.no_duplicates(),
        b.no_duplicates(),
        forall|x: Seq<char>| a.contains(x) ==> !b.contains(x),
    ensures
        (a + b).no_duplicates(),
{
    let s = a + b;
    assert forall|i: int, j: int| 0 <= i < s.len() && 0 <= j < s.len() && i != j implies s[i]
        != s[j] by {
        if i < a.len() && j < a.len() {
        } else if i >= a.len() && j >= a.len() {
            assert(b[i - a.len()] != b[j - a.len()]);
        } else if i < a.len() {
            assert(a.contains(a[i]));
            assert(b.contains(b[j - a.len()]));
        } else {
            assert(a.contains(a[j]));
            assert(b.contains(b[i - a.len()]));
        }
    }
}

/// A list without a name twice falls into two such lists without a name in both.
pub proof fn lemma_parts_distinct(a: Seq<Seq<char>>, b: Seq<Seq<char>>)
    requires
        (a + b).no_duplicates(),
    ensures
        a.no_duplicates(),
        b.no_duplicates(),
        forall|x: Seq<char>| a.contains(x) ==> !b.contains(x),
{
    let s = a + b;
    assert forall|i: int, j: int| 0 <= i < a.len() && 0 <= j < a.len() && i != j implies a[i]
        != a[j] by {
        assert(s[i] == a[i] && s[j] == a[j]);
    }
    assert forall|i: int, j: int| 0 <= i < b.len() && 0 <= j < b.len() && i != j implies b[i]
        != b[j] by {
        assert(s[a.len() + i] == b[i] && s[a.len() + j] == b[j]);
    }
    assert forall|x: Seq<char>| a.contains(x) implies !b.contains(x) by {
        if b.contains(x) {
            let i = choose|i: int| 0 <= i < a.len() && a[i] == x;
            let j = choose|j: int| 0 <= j < b.len() && b[j] == x;
            assert(s[i] == x && s[a.len() + j] == x);
        }
    }
}

/// What remains is what was there and is not gone.
pub proof fn lemma_remaining_has(names: Seq<Seq<char>>, gone: Seq<Seq<char>>, x: Seq<char>)
    ensures
        remaining(names, gone).contains(x) <==> names.contains(x) && !gone.contains(x),
    decreases names.len(),
{
    let w = remaining(names, gone);
    if names.len() > 0 {
        let rest = names.drop_last();
        lemma_remaining_has(rest, gone, x);
        assert(names.last() == names[names.len() - 1]);
        if names.contains(x) {
            let k = choose|k: int| 0 <= k < names.len() && names[k] == x;
            if k < rest.len() {
                assert(rest[k] == x);
            }
        }
        if rest.contains(x) {
            let k = choose|k: int| 0 <= k < rest.len() && rest[k] == x;
            assert(names[k] == x);
        }
        if !gone.contains(names.last()) {
            let inner = remaining(rest, gone);
            if w.contains(x) {
                let k = choose|k: int| 0 <= k < w.len() && w[k] == x;
                if k < inner.len() {
                    assert(inner[k] == x);
                }
            }
            if inner.contains(x) {
                let k = choose|k: int| 0 <= k < inner.len() && inner[k] == x;
                assert(w[k] == x);
            }
            if x == names.last() {
                assert(w[inner.len() as int] == x);
            }
        }
    }
}

/// What remains of a list without a name twice is such a list.
pub proof fn lemma_remaining_distinct(names: Seq<Seq<char>>, gone: Seq<Seq<char>>)
    requires
        names.no_duplicates(),
    ensures
        remaining(names, gone).no_duplicates(),
    decreases names.len(),
{
    if names.len() > 0 {
        let rest = names.drop_last();
        assert forall|i: int, j: int|
            0 <= i < rest.len() && 0 <= j < rest.len() && i != j implies rest[i] != rest[j] by {
            assert(rest[i] == names[i] && rest[j] == names[j]);
        }
        lemma_remaining_distinct(rest, gone);
        if !gone.contains(names.last()) {
            let inner = remaining(rest, gone);
            lemma_remaining_has(rest, gone, names.last());
            if rest.contains(names.last()) {
                let k = choose|k: int| 0 <= k < rest.len() && rest[k] == names.last();
                assert(names[k] == names[names.len() - 1]);
            }
            lemma_concat_distinct(inner, seq![names.last()]);
            assert(inner + seq![names.last()] =~= inner.push(names.last()));
        }
    }
}

/// A name that the list lacks makes no difference to what remains.
pub proof fn lemma_remaining_without(names: Seq<Seq<char>>, gone: Seq<Seq<char>>, x: Seq<char>)
    requires
        !names.contains(x),
    ensures
        remaining(names, gone) == remaining(names, without(gone, x)),
    decreases names.len(),
{
    if names.len() > 0 {
        let rest = names.drop_last();
        assert(names.last() == names[names.len() - 1]);
        assert(names.contains(names.last()));
        if rest.contains(x) {
            let k = choose|k: int| 0 <= k < rest.len() && rest[k] == x;
            assert(names[k] == x);
        }
        lemma_remaining_without(rest, gone, x);
        lemma_without_has(gone, x, names.last());
    }
}

/// What is gone takes no more off a list without a name twice than it weighs.
pub proof fn lemma_remaining_weighs(
    names: Seq<Seq<char>>,
    gone: Seq<Seq<char>>,
    packages: Seq<PackageView>,
)
    requires
        weights_ok(packages),
        names.no_duplicates(),
    ensures
        mass(names, packages) - mass(gone, packages) <= mass(remaining(names, gone), packages),
    decreases names.len(),
{
    if names.len() == 0 {
        crate::loads::lemma_remaining_all(names);
        lemma_remaining_mass_floor(gone, packages);
    } else {
        let rest = names.drop_last();
        let x = names.last();
        assert(x == names[names.len() - 1]);
        assert forall|i: int, j: int|
            0 <= i < rest.len() && 0 <= j < rest.len() && i != j implies rest[i] != rest[j] by {
            assert(rest[i] == names[i] && rest[j] == names[j]);
        }
        lemma_weight_non_negative(packages, x);
        if gone.contains(x) {
            if rest.contains(x) {
                let k = choose|k: int| 0 <= k < rest.len() && rest[k] == x;
                assert(names[k] == names[names.len() - 1]);
            }
            lemma_remaining_without(rest, gone, x);
            lemma_mass_without(gone, x, packages);
            lemma_remaining_weighs(rest, without(gone, x), packages);
        } else {
            lemma_remaining_weighs(rest, gone, packages);
            crate::capacity::lemma_mass_push(remaining(rest, gone), x, packages);
        }
    }
}

/// No list weighs less than nothing where no weight is negative.
pub proof fn lemma_remaining_mass_floor(names: Seq<Seq<char>>, packages: Seq<PackageView>)
    requires
        weights_ok(packages),
    ensures
        mass(names, packages) >= 0,
    decreases names.len(),
{
    if names.len() > 0 {
        lemma_remaining_mass_floor(names.drop_last(), packages);
        lemma_weight_non_negative(packages, names.last());
    }
}

/// What a train has taken on up to a movement, less what it has handed
/// over before it, weighs no more than what it has on board on that movement.
pub proof fn lemma_board_sums(r: Seq<MovementView>, packages: Seq<PackageView>, j: int)
    requires
        weights_ok(packages),
        run_distinct(r),
        0 <= j < r.len(),
    ensures
        picked_sum(r, j + 1, packages) - given_sum(r, j, packages) <= mass(board(r, j), packages),
    decreases j,
{
    if j > 0 {
        lemma_board_sums(r, packages, j - 1);
        let before = board(r, j - 1);
        assert(before.no_duplicates());
        lemma_remaining_weighs(before, r[j - 1].packages_delivered, packages);
        lemma_mass_add(
            remaining(before, r[j - 1].packages_delivered),
            r[j].packages_picked_up,
            packages,
        );
    } else {
        assert(picked_sum(r, 0, packages) == 0);
    }
}

/// A step that the search takes keeps the claims in order, and every
/// board without a package twice.
pub proof fn lemma_advance_claims(
    known: Seq<PathTableView>,
    trains: Seq<TrainView>,
    packages: Seq<PackageView>,
    movements: Seq<MovementView>,
    c: CandidateView,
)
    requires
        ways_ok(known),
        timeline_ok(trains, packages, movements),
        loads_ok(trains, packages, movements),
        claims_ok(trains, packages),
        boards_distinct(movements, trains),
        candidates(trains, packages) is Ok,
        candidates(trains, packages).unwrap().contains(c),
        advance(known, trains, packages, movements, c) is Some,
        advance(known, trains, packages, movements, c).unwrap() is Ok,
    ensures
        ({
            let next = advance(known, trains, packages, movements, c).unwrap().unwrap();
            &&& claims_ok(next.trains, next.packages)
            &&& boards_distinct(next.movements, next.trains)
        }),
{
    let next = advance(known, trains, packages, movements, c).unwrap().unwrap();
    lemma_step_keeps_capacity(known, trains, packages, movements, c);
    lemma_position(train_names(trains), c.train);
    lemma_position(package_names(packages), c.package);
    let ti = position(train_names(trains), c.train).unwrap();
    let pi = position(package_names(packages), c.package).unwrap();
    let train = trains[ti];
    let package = packages[pi];
    let names = train_names(trains);
    if c.is_pickup {
        lemma_candidate_is_offer(trains, packages, c);
        let (i, j) = choose|i: int, j: int| is_offer(trains, packages, c, i, j);
        if i != pi {
            assert(package_names(packages)[i] != package_names(packages)[pi]);
        }
        if j != ti {
            assert(train_names(trains)[j] != train_names(trains)[ti]);
        }
    }
    assert(step_fits(trains, packages, ti, pi, c));
    lemma_way_ok(known, train.current_location, package, c.is_pickup);
    let d = way(known, train.current_location, package, c.is_pickup).unwrap().unwrap();
    assert(names[ti] == train.name);
    assert(names.contains(train.name));
    lemma_moved_ok(train, d, packages, movements, names);
    let after = moved(train, d, packages, movements).unwrap();
    lemma_settle(trains, packages, ti, pi, c, d, after);
    let start = set_out(train, package, packages, c, d);
    let loaded = take_on_all(start, after.picked_up).unwrap();
    let h = hand_over_all(loaded, after.delivered).unwrap();
    lemma_take_on_all_held(start, after.picked_up);
    lemma_hand_over_all_held(loaded, after.delivered);
    assert(next.trains == trains.update(ti, h.train));
    lemma_held_lists(trains, packages, ti, pi, c, d, after.picked_up, after.delivered);
    assert forall|i: int| 0 <= i < next.trains.len() implies (
    #[trigger] next.trains[i]).claimed().no_duplicates() by {
        if i != ti {
            assert(next.trains[i] == trains[i]);
        }
    }
    assert forall|i: int, k: int|
        0 <= i < next.trains.len() && 0 <= k < next.trains[i].packages_picked_up.len()
            implies committed(next.packages, #[trigger] next.trains[i].packages_picked_up[k]) by {
        let x = next.trains[i].packages_picked_up[k];
        if i != ti {
            assert(next.trains[i] == trains[i]);
            assert(committed(packages, trains[i].packages_picked_up[k]));
        } else {
            assert(h.train.packages_picked_up.contains(x));
        }
        assert(committed(packages, x));
        lemma_position(package_names(packages), x);
        assert(package_names(next.packages) =~= package_names(packages));
    }
    let r = runs(movements, train.name);
    assert(run_distinct(r));
    if d.cumulative_distance != 0 {
        let begin = last_end(movements, train.name);
        let legs = trip(train, d, packages, begin);
        let all = r + legs;
        lemma_trip_legs(train, d, packages, begin);
        lemma_runs_add(movements, legs, train.name);
        lemma_runs_own(legs, train.name, train.name);
        assert(runs(next.movements, train.name) == all);
        let set = train.packages_picked_up + train.packages_to_pick_up;
        lemma_parts_distinct(train.packages_to_pick_up, train.packages_picked_up);
        assert forall|x: Seq<char>| train.packages_picked_up.contains(x)
            implies !train.packages_to_pick_up.contains(x) by {}
        lemma_concat_distinct(train.packages_picked_up, train.packages_to_pick_up);
        assert forall|j: int| 0 <= j < all.len() implies (#[trigger] board(all, j)).no_duplicates() by {
            if j < r.len() {
                lemma_board_prefix(r, legs, j);
                assert(board(r, j).no_duplicates());
            } else {
                lemma_trip_board(train, d, packages, begin, r, j - r.len());
                lemma_remaining_distinct(
                    set,
                    crate::timeline::handed_over(train, d, packages, j - r.len()),
                );
            }
        }
    }
    assert forall|i: int| 0 <= i < next.trains.len() implies run_distinct(
        runs(next.movements, (#[trigger] next.trains[i]).name),
    ) by {
        assert(names[i] == trains[i].name);
        if i != ti {
            assert(next.trains[i] == trains[i]);
            assert(names[i] != names[ti]);
            assert(runs(after.movements, trains[i].name) == runs(movements, trains[i].name));
            assert(run_distinct(runs(movements, trains[i].name)));
        } else {
            assert(next.trains[i].name == train.name);
        }
    }
}

/// What the train that moved has claimed after the step: nothing twice, and
/// it holds only what it held or had committed to.
proof fn lemma_held_lists(
    trains: Seq<TrainView>,
    packages: Seq<PackageView>,
    ti: int,
    pi: int,
    c: CandidateView,
    d: crate::destination::DestinationView,
    picked: Seq<Seq<char>>,
    delivered: Seq<Seq<char>>,
)
    requires
        step_fits(trains, packages, ti, pi, c),
        claims_ok(trains, packages),
        picked == trains[ti].packages_to_pick_up || picked == Seq::<Seq<char>>::empty(),
        take_on_all(set_out(trains[ti], packages[pi], packages, c, d), picked) is Ok,
        hand_over_all(
            take_on_all(set_out(trains[ti], packages[pi], packages, c, d), picked).unwrap(),
            delivered,
        ) is Ok,
    ensures
        ({
            let h = hand_over_all(
                take_on_all(set_out(trains[ti], packages[pi], packages, c, d), picked).unwrap(),
                delivered,
            ).unwrap();
            &&& h.train.claimed().no_duplicates()
            &&& forall|x: Seq<char>| #[trigger]
                h.train.packages_picked_up.contains(x) ==> committed(packages, x)
        }),
{
    let train = trains[ti];
    let package = packages[pi];
    let tp = train.packages_to_pick_up;
    let pu = train.packages_picked_up;
    let start = set_out(train, package, packages, c, d);
    let loaded = take_on_all(start, picked).unwrap();
    let h = hand_over_all(loaded, delivered).unwrap();
    lemma_set_out_fits(trains, packages, ti, pi, c, d);
    assert forall|k: int| 0 <= k < picked.len() implies start.train.packages_to_pick_up.contains(
        #[trigger] picked[k],
    ) by {}
    lemma_take_on_all_mass(start, picked, packages);
    lemma_hand_over_all_mass(loaded, delivered, packages);
    lemma_take_on_all_held(start, picked);
    lemma_hand_over_all_held(loaded, delivered);
    assert(train.claimed().no_duplicates());
    lemma_parts_distinct(tp, pu);
    assert(start.train.packages_picked_up == pu);
    assert forall|x: Seq<char>| picked.contains(x) implies tp.contains(x) by {
        if picked != tp {
            let k = choose|k: int| 0 <= k < picked.len() && picked[k] == x;
        }
    }
    assert forall|x: Seq<char>| pu.contains(x) implies !picked.contains(x) && committed(
        packages,
        x,
    ) by {
        let k = choose|k: int| 0 <= k < pu.len() && pu[k] == x;
        assert(committed(packages, train.packages_picked_up[k]));
    }
    assert forall|x: Seq<char>| tp.contains(x) implies committed(packages, x) by {
        let k = choose|k: int| 0 <= k < tp.len() && tp[k] == x;
        assert(committed(packages, train.packages_to_pick_up[k]));
    }
    lemma_concat_distinct(pu, picked);
    lemma_remaining_distinct(pu + picked, delivered);
    let after_tp = h.train.packages_to_pick_up;
    let after_pu = h.train.packages_picked_up;
    assert forall|x: Seq<char>| #[trigger] after_pu.contains(x) implies committed(packages, x)
        && (pu.contains(x) || picked.contains(x)) by {
        lemma_remaining_has(pu + picked, delivered, x);
        lemma_concat_has(pu, picked, x);
    }
    assert(package_names(packages)[pi] == package.name);
    assert forall|x: Seq<char>| after_tp.contains(x) implies !after_pu.contains(x) by {
        assert(loaded.train.packages_to_pick_up.contains(x));
        assert(start.train.packages_to_pick_up.contains(x) && !picked.contains(x));
        if after_pu.contains(x) {
            assert(pu.contains(x));
            assert(committed(packages, x));
            if tp.contains(x) {
            } else {
                assert(c.is_pickup && x == package.name) by {
                    if c.is_pickup {
                        lemma_concat_has(tp, seq![package.name], x);
                        assert(tp.push(package.name) =~= tp + seq![package.name]);
                        if seq![package.name].contains(x) {
                            let k = choose|k: int|
                                0 <= k < seq![package.name].len() && seq![package.name][k] == x;
                        }
                    }
                }
                lemma_position(package_names(packages), x);
                crate::table::lemma_position_is(package_names(packages), x, pi);
            }
        }
    }
    lemma_concat_distinct(after_tp, after_pu);
}

} // verus!
