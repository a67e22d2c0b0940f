//! Why no train is ever loaded beyond its capacity.

use vstd::prelude::*;
use crate::candidates::{
    candidates, capable_among, commitments, commitments_of, is_capable, offers, pickups,
    total_weight, weight_of, Candidate, CandidateView,
};
use crate::destination::DestinationView;
use crate::graph::PathTableView;
use crate::movement::MovementView;
use crate::package::{package_names, PackageView};
use crate::search::{
    advance, hand_over, hand_over_all, set_out, settle, take_on, take_on_all, way, without,
    HoldView,
};
use crate::sorting::lemma_sorted_has;
use crate::soundness::{lemma_hand_over_all, lemma_take_on_all};
use crate::timeline::TripView;
use crate::table::{distinct, lemma_position, lemma_position_is, position};
use crate::timeline::{handed_over, moved};
use crate::train::{train_names, TrainView};

verus! {

/// No package has a negative weight.
pub open spec fn weights_ok(packages: Seq<PackageView>) -> bool {
    forall|i: int| 0 <= i < packages.len() ==> (#[trigger] packages[i]).weight >= 0
}

/// The table holds every one of the names.
pub open spec fn names_known(names: Seq<Seq<char>>, packages: Seq<PackageView>) -> bool {
    forall|k: int|
        0 <= k < names.len() ==> position(package_names(packages), #[trigger] names[k]) is Some
}

/// What the named packages weigh together; a package that the table lacks weighs nothing.
pub open spec fn mass(names: Seq<Seq<char>>, packages: Seq<PackageView>) -> int
    decreases names.len(),
{
    if names.len() == 0 {
        0
    } else {
        mass(names.drop_last(), packages) + match weight_of(packages, names.last()) {
            Some(weight) => weight,
            None => 0,
        }
    }
}

/// Where the table holds all the names, their total weight is their mass; else there is none.
pub proof fn lemma_total_weight_is_mass(names: Seq<Seq<char>>, packages: Seq<PackageView>)
    ensures
        total_weight(names, packages) == if names_known(names, packages) {
            Some(mass(names, packages))
        } else {
            None
        },
    decreases names.len(),
{
    if names.len() > 0 {
        let rest = names.drop_last();
        lemma_total_weight_is_mass(rest, packages);
        assert(names.last() == names[names.len() - 1]);
        if names_known(names, packages) {
            assert forall|k: int| 0 <= k < rest.len() implies position(
                package_names(packages),
                #[trigger] rest[k],
            ) is Some by {
                assert(rest[k] == names[k]);
            }
        } else {
            if names_known(rest, packages) && weight_of(packages, names.last()) is Some {
                assert forall|k: int| 0 <= k < names.len() implies position(
                    package_names(packages),
                    #[trigger] names[k],
                ) is Some by {
                    if k < rest.len() {
                        assert(rest[k] == names[k]);
                    }
                }
            }
        }
    }
}

/// The weight of a package in the table is not negative where none is.
pub proof fn lemma_weight_non_negative(packages: Seq<PackageView>, name: Seq<char>)
    requires
        weights_ok(packages),
    ensures
        match weight_of(packages, name) {
            Some(weight) => weight >= 0,
            None => true,
        },
{
    lemma_position(package_names(packages), name);
}

/// The mass of two lists is the sum of their masses.
pub proof fn lemma_mass_add(a: Seq<Seq<char>>, b: Seq<Seq<char>>, packages: Seq<PackageView>)
    ensures
        mass(a + b, packages) == mass(a, packages) + mass(b, packages),
    decreases b.len(),
{
    if b.len() == 0 {
        assert(a + b =~= a);
    } else {
        assert((a + b).drop_last() =~= a + b.drop_last());
        assert((a + b).last() == b.last());
        lemma_mass_add(a, b.drop_last(), packages);
    }
}

/// One more name adds its weight.
pub proof fn lemma_mass_push(names: Seq<Seq<char>>, name: Seq<char>, packages: Seq<PackageView>)
    ensures
        mass(names.push(name), packages) == mass(names, packages) + match weight_of(
            packages,
            name,
        ) {
            Some(weight) => weight,
            None => 0,
        },
{
    assert(names.push(name).drop_last() =~= names);
    assert(names.push(name).last() == name);
}

/// What is left without a name is what was there under another name.
pub proof fn lemma_without_has(names: Seq<Seq<char>>, name: Seq<char>, other: Seq<char>)
    ensures
        without(names, name).contains(other) <==> names.contains(other) && other != name,
    decreases names.len(),
{
    let w = without(names, name);
    if names.len() > 0 {
        let rest = names.drop_last();
        lemma_without_has(rest, name, other);
        assert(names.last() == names[names.len() - 1]);
        if names.contains(other) {
            let k = choose|k: int| 0 <= k < names.len() && names[k] == other;
            if k < rest.len() {
                assert(rest[k] == other);
            }
        }
        if rest.contains(other) {
            let k = choose|k: int| 0 <= k < rest.len() && rest[k] == other;
            assert(names[k] == other);
        }
        if names.last() != name {
            let inner = without(rest, name);
            if w.contains(other) {
                let k = choose|k: int| 0 <= k < w.len() && w[k] == other;
                if k < inner.len() {
                    assert(inner[k] == other);
                }
            }
            if inner.contains(other) {
                let k = choose|k: int| 0 <= k < inner.len() && inner[k] == other;
                assert(w[k] == other);
            }
            if other == names.last() {
                assert(w[inner.len() as int] == other);
            }
        }
    }
}

/// What is left without a name holds no name twice where the list did not.
pub proof fn lemma_without_no_duplicates(names: Seq<Seq<char>>, name: Seq<char>)
    requires
        names.no_duplicates(),
    ensures
        without(names, name).no_duplicates(),
    decreases names.len(),
{
    if names.len() > 0 {
        let rest = names.drop_last();
        assert forall|i: int, j: int|
            0 <= i < rest.len() && 0 <= j < rest.len() && i != j implies rest[i] != rest[j] by {
            assert(rest[i] == names[i] && rest[j] == names[j]);
        }
        lemma_without_no_duplicates(rest, name);
        if names.last() != name {
            let inner = without(rest, name);
            let w = inner.push(names.last());
            assert forall|i: int, j: int|
                0 <= i < w.len() && 0 <= j < w.len() && i != j implies w[i] != w[j] by {
                if i < inner.len() && j < inner.len() {
                } else {
                    let k = if i < inner.len() {
                        i
                    } else {
                        j
                    };
                    assert(inner.contains(inner[k]));
                    lemma_without_has(rest, name, inner[k]);
                    let at = choose|at: int| 0 <= at < rest.len() && rest[at] == inner[k];
                    assert(names[at] != names[names.len() - 1]);
                }
            }
        }
    }
}

/// A list without a name weighs no more than the list; without a name that
/// it holds, no more than the list less the weight of that name.
pub proof fn lemma_mass_without(names: Seq<Seq<char>>, name: Seq<char>, packages: Seq<PackageView>)
    requires
        weights_ok(packages),
    ensures
        mass(without(names, name), packages) <= mass(names, packages),
        names.contains(name) ==> mass(without(names, name), packages) + match weight_of(
            packages,
            name,
        ) {
            Some(weight) => weight,
            None => 0,
        } <= mass(names, packages),
    decreases names.len(),
{
    if names.len() > 0 {
        let rest = names.drop_last();
        lemma_mass_without(rest, name, packages);
        lemma_weight_non_negative(packages, names.last());
        lemma_weight_non_negative(packages, name);
        assert(names.last() == names[names.len() - 1]);
        if names.last() != name {
            lemma_mass_push(without(rest, name), names.last(), packages);
            if names.contains(name) {
                let k = choose|k: int| 0 <= k < names.len() && names[k] == name;
                assert(rest[k] == name);
            }
        }
    } else {
        if names.contains(name) {
            let k = choose|k: int| 0 <= k < names.len() && names[k] == name;
        }
    }
}

/// What is left without a name is known where the list was.
pub proof fn lemma_without_known(names: Seq<Seq<char>>, name: Seq<char>, packages: Seq<PackageView>)
    requires
        names_known(names, packages),
    ensures
        names_known(without(names, name), packages),
{
    let w = without(names, name);
    assert forall|k: int| 0 <= k < w.len() implies position(
        package_names(packages),
        #[trigger] w[k],
    ) is Some by {
        assert(w.contains(w[k]));
        lemma_without_has(names, name, w[k]);
        let at = choose|at: int| 0 <= at < names.len() && names[at] == w[k];
        assert(position(package_names(packages), names[at]) is Some);
    }
}

/// The weight that a train has claimed in a step on its way: of what it has
/// committed to and of what it holds.
pub open spec fn claimed_mass(h: HoldView, packages: Seq<PackageView>) -> int {
    mass(h.train.packages_to_pick_up, packages) + mass(h.train.packages_picked_up, packages)
}

/// The lists of the train in a step on its way name only packages of the table.
pub open spec fn lists_known(h: HoldView, packages: Seq<PackageView>) -> bool {
    names_known(h.train.packages_to_pick_up, packages) && names_known(
        h.train.packages_picked_up,
        packages,
    )
}

/// One more name that the table holds leaves the list known.
pub proof fn lemma_push_known(names: Seq<Seq<char>>, name: Seq<char>, packages: Seq<PackageView>)
    requires
        names_known(names, packages),
        position(package_names(packages), name) is Some,
    ensures
        names_known(names.push(name), packages),
{
    let after = names.push(name);
    assert forall|k: int| 0 <= k < after.len() implies position(
        package_names(packages),
        #[trigger] after[k],
    ) is Some by {
        if k < names.len() {
            assert(after[k] == names[k]);
        }
    }
}

/// Taking on board, one after the other, packages that the train has
/// committed to, none twice, adds nothing to what the train has claimed.
pub proof fn lemma_take_on_all_mass(
    h: HoldView,
    names: Seq<Seq<char>>,
    packages: Seq<PackageView>,
)
    requires
        weights_ok(packages),
        lists_known(h, packages),
        names.no_duplicates(),
        forall|k: int|
            0 <= k < names.len() ==> h.train.packages_to_pick_up.contains(#[trigger] names[k]),
        take_on_all(h, names) is Ok,
    ensures
        ({
            let g = take_on_all(h, names).unwrap();
            &&& claimed_mass(g, packages) <= claimed_mass(h, packages)
            &&& lists_known(g, packages)
            &&& g.train.capacity == h.train.capacity
            &&& forall|x: Seq<char>| #[trigger]
                g.train.packages_to_pick_up.contains(x) <==> h.train.packages_to_pick_up.contains(
                    x,
                ) && !names.contains(x)
            &&& h.train.packages_to_pick_up.no_duplicates()
                ==> g.train.packages_to_pick_up.no_duplicates()
        }),
    decreases names.len(),
{
    if names.len() == 0 {
        let g = take_on_all(h, names).unwrap();
        assert forall|x: Seq<char>| #[trigger]
            g.train.packages_to_pick_up.contains(x) <==> h.train.packages_to_pick_up.contains(x)
                && !names.contains(x) by {
            if names.contains(x) {
                let k = choose|k: int| 0 <= k < names.len() && names[k] == x;
            }
        }
    } else {
        let rest = names.drop_last();
        let last = names.last();
        assert(last == names[names.len() - 1]);
        assert forall|i: int, j: int|
            0 <= i < rest.len() && 0 <= j < rest.len() && i != j implies rest[i] != rest[j] by {
            assert(rest[i] == names[i] && rest[j] == names[j]);
        }
        assert forall|k: int|
            0 <= k < rest.len() implies h.train.packages_to_pick_up.contains(#[trigger] rest[k]) by {
            assert(rest[k] == names[k]);
        }
        lemma_take_on_all_mass(h, rest, packages);
        let mid = take_on_all(h, rest).unwrap();
        let g = take_on(mid, last).unwrap();
        assert(!rest.contains(last)) by {
            if rest.contains(last) {
                let k = choose|k: int| 0 <= k < rest.len() && rest[k] == last;
                assert(names[k] == names[names.len() - 1]);
            }
        }
        assert(mid.train.packages_to_pick_up.contains(last));
        lemma_mass_without(mid.train.packages_to_pick_up, last, packages);
        lemma_mass_push(mid.train.packages_picked_up, last, packages);
        lemma_without_known(mid.train.packages_to_pick_up, last, packages);
        let k = choose|k: int|
            0 <= k < mid.train.packages_to_pick_up.len() && mid.train.packages_to_pick_up[k]
                == last;
        assert(position(package_names(packages), mid.train.packages_to_pick_up[k]) is Some);
        lemma_push_known(mid.train.packages_picked_up, last, packages);
        assert forall|x: Seq<char>| #[trigger]
            g.train.packages_to_pick_up.contains(x) <==> h.train.packages_to_pick_up.contains(x)
                && !names.contains(x) by {
            lemma_without_has(mid.train.packages_to_pick_up, last, x);
            if names.contains(x) {
                let k = choose|k: int| 0 <= k < names.len() && names[k] == x;
                if k < rest.len() {
                    assert(rest[k] == x);
                }
            }
            if rest.contains(x) {
                let k = choose|k: int| 0 <= k < rest.len() && rest[k] == x;
                assert(names[k] == x);
            }
        }
        if h.train.packages_to_pick_up.no_duplicates() {
            lemma_without_no_duplicates(mid.train.packages_to_pick_up, last);
        }
    }
}

/// Handing packages over adds nothing to what the train has claimed, and
/// leaves what it has committed to as it is.
pub proof fn lemma_hand_over_all_mass(
    h: HoldView,
    names: Seq<Seq<char>>,
    packages: Seq<PackageView>,
)
    requires
        weights_ok(packages),
        lists_known(h, packages),
        hand_over_all(h, names) is Ok,
    ensures
        ({
            let g = hand_over_all(h, names).unwrap();
            &&& claimed_mass(g, packages) <= claimed_mass(h, packages)
            &&& lists_known(g, packages)
            &&& g.train.capacity == h.train.capacity
            &&& g.train.packages_to_pick_up == h.train.packages_to_pick_up
        }),
    decreases names.len(),
{
    if names.len() > 0 {
        lemma_hand_over_all_mass(h, names.drop_last(), packages);
        let mid = hand_over_all(h, names.drop_last()).unwrap();
        lemma_mass_without(mid.train.packages_picked_up, names.last(), packages);
        lemma_without_known(mid.train.packages_picked_up, names.last(), packages);
    }
}

/// The tables hold the same packages, by name, weight, origin and destination, place by place.
pub open spec fn same_cargo(before: Seq<PackageView>, after: Seq<PackageView>) -> bool {
    &&& after.len() == before.len()
    &&& forall|i: int|
        0 <= i < before.len() ==> (#[trigger] after[i]).name == before[i].name && after[i].weight
            == before[i].weight && after[i].from == before[i].from && after[i].to == before[i].to
}

/// Tables of the same packages weigh every list alike, and know the same names.
pub proof fn lemma_same_cargo(
    before: Seq<PackageView>,
    after: Seq<PackageView>,
    names: Seq<Seq<char>>,
)
    requires
        same_cargo(before, after),
    ensures
        mass(names, after) == mass(names, before),
        names_known(names, after) == names_known(names, before),
        package_names(after) == package_names(before),
    decreases names.len(),
{
    assert(package_names(after) =~= package_names(before));
    if names.len() > 0 {
        lemma_same_cargo(before, after, names.drop_last());
        lemma_position(package_names(before), names.last());
    }
    if names_known(names, before) {
        assert forall|k: int| 0 <= k < names.len() implies position(
            package_names(after),
            #[trigger] names[k],
        ) is Some by {}
    }
    if names_known(names, after) {
        assert forall|k: int| 0 <= k < names.len() implies position(
            package_names(before),
            #[trigger] names[k],
        ) is Some by {}
    }
}

/// What a train has claimed is known, and weighs no more than the train can carry.
pub open spec fn within_capacity(trains: Seq<TrainView>, packages: Seq<PackageView>) -> bool {
    forall|i: int|
        0 <= i < trains.len() ==> names_known((#[trigger] trains[i]).claimed(), packages) && mass(
            trains[i].claimed(),
            packages,
        ) <= trains[i].capacity
}

/// The table holds the package called `name`, and it is not free.
pub open spec fn committed(packages: Seq<PackageView>, name: Seq<char>) -> bool {
    match position(package_names(packages), name) {
        Some(n) => !packages[n].is_free(),
        None => false,
    }
}

/// The tables are tidy: no two trains of one name, no two packages of one
/// name, no train without a name; no train has committed to a package
/// twice, or to one that the table lacks or holds as free.
pub open spec fn tidy(trains: Seq<TrainView>, packages: Seq<PackageView>) -> bool {
    &&& distinct(train_names(trains))
    &&& distinct(package_names(packages))
    &&& forall|i: int| 0 <= i < trains.len() ==> (#[trigger] trains[i]).name.len() > 0
    &&& forall|i: int|
        0 <= i < trains.len() ==> (#[trigger] trains[i]).packages_to_pick_up.no_duplicates()
    &&& forall|i: int, k: int|
        0 <= i < trains.len() && 0 <= k < trains[i].packages_to_pick_up.len() ==> committed(
            packages,
            #[trigger] trains[i].packages_to_pick_up[k],
        )
}

/// Two lists are known where each is, and only then.
pub proof fn lemma_known_add(a: Seq<Seq<char>>, b: Seq<Seq<char>>, packages: Seq<PackageView>)
    ensures
        names_known(a + b, packages) <==> names_known(a, packages) && names_known(b, packages),
{
    let all = a + b;
    if names_known(all, packages) {
        assert forall|k: int| 0 <= k < a.len() implies position(
            package_names(packages),
            #[trigger] a[k],
        ) is Some by {
            assert(all[k] == a[k]);
        }
        assert forall|k: int| 0 <= k < b.len() implies position(
            package_names(packages),
            #[trigger] b[k],
        ) is Some by {
            assert(all[a.len() + k] == b[k]);
        }
    }
    if names_known(a, packages) && names_known(b, packages) {
        assert forall|k: int| 0 <= k < all.len() implies position(
            package_names(packages),
            #[trigger] all[k],
        ) is Some by {
            if k < a.len() {
                assert(all[k] == a[k]);
            } else {
                assert(all[k] == b[k - a.len()]);
            }
        }
    }
}

/// A train that has room for a package knows what it has claimed, and
/// carries no more than its capacity with the package added.
pub proof fn lemma_capable(train: TrainView, pack: PackageView, packages: Seq<PackageView>)
    requires
        is_capable(train, pack, packages),
    ensures
        names_known(train.claimed(), packages),
        mass(train.claimed(), packages) + pack.weight <= train.capacity,
{
    lemma_total_weight_is_mass(train.claimed(), packages);
}

/// A train with room for the package is a train of the table.
pub proof fn lemma_capable_among_has(
    trains: Seq<TrainView>,
    pack: PackageView,
    packages: Seq<PackageView>,
    x: TrainView,
)
    requires
        capable_among(trains, pack, packages).contains(x),
    ensures
        trains.contains(x),
        is_capable(x, pack, packages),
    decreases trains.len(),
{
    let found = capable_among(trains, pack, packages);
    let at = choose|at: int| 0 <= at < found.len() && found[at] == x;
    if trains.len() > 0 {
        let rest = capable_among(trains.drop_last(), pack, packages);
        assert(trains.last() == trains[trains.len() - 1]);
        if is_capable(trains.last(), pack, packages) && at == rest.len() {
        } else {
            assert(rest[at] == x);
            lemma_capable_among_has(trains.drop_last(), pack, packages, x);
            let j = choose|j: int| 0 <= j < trains.drop_last().len() && trains.drop_last()[j] == x;
            assert(trains[j] == x);
        }
    }
}

/// A commitment that is open is of a train with room for a free package.
pub open spec fn is_offer(
    trains: Seq<TrainView>,
    packages: Seq<PackageView>,
    c: CandidateView,
    i: int,
    j: int,
) -> bool {
    &&& 0 <= i < packages.len()
    &&& 0 <= j < trains.len()
    &&& packages[i].is_free()
    &&& packages[i].name == c.package
    &&& trains[j].name == c.train
    &&& is_capable(trains[j], packages[i], packages)
}

/// Every commitment among those that can be made is of a train with room for a free package.
pub proof fn lemma_pickups_has(
    trains: Seq<TrainView>,
    packages: Seq<PackageView>,
    n: int,
    c: CandidateView,
)
    requires
        0 <= n <= packages.len(),
        pickups(trains, packages, n).contains(c),
    ensures
        c.is_pickup,
        exists|i: int, j: int| is_offer(trains, packages, c, i, j),
    decreases n,
{
    let all = pickups(trains, packages, n);
    let at = choose|at: int| 0 <= at < all.len() && all[at] == c;
    if n > 0 {
        let before = pickups(trains, packages, n - 1);
        if at < before.len() {
            assert(before[at] == c);
            lemma_pickups_has(trains, packages, n - 1, c);
        } else {
            let pack = packages[n - 1];
            let now = offers(trains, pack, packages);
            assert(now[at - before.len()] == c);
            let capable = capable_among(trains, pack, packages);
            let x = capable[at - before.len()];
            assert(capable.contains(x));
            lemma_capable_among_has(trains, pack, packages, x);
            let j = choose|j: int| 0 <= j < trains.len() && trains[j] == x;
            assert(is_offer(trains, packages, c, n - 1, j));
        }
    }
}

/// No run that a train owes is a commitment.
pub proof fn lemma_commitments_has(trains: Seq<TrainView>, n: int, c: CandidateView)
    requires
        commitments(trains, n).contains(c),
    ensures
        !c.is_pickup,
    decreases n,
{
    let all = commitments(trains, n);
    let at = choose|at: int| 0 <= at < all.len() && all[at] == c;
    if n > 0 {
        let before = commitments(trains, n - 1);
        if at < before.len() {
            assert(before[at] == c);
            lemma_commitments_has(trains, n - 1, c);
        } else {
            assert(commitments_of(trains[n - 1])[at - before.len()] == c);
        }
    }
}

/// A commitment among the open actions is of a train with room for a free package.
pub proof fn lemma_candidate_is_offer(
    trains: Seq<TrainView>,
    packages: Seq<PackageView>,
    c: CandidateView,
)
    requires
        candidates(trains, packages) is Ok,
        candidates(trains, packages).unwrap().contains(c),
        c.is_pickup,
    ensures
        exists|i: int, j: int| is_offer(trains, packages, c, i, j),
{
    let a = pickups(trains, packages, packages.len() as int);
    let b = commitments(trains, trains.len() as int);
    lemma_sorted_has::<Candidate>(a + b, c);
    let at = choose|at: int| 0 <= at < (a + b).len() && (a + b)[at] == c;
    if at < a.len() {
        assert(a[at] == c);
        lemma_pickups_has(trains, packages, packages.len() as int, c);
    } else {
        assert(b[at - a.len()] == c);
        lemma_commitments_has(trains, trains.len() as int, c);
    }
}

/// Taking packages on board frees none, where the train has a name.
pub proof fn lemma_take_on_all_marks(h: HoldView, names: Seq<Seq<char>>)
    requires
        h.train.name.len() > 0,
        take_on_all(h, names) is Ok,
    ensures
        ({
            let g = take_on_all(h, names).unwrap();
            &&& g.train.name == h.train.name
            &&& g.packages.len() == h.packages.len()
            &&& !h.package.is_free() ==> !g.package.is_free()
            &&& forall|i: int|
                0 <= i < h.packages.len() && !h.packages[i].is_free() ==> !(
                #[trigger] g.packages[i]).is_free()
        }),
    decreases names.len(),
{
    if names.len() > 0 {
        lemma_take_on_all_marks(h, names.drop_last());
        let mid = take_on_all(h, names.drop_last()).unwrap();
        let g = take_on(mid, names.last()).unwrap();
        lemma_position(package_names(mid.packages), names.last());
        assert forall|i: int| 0 <= i < h.packages.len() && !h.packages[i].is_free() implies !(
        #[trigger] g.packages[i]).is_free() by {
            assert(!mid.packages[i].is_free());
        }
    }
}

/// Handing packages over frees none, where the train has a name.
pub proof fn lemma_hand_over_all_marks(h: HoldView, names: Seq<Seq<char>>)
    requires
        h.train.name.len() > 0,
        hand_over_all(h, names) is Ok,
    ensures
        ({
            let g = hand_over_all(h, names).unwrap();
            &&& g.train.name == h.train.name
            &&& g.packages.len() == h.packages.len()
            &&& !h.package.is_free() ==> !g.package.is_free()
            &&& forall|i: int|
                0 <= i < h.packages.len() && !h.packages[i].is_free() ==> !(
                #[trigger] g.packages[i]).is_free()
        }),
    decreases names.len(),
{
    if names.len() > 0 {
        lemma_hand_over_all_marks(h, names.drop_last());
        let mid = hand_over_all(h, names.drop_last()).unwrap();
        let g = hand_over(mid, names.last()).unwrap();
        lemma_position(package_names(mid.packages), names.last());
        assert forall|i: int| 0 <= i < h.packages.len() && !h.packages[i].is_free() implies !(
        #[trigger] g.packages[i]).is_free() by {
            assert(!mid.packages[i].is_free());
        }
    }
}

/// The step works on a train and a package of tidy tables, and where it
/// commits to the package, the package is free and the train has room for it.
pub open spec fn step_fits(
    trains: Seq<TrainView>,
    packages: Seq<PackageView>,
    ti: int,
    pi: int,
    c: CandidateView,
) -> bool {
    &&& tidy(trains, packages)
    &&& weights_ok(packages)
    &&& within_capacity(trains, packages)
    &&& 0 <= ti < trains.len()
    &&& 0 <= pi < packages.len()
    &&& c.is_pickup ==> packages[pi].is_free() && is_capable(trains[ti], packages[pi], packages)
}

/// A train that sets out has claimed no more than it can carry, and has
/// committed to nothing twice, and to nothing that is free but what it commits to now.
pub proof fn lemma_set_out_fits(
    trains: Seq<TrainView>,
    packages: Seq<PackageView>,
    ti: int,
    pi: int,
    c: CandidateView,
    d: DestinationView,
)
    requires
        step_fits(trains, packages, ti, pi, c),
    ensures
        ({
            let start = set_out(trains[ti], packages[pi], packages, c, d);
            &&& lists_known(start, packages)
            &&& claimed_mass(start, packages) <= trains[ti].capacity
            &&& start.train.packages_to_pick_up.no_duplicates()
            &&& forall|k: int|
                0 <= k < trains[ti].packages_to_pick_up.len()
                    ==> start.train.packages_to_pick_up.contains(
                    #[trigger] trains[ti].packages_to_pick_up[k],
                )
            &&& forall|x: Seq<char>| #[trigger]
                start.train.packages_to_pick_up.contains(x) ==> committed(packages, x) || (
                c.is_pickup && x == packages[pi].name)
            &&& c.is_pickup ==> !start.package.is_free()
            &&& !packages[pi].is_free() ==> !start.package.is_free()
        }),
{
    let train = trains[ti];
    let package = packages[pi];
    let start = set_out(train, package, packages, c, d);
    let list = train.packages_to_pick_up;
    lemma_known_add(list, train.packages_picked_up, packages);
    lemma_mass_add(list, train.packages_picked_up, packages);
    assert(names_known(train.claimed(), packages));
    assert(package_names(packages)[pi] == package.name);
    assert forall|j: int| 0 <= j < pi implies package_names(packages)[j] != package.name by {
        assert(package_names(packages)[j] != package_names(packages)[pi]);
    }
    lemma_position_is(package_names(packages), package.name, pi);
    assert forall|x: Seq<char>| list.contains(x) implies committed(packages, x) by {
        let k = choose|k: int| 0 <= k < list.len() && list[k] == x;
        assert(committed(packages, train.packages_to_pick_up[k]));
    }
    if c.is_pickup {
        lemma_capable(train, package, packages);
        lemma_mass_push(list, package.name, packages);
        lemma_push_known(list, package.name, packages);
        let more = list.push(package.name);
        assert(!list.contains(package.name)) by {
            if list.contains(package.name) {
                assert(committed(packages, package.name));
            }
        }
        assert forall|i: int, j: int|
            0 <= i < more.len() && 0 <= j < more.len() && i != j implies more[i] != more[j] by {
            if i < list.len() && j < list.len() {
                assert(list[i] != list[j]);
            } else if i < list.len() {
                assert(list.contains(list[i]));
            } else {
                assert(list.contains(list[j]));
            }
        }
        assert forall|k: int| 0 <= k < list.len() implies more.contains(#[trigger] list[k]) by {
            assert(more[k] == list[k]);
        }
        assert forall|x: Seq<char>| #[trigger] more.contains(x) implies committed(packages, x)
            || x == package.name by {
            let k = choose|k: int| 0 <= k < more.len() && more[k] == x;
            if k < list.len() {
                assert(list[k] == x);
                assert(list.contains(x));
            }
        }
        assert(train.name.len() > 0);
    } else {
        assert forall|k: int| 0 <= k < list.len() implies list.contains(#[trigger] list[k]) by {}
    }
}

/// Settling a trip keeps the tables tidy and every train within its capacity.
pub proof fn lemma_settle_fits(
    trains: Seq<TrainView>,
    packages: Seq<PackageView>,
    ti: int,
    pi: int,
    c: CandidateView,
    d: DestinationView,
    trip: TripView,
)
    requires
        step_fits(trains, packages, ti, pi, c),
        trip.picked_up == trains[ti].packages_to_pick_up || trip.picked_up
            == Seq::<Seq<char>>::empty(),
        settle(trains, packages, trains[ti], packages[pi], c, d, trip) is Ok,
    ensures
        ({
            let next = settle(trains, packages, trains[ti], packages[pi], c, d, trip).unwrap();
            &&& tidy(next.trains, next.packages)
            &&& weights_ok(next.packages)
            &&& within_capacity(next.trains, next.packages)
            &&& same_cargo(packages, next.packages)
            &&& forall|i: int|
                0 <= i < packages.len() && !packages[i].is_free() ==> !(
                #[trigger] next.packages[i]).is_free()
        }),
{
    let train = trains[ti];
    let package = packages[pi];
    let start = set_out(train, package, packages, c, d);
    let loaded = take_on_all(start, trip.picked_up).unwrap();
    let h = hand_over_all(loaded, trip.delivered).unwrap();
    let next = settle(trains, packages, train, package, c, d, trip).unwrap();
    lemma_set_out_fits(trains, packages, ti, pi, c, d);
    assert forall|k: int|
        0 <= k < trip.picked_up.len() implies start.train.packages_to_pick_up.contains(
        #[trigger] trip.picked_up[k],
    ) by {}
    lemma_take_on_all_mass(start, trip.picked_up, packages);
    lemma_hand_over_all_mass(loaded, trip.delivered, packages);
    lemma_take_on_all_marks(start, trip.picked_up);
    lemma_hand_over_all_marks(loaded, trip.delivered);
    lemma_take_on_all(start, trip.picked_up);
    lemma_hand_over_all(loaded, trip.delivered);

    // the tables after the step
    assert(train_names(trains)[ti] == train.name);
    assert forall|j: int| 0 <= j < ti implies train_names(trains)[j] != train.name by {
        assert(train_names(trains)[j] != train_names(trains)[ti]);
    }
    lemma_position_is(train_names(trains), train.name, ti);
    assert(h.train.name == train.name);
    assert(next.trains == trains.update(ti, h.train));
    assert(train_names(next.trains) =~= train_names(trains));
    assert(package_names(h.packages) =~= package_names(packages)) by {
        assert forall|i: int| 0 <= i < packages.len() implies package_names(h.packages)[i]
            == package_names(packages)[i] by {
            assert(loaded.packages[i].name == start.packages[i].name);
            assert(h.packages[i].name == loaded.packages[i].name);
        }
    }
    assert(package_names(packages)[pi] == package.name);
    assert forall|j: int| 0 <= j < pi implies package_names(packages)[j] != package.name by {
        assert(package_names(packages)[j] != package_names(packages)[pi]);
    }
    lemma_position_is(package_names(packages), package.name, pi);
    assert(h.package.name == package.name);
    assert(next.packages == h.packages.update(pi, h.package));
    assert(same_cargo(packages, next.packages)) by {
        assert forall|i: int| 0 <= i < packages.len() implies (#[trigger] next.packages[i]).name
            == packages[i].name && next.packages[i].weight == packages[i].weight
            && next.packages[i].from == packages[i].from && next.packages[i].to
            == packages[i].to by {
            assert(loaded.packages[i].name == start.packages[i].name);
            assert(h.packages[i].name == loaded.packages[i].name);
        }
    }
    assert forall|i: int| 0 <= i < packages.len() && !packages[i].is_free() implies !(
    #[trigger] next.packages[i]).is_free() by {
        if i != pi {
            assert(!loaded.packages[i].is_free());
            assert(!h.packages[i].is_free());
        }
    }
    assert(weights_ok(next.packages)) by {
        assert forall|i: int| 0 <= i < next.packages.len() implies (
        #[trigger] next.packages[i]).weight >= 0 by {
            assert(packages[i].weight >= 0);
        }
    }
    assert(within_capacity(next.trains, next.packages)) by {
        assert forall|i: int| 0 <= i < next.trains.len() implies names_known(
            (#[trigger] next.trains[i]).claimed(),
            next.packages,
        ) && mass(next.trains[i].claimed(), next.packages) <= next.trains[i].capacity by {
            lemma_same_cargo(packages, next.packages, next.trains[i].claimed());
            if i == ti {
                lemma_known_add(
                    h.train.packages_to_pick_up,
                    h.train.packages_picked_up,
                    packages,
                );
                lemma_mass_add(h.train.packages_to_pick_up, h.train.packages_picked_up, packages);
            } else {
                assert(next.trains[i] == trains[i]);
            }
        }
    }
    assert(tidy(next.trains, next.packages)) by {
        lemma_same_cargo(packages, next.packages, Seq::empty());
        assert forall|i: int| 0 <= i < next.trains.len() implies (#[trigger] next.trains[i]).name.len()
            > 0 && next.trains[i].packages_to_pick_up.no_duplicates() by {
            assert(train_names(next.trains)[i] == train_names(trains)[i]);
            if i != ti {
                assert(next.trains[i] == trains[i]);
            }
        }
        assert forall|i: int, k: int|
            0 <= i < next.trains.len() && 0 <= k < next.trains[i].packages_to_pick_up.len()
                implies committed(next.packages, #[trigger] next.trains[i].packages_to_pick_up[k]) by {
            let x = next.trains[i].packages_to_pick_up[k];
            if i != ti {
                assert(next.trains[i] == trains[i]);
                assert(committed(packages, trains[i].packages_to_pick_up[k]));
                lemma_position(package_names(packages), x);
            } else {
                assert(h.train.packages_to_pick_up.contains(x));
                assert(loaded.train.packages_to_pick_up.contains(x));
                assert(start.train.packages_to_pick_up.contains(x));
                lemma_position(package_names(packages), x);
            }
        }
    }
}

/// Every step that the search takes keeps the tables tidy and every train
/// within its capacity: what a train has committed to and what it holds
/// never weigh more than it can carry.
pub proof fn lemma_step_keeps_capacity(
    known: Seq<PathTableView>,
    trains: Seq<TrainView>,
    packages: Seq<PackageView>,
    movements: Seq<MovementView>,
    c: CandidateView,
)
    requires
        tidy(trains, packages),
        weights_ok(packages),
        within_capacity(trains, packages),
        candidates(trains, packages) is Ok,
        candidates(trains, packages).unwrap().contains(c),
        advance(known, trains, packages, movements, c) is Some,
        advance(known, trains, packages, movements, c).unwrap() is Ok,
    ensures
        ({
            let next = advance(known, trains, packages, movements, c).unwrap().unwrap();
            &&& tidy(next.trains, next.packages)
            &&& weights_ok(next.packages)
            &&& within_capacity(next.trains, next.packages)
            &&& same_cargo(packages, next.packages)
            &&& forall|i: int|
                0 <= i < packages.len() && !packages[i].is_free() ==> !(
                #[trigger] next.packages[i]).is_free()
        }),
{
    lemma_position(train_names(trains), c.train);
    lemma_position(package_names(packages), c.package);
    let ti = position(train_names(trains), c.train).unwrap();
    let pi = position(package_names(packages), c.package).unwrap();
    let d = way(known, trains[ti].current_location, packages[pi], c.is_pickup).unwrap().unwrap();
    let trip = moved(trains[ti], d, packages, movements).unwrap();
    if c.is_pickup {
        lemma_candidate_is_offer(trains, packages, c);
        let (i, j) = choose|i: int, j: int| is_offer(trains, packages, c, i, j);
        if i != pi {
            assert(package_names(packages)[i] != package_names(packages)[pi]);
        }
        if j != ti {
            assert(train_names(trains)[j] != train_names(trains)[ti]);
        }
    }
    lemma_settle_fits(trains, packages, ti, pi, c, d, trip);
}

/// `names` without those that are among `gone`.
pub open spec fn remaining(names: Seq<Seq<char>>, gone: Seq<Seq<char>>) -> Seq<Seq<char>>
    decreases names.len(),
{
    if names.len() == 0 {
        names
    } else if gone.contains(names.last()) {
        remaining(names.drop_last(), gone)
    } else {
        remaining(names.drop_last(), gone).push(names.last())
    }
}

/// What a train has on board on leg `m` of a trip: what it had claimed when
/// it set out, without what it handed over on the legs before.
pub open spec fn on_board(
    train: TrainView,
    d: DestinationView,
    packages: Seq<PackageView>,
    m: int,
) -> Seq<Seq<char>> {
    remaining(train.claimed(), handed_over(train, d, packages, m))
}

/// What remains of a list weighs no more than the list.
pub proof fn lemma_remaining_mass(
    names: Seq<Seq<char>>,
    gone: Seq<Seq<char>>,
    packages: Seq<PackageView>,
)
    requires
        weights_ok(packages),
    ensures
        mass(remaining(names, gone), packages) <= mass(names, packages),
    decreases names.len(),
{
    if names.len() > 0 {
        lemma_remaining_mass(names.drop_last(), gone, packages);
        lemma_weight_non_negative(packages, names.last());
        if !gone.contains(names.last()) {
            lemma_mass_push(remaining(names.drop_last(), gone), names.last(), packages);
        }
    }
}

/// On every leg of a trip a train within its capacity carries no more than it can.
pub proof fn lemma_trip_within_capacity(
    train: TrainView,
    d: DestinationView,
    packages: Seq<PackageView>,
    m: int,
)
    requires
        weights_ok(packages),
        mass(train.claimed(), packages) <= train.capacity,
    ensures
        mass(on_board(train, d, packages, m), packages) <= train.capacity,
{
    lemma_remaining_mass(train.claimed(), handed_over(train, d, packages, m), packages);
}

} // verus!
