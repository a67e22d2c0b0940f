//! One step of the planner: a train takes an action, and the state follows.

use vstd::prelude::*;
use crate::candidates::Candidate;
use crate::error::PlanError;
use crate::graph::Graph;
use crate::movement::Movement;
use crate::names::{same_name, views};
use crate::navigation::Navigation;
use crate::movement::copy_movements;
use crate::package::{copy_packages, package_names, Package};
use crate::destination::{Destination, DestinationView};
use crate::graph::{remembered, PathTableView};
use crate::search::{
    advance, arrive, extends, hand_over, hand_over_all, lemma_with_table_extends, marked,
    set_out_package, set_out_train, take_on, take_on_all, way, without, HoldView, StateView,
};
use crate::timeline::TripView;
use crate::table::{find, keys, lemma_position, position, put, upsert, Keyed};
use crate::train::{copy_trains, train_names, Train};

verus! {

/// The state that a triple of tables stands for.
pub open spec fn state_of(trains: Vec<Train>, packages: Vec<Package>, movements: Vec<Movement>) -> StateView {
    StateView {
        trains: views(trains@),
        packages: views(packages@),
        movements: views(movements@),
    }
}

/// What the result of a step stands for.
pub open spec fn step_view(r: Result<(Vec<Train>, Vec<Package>, Vec<Movement>), PlanError>) -> Result<
    StateView,
    PlanError,
> {
    match r {
        Ok(s) => Ok(state_of(s.0, s.1, s.2)),
        Err(e) => Err(e),
    }
}

/// The names without any occurrence of `name`.
pub fn without_name(names: &Vec<String>, name: &str) -> (r: Vec<String>)
    ensures
        views(r@) == without(views(names@), name@),
{
    let ghost all = views(names@);
    let mut r: Vec<String> = Vec::new();
    let mut i: usize = 0;
    proof {
        assert(all.take(0) =~= Seq::empty());
        assert(views(r@) =~= Seq::empty());
    }
    while i < names.len()
        invariant
            i <= names@.len(),
            all == views(names@),
            views(r@) == without(all.take(i as int), name@),
        decreases names@.len() - i,
    {
        let ghost before = views(r@);
        proof {
            assert(all.take(i + 1).drop_last() =~= all.take(i as int));
            assert(all.take(i + 1).last() == names@[i as int]@);
        }
        if !same_name(names[i].as_str(), name) {
            r.push(names[i].clone());
            proof {
                assert(views(r@) =~= before.push(all[i as int]));
            }
        }
        i += 1;
    }
    proof {
        assert(all.take(all.len() as int) =~= all);
    }
    r
}

/// The package as `train` holds it: committed to and picked up by it, and
/// delivered by it where `delivered`.
fn mark(package: &Package, train: &String, delivered: bool) -> (r: Package)
    ensures
        r@ == marked(package@, train@, delivered),
{
    Package {
        name: package.name.clone(),
        from: package.from.clone(),
        to: package.to.clone(),
        weight: package.weight,
        to_be_picked_up_by: train.clone(),
        picked_up_by: train.clone(),
        delivered_by: if delivered {
            train.clone()
        } else {
            String::new()
        },
    }
}

/// The train takes the package called `name` on board.
fn take_on_board(
    train: &mut Train,
    package: &mut Package,
    packages: &mut Vec<Package>,
    name: &String,
) -> (r: Result<(), PlanError>)
    ensures
        match take_on(
            HoldView {
                train: old(train)@,
                package: old(package)@,
                packages: views(old(packages)@),
            },
            name@,
        ) {
            Ok(h) => r is Ok && final(train)@ == h.train && final(package)@ == h.package && views(
                final(packages)@,
            ) == h.packages,
            Err(e) => r == Err::<(), PlanError>(e),
        },
{
    let ghost table = views(packages@);
    proof {
        assert(keys(packages@) =~= package_names(table));
    }
    let rest = without_name(&train.packages_to_pick_up, name.as_str());
    train.packages_to_pick_up = rest;
    let ghost held = views(train.packages_picked_up@);
    train.packages_picked_up.push(name.clone());
    proof {
        assert(views(train.packages_picked_up@) =~= held.push(name@));
    }
    if same_name(package.name.as_str(), name.as_str()) {
        package.picked_up_by = train.name.clone();
        Ok(())
    } else {
        match find(packages, name.as_str()) {
            Some(i) => {
                let marked = mark(&packages[i], &train.name, false);
                packages.set(i, marked);
                proof {
                    assert(views(packages@) =~= table.update(i as int, marked@));
                }
                Ok(())
            },
            None => Err(PlanError::LookupMiss),
        }
    }
}

/// The train hands the package called `name` over.
fn hand_over_from(
    train: &mut Train,
    package: &mut Package,
    packages: &mut Vec<Package>,
    name: &String,
) -> (r: Result<(), PlanError>)
    ensures
        match hand_over(
            HoldView {
                train: old(train)@,
                package: old(package)@,
                packages: views(old(packages)@),
            },
            name@,
        ) {
            Ok(h) => r is Ok && final(train)@ == h.train && final(package)@ == h.package && views(
                final(packages)@,
            ) == h.packages,
            Err(e) => r == Err::<(), PlanError>(e),
        },
{
    let ghost table = views(packages@);
    proof {
        assert(keys(packages@) =~= package_names(table));
    }
    let rest = without_name(&train.packages_picked_up, name.as_str());
    train.packages_picked_up = rest;
    let ghost given = views(train.packages_delivered@);
    train.packages_delivered.push(name.clone());
    proof {
        assert(views(train.packages_delivered@) =~= given.push(name@));
    }
    if same_name(package.name.as_str(), name.as_str()) {
        package.delivered_by = train.name.clone();
        Ok(())
    } else {
        match find(packages, name.as_str()) {
            Some(i) => {
                let marked = mark(&packages[i], &train.name, true);
                packages.set(i, marked);
                proof {
                    assert(views(packages@) =~= table.update(i as int, marked@));
                }
                Ok(())
            },
            None => Err(PlanError::LookupMiss),
        }
    }
}

/// What the result of a question to the oracle stands for.
pub open spec fn way_view(r: Result<Destination, PlanError>) -> Result<DestinationView, PlanError> {
    match r {
        Ok(d) => Ok(d@),
        Err(e) => Err(e),
    }
}

/// Asks the oracle for the way that the action needs.
pub fn find_way(graph: &mut Graph, from: &String, package: &Package, is_pickup: bool) -> (r: Result<
    Destination,
    PlanError,
>)
    requires
        old(graph).wf(),
    ensures
        final(graph).wf(),
        final(graph).adj_list == old(graph).adj_list,
        extends(old(graph).known(), final(graph).known()),
        old(graph).paths_known() ==> final(graph).paths_known(),
        way(final(graph).known(), from@, package@, is_pickup) == Some(way_view(r)),
{
    let ghost known0 = graph.known();
    let goal = if is_pickup {
        package.from.clone()
    } else {
        package.to.clone()
    };
    let found = graph.get_destination(from.clone(), goal);
    proof {
        if remembered(known0, from@) is None {
            lemma_with_table_extends(
                known0,
                PathTableView {
                    source: from@,
                    destinations: remembered(graph.known(), from@).unwrap(),
                },
            );
        }
    }
    found
}

/// The train takes the named packages on board, one after the other.
fn load_all(
    train: &mut Train,
    package: &mut Package,
    packages: &mut Vec<Package>,
    names: &Vec<String>,
) -> (r: Result<(), PlanError>)
    ensures
        match take_on_all(
            HoldView {
                train: old(train)@,
                package: old(package)@,
                packages: views(old(packages)@),
            },
            views(names@),
        ) {
            Ok(h) => r is Ok && final(train)@ == h.train && final(package)@ == h.package && views(
                final(packages)@,
            ) == h.packages,
            Err(e) => r == Err::<(), PlanError>(e),
        },
{
    let ghost start = HoldView { train: train@, package: package@, packages: views(packages@) };
    let ghost all = views(names@);
    let mut i: usize = 0;
    proof {
        assert(all.take(0) =~= Seq::empty());
    }
    while i < names.len()
        invariant
            i <= names@.len(),
            all == views(names@),
            start == (HoldView {
                train: old(train)@,
                package: old(package)@,
                packages: views(old(packages)@),
            }),
            take_on_all(start, all.take(i as int)) == Ok::<HoldView, PlanError>(
                HoldView { train: train@, package: package@, packages: views(packages@) },
            ),
        decreases names@.len() - i,
    {
        proof {
            assert(all.take(i + 1).drop_last() =~= all.take(i as int));
            assert(all.take(i + 1).last() == names@[i as int]@);
        }
        match take_on_board(train, package, packages, &names[i]) {
            Ok(()) => {},
            Err(e) => {
                proof {
                    assert(take_on_all(start, all.take(i + 1)) == Err::<HoldView, PlanError>(e));
                    lemma_take_on_fails(start, all, i + 1);
                    assert(all.take(all.len() as int) =~= all);
                }
                return Err(e);
            },
        }
        i += 1;
    }
    proof {
        assert(all.take(all.len() as int) =~= all);
    }
    Ok(())
}

/// The train hands the named packages over, one after the other.
fn unload_all(
    train: &mut Train,
    package: &mut Package,
    packages: &mut Vec<Package>,
    names: &Vec<String>,
) -> (r: Result<(), PlanError>)
    ensures
        match hand_over_all(
            HoldView {
                train: old(train)@,
                package: old(package)@,
                packages: views(old(packages)@),
            },
            views(names@),
        ) {
            Ok(h) => r is Ok && final(train)@ == h.train && final(package)@ == h.package && views(
                final(packages)@,
            ) == h.packages,
            Err(e) => r == Err::<(), PlanError>(e),
        },
{
    let ghost start = HoldView { train: train@, package: package@, packages: views(packages@) };
    let ghost all = views(names@);
    let mut i: usize = 0;
    proof {
        assert(all.take(0) =~= Seq::empty());
    }
    while i < names.len()
        invariant
            i <= names@.len(),
            all == views(names@),
            start == (HoldView {
                train: old(train)@,
                package: old(package)@,
                packages: views(old(packages)@),
            }),
            hand_over_all(start, all.take(i as int)) == Ok::<HoldView, PlanError>(
                HoldView { train: train@, package: package@, packages: views(packages@) },
            ),
        decreases names@.len() - i,
    {
        proof {
            assert(all.take(i + 1).drop_last() =~= all.take(i as int));
            assert(all.take(i + 1).last() == names@[i as int]@);
        }
        match hand_over_from(train, package, packages, &names[i]) {
            Ok(()) => {},
            Err(e) => {
                proof {
                    assert(hand_over_all(start, all.take(i + 1)) == Err::<HoldView, PlanError>(e));
                    lemma_hand_over_fails(start, all, i + 1);
                    assert(all.take(all.len() as int) =~= all);
                }
                return Err(e);
            },
        }
        i += 1;
    }
    proof {
        assert(all.take(all.len() as int) =~= all);
    }
    Ok(())
}

/// The train and the package as the step starts on them.
fn set_out_on(train: &mut Train, package: &mut Package, is_pickup: bool, destination: &Destination)
    requires
        destination.cumulative_distance > 0 ==> old(train).total_distance
            + destination.cumulative_distance <= i32::MAX,
    ensures
        final(train)@ == set_out_train(old(train)@, old(package)@, is_pickup, destination@),
        final(package)@ == set_out_package(old(train)@, old(package)@, is_pickup),
{
    if destination.cumulative_distance > 0 {
        train.current_location = destination.to.clone();
        train.total_distance = train.total_distance + destination.cumulative_distance;
    }
    if is_pickup {
        let ghost committed = views(train.packages_to_pick_up@);
        train.packages_to_pick_up.push(package.name.clone());
        proof {
            assert(views(train.packages_to_pick_up@) =~= committed.push(package.name@));
        }
        package.to_be_picked_up_by = train.name.clone();
    }
}

/// The tables after the trip of `train` for `package`.
pub fn settle_trip(
    trains: &Vec<Train>,
    packages: &Vec<Package>,
    train: Train,
    package: Package,
    candidate: &Candidate,
    destination: &Destination,
    trip: (Vec<Movement>, Vec<String>, Vec<String>),
) -> (r: Result<(Vec<Train>, Vec<Package>, Vec<Movement>), PlanError>)
    ensures
        step_view(r) == arrive(
            views(trains@),
            views(packages@),
            train@,
            package@,
            candidate@,
            destination@,
            TripView {
                movements: views(trip.0@),
                picked_up: views(trip.1@),
                delivered: views(trip.2@),
            },
        ),
{
    let (new_movements, packages_picked_up, packages_delivered) = trip;
    let mut new_train = train;
    let mut new_package = package;
    if destination.cumulative_distance > 0 {
        let total: i64 = new_train.total_distance as i64 + destination.cumulative_distance as i64;
        if total > i32::MAX as i64 {
            return Err(PlanError::Overflow);
        }
    }
    set_out_on(&mut new_train, &mut new_package, candidate.is_pickup, destination);
    let mut new_packages = copy_packages(packages);
    match load_all(&mut new_train, &mut new_package, &mut new_packages, &packages_picked_up) {
        Ok(()) => {},
        Err(e) => {
            return Err(e);
        },
    }
    match unload_all(&mut new_train, &mut new_package, &mut new_packages, &packages_delivered) {
        Ok(()) => {},
        Err(e) => {
            return Err(e);
        },
    }
    let mut new_trains = copy_trains(trains);
    let ghost settled_train = new_train;
    let ghost settled_package = new_package;
    let ghost trains_before = new_trains@;
    let ghost packages_before = new_packages@;
    proof {
        assert(keys(trains_before) =~= train_names(views(trains@)));
        assert(keys(packages_before) =~= package_names(views(packages_before)));
    }
    put(&mut new_trains, new_train);
    put(&mut new_packages, new_package);
    proof {
        assert(new_trains@ == upsert(trains_before, settled_train));
        assert(settled_train.key() == settled_train@.name);
        lemma_position(train_names(views(trains@)), settled_train@.name);
        match position(train_names(views(trains@)), settled_train@.name) {
            Some(i) => {
                assert(views(new_trains@) =~= views(trains@).update(i, settled_train@));
            },
            None => {
                assert(views(new_trains@) =~= views(trains@).push(settled_train@));
            },
        }
        assert(new_packages@ == upsert(packages_before, settled_package));
        assert(settled_package.key() == settled_package@.name);
        lemma_position(package_names(views(packages_before)), settled_package@.name);
        match position(package_names(views(packages_before)), settled_package@.name) {
            Some(i) => {
                assert(views(new_packages@) =~= views(packages_before).update(
                    i,
                    settled_package@,
                ));
            },
            None => {
                assert(views(new_packages@) =~= views(packages_before).push(settled_package@));
            },
        }
    }
    Ok((new_trains, new_packages, new_movements))
}

/// Takes the action `candidate` in the state: the train goes where the
/// action sends it, takes on and hands over what the trip brings, and the
/// tables and the timeline follow. The oracle may learn a path table on the way.
pub fn advance_state(
    graph: &mut Graph,
    trains: &Vec<Train>,
    packages: &Vec<Package>,
    movements: &Vec<Movement>,
    candidate: &Candidate,
) -> (r: Result<(Vec<Train>, Vec<Package>, Vec<Movement>), PlanError>)
    requires
        old(graph).wf(),
    ensures
        final(graph).wf(),
        final(graph).adj_list == old(graph).adj_list,
        extends(old(graph).known(), final(graph).known()),
        old(graph).paths_known() ==> final(graph).paths_known(),
        advance(
            final(graph).known(),
            views(trains@),
            views(packages@),
            views(movements@),
            candidate@,
        ) == Some(step_view(r)),
{
    proof {
        assert(keys(trains@) =~= train_names(views(trains@)));
        assert(keys(packages@) =~= package_names(views(packages@)));
        assert(extends(graph.known(), graph.known()));
    }
    let ti = match find(trains, candidate.train.as_str()) {
        Some(ti) => ti,
        None => {
            return Err(PlanError::LookupMiss);
        },
    };
    let pi = match find(packages, candidate.package.as_str()) {
        Some(pi) => pi,
        None => {
            return Err(PlanError::LookupMiss);
        },
    };
    let new_train = trains[ti].clone();
    let new_package = packages[pi].clone();
    let destination = match find_way(
        graph,
        &new_train.current_location,
        &new_package,
        candidate.is_pickup,
    ) {
        Ok(d) => d,
        Err(e) => {
            return Err(e);
        },
    };
    let trip = match Navigation::move_train(
        new_train.clone(),
        destination.clone(),
        copy_packages(packages),
        copy_movements(movements),
    ) {
        Ok(trip) => trip,
        Err(e) => {
            return Err(e);
        },
    };
    settle_trip(trains, packages, new_train, new_package, candidate, &destination, trip)
}

/// Where the first `n` names cannot all be taken on board, the names cannot.
proof fn lemma_take_on_fails(h: HoldView, names: Seq<Seq<char>>, n: int)
    requires
        0 <= n <= names.len(),
        take_on_all(h, names.take(n)) is Err,
    ensures
        take_on_all(h, names.take(names.len() as int)) == take_on_all(h, names.take(n)),
    decreases names.len() - n,
{
    if n < names.len() {
        assert(names.take(n + 1).drop_last() =~= names.take(n));
        lemma_take_on_fails(h, names, n + 1);
    }
}

/// Where the first `n` names cannot all be handed over, the names cannot.
proof fn lemma_hand_over_fails(h: HoldView, names: Seq<Seq<char>>, n: int)
    requires
        0 <= n <= names.len(),
        hand_over_all(h, names.take(n)) is Err,
    ensures
        hand_over_all(h, names.take(names.len() as int)) == hand_over_all(h, names.take(n)),
    decreases names.len() - n,
{
    if n < names.len() {
        assert(names.take(n + 1).drop_last() =~= names.take(n));
        lemma_hand_over_fails(h, names, n + 1);
    }
}

} // verus!
