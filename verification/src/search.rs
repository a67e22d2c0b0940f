//! What the planner computes: one step from a state to the next, and the
//! search over all the steps that are open.

use vstd::prelude::*;
use crate::candidates::{candidates, CandidateView};
use crate::destination::DestinationView;
use crate::error::PlanError;
use crate::fingerprint::fingerprint;
use crate::graph::{record_for, remembered, sources, with_table, PathTableView};
use crate::movement::{Movement, MovementView};
use crate::package::{package_names, PackageView};
use crate::sorting::sorted;
use crate::table::{lemma_position, lemma_position_is, position};
use crate::timeline::{makespan, moved, trains_used, TripView};
use crate::train::{train_names, TrainView};

verus! {

/// A state of the planner: the trains, the packages, and the timeline so far.
pub ghost struct StateView {
    pub trains: Seq<TrainView>,
    pub packages: Seq<PackageView>,
    pub movements: Seq<MovementView>,
}

/// The mathematical value of a remembered plan.
pub ghost struct CachedPlanView {
    pub key: Seq<char>,
    pub movements: Seq<MovementView>,
}

/// The keys of the remembered plans, in their order.
pub open spec fn plan_keys(cache: Seq<CachedPlanView>) -> Seq<Seq<char>> {
    Seq::new(cache.len(), |i: int| cache[i].key)
}

/// The plan that is remembered under `key`, if there is one.
pub open spec fn recalled(cache: Seq<CachedPlanView>, key: Seq<char>) -> Option<
    Seq<MovementView>,
> {
    match position(plan_keys(cache), key) {
        Some(i) => Some(cache[i].movements),
        None => None,
    }
}

/// What is remembered after `plan` is filed under its key.
pub open spec fn with_plan(cache: Seq<CachedPlanView>, plan: CachedPlanView) -> Seq<
    CachedPlanView,
> {
    match position(plan_keys(cache), plan.key) {
        Some(i) => cache.update(i, plan),
        None => cache.push(plan),
    }
}

/// The trains after `train` is filed under its name.
pub open spec fn with_train(trains: Seq<TrainView>, train: TrainView) -> Seq<TrainView> {
    match position(train_names(trains), train.name) {
        Some(i) => trains.update(i, train),
        None => trains.push(train),
    }
}

/// The packages after `package` is filed under its name.
pub open spec fn with_package(packages: Seq<PackageView>, package: PackageView) -> Seq<
    PackageView,
> {
    match position(package_names(packages), package.name) {
        Some(i) => packages.update(i, package),
        None => packages.push(package),
    }
}

/// What the oracle, knowing the path tables `known`, answers when asked for
/// the way from `from` to `to`: the record, or `Unreachable` where the table
/// of `from` has none. `None` where it knows no table of `from`.
pub open spec fn route(known: Seq<PathTableView>, from: Seq<char>, to: Seq<char>) -> Option<
    Result<DestinationView, PlanError>,
> {
    match remembered(known, from) {
        None => None,
        Some(t) => Some(
            match record_for(t, to) {
                Some(d) => Ok(d),
                None => Err(PlanError::Unreachable),
            },
        ),
    }
}

/// `names` without any occurrence of `name`.
pub open spec fn without(names: Seq<Seq<char>>, name: Seq<char>) -> Seq<Seq<char>>
    decreases names.len(),
{
    if names.len() == 0 {
        names
    } else if names.last() == name {
        without(names.drop_last(), name)
    } else {
        without(names.drop_last(), name).push(names.last())
    }
}

/// What a step works on: the train that moves, the package it moves for, and the table of packages.
pub ghost struct HoldView {
    pub train: TrainView,
    pub package: PackageView,
    pub packages: Seq<PackageView>,
}

/// The package as held by `train` up to a stage: committed to and picked
/// up by it, and delivered by it where `delivered`.
pub open spec fn marked(p: PackageView, train: Seq<char>, delivered: bool) -> PackageView {
    PackageView {
        name: p.name,
        from: p.from,
        to: p.to,
        weight: p.weight,
        to_be_picked_up_by: train,
        picked_up_by: train,
        delivered_by: if delivered {
            train
        } else {
            Seq::empty()
        },
    }
}

/// The train takes the package called `name` on board: the name moves from
/// its commitments to what it holds, and the package is marked.
pub open spec fn take_on(h: HoldView, name: Seq<char>) -> Result<HoldView, PlanError> {
    let train = TrainView {
        packages_to_pick_up: without(h.train.packages_to_pick_up, name),
        packages_picked_up: h.train.packages_picked_up.push(name),
        ..h.train
    };
    if h.package.name == name {
        Ok(
            HoldView {
                train,
                package: PackageView { picked_up_by: h.train.name, ..h.package },
                packages: h.packages,
            },
        )
    } else {
        match position(package_names(h.packages), name) {
            Some(i) => Ok(
                HoldView {
                    train,
                    package: h.package,
                    packages: h.packages.update(i, marked(h.packages[i], h.train.name, false)),
                },
            ),
            None => Err(PlanError::LookupMiss),
        }
    }
}

/// The train hands the package called `name` over: the name moves from what
/// it holds to what it has delivered, and the package is marked.
pub open spec fn hand_over(h: HoldView, name: Seq<char>) -> Result<HoldView, PlanError> {
    let train = TrainView {
        packages_picked_up: without(h.train.packages_picked_up, name),
        packages_delivered: h.train.packages_delivered.push(name),
        ..h.train
    };
    if h.package.name == name {
        Ok(
            HoldView {
                train,
                package: PackageView { delivered_by: h.train.name, ..h.package },
                packages: h.packages,
            },
        )
    } else {
        match position(package_names(h.packages), name) {
            Some(i) => Ok(
                HoldView {
                    train,
                    package: h.package,
                    packages: h.packages.update(i, marked(h.packages[i], h.train.name, true)),
                },
            ),
            None => Err(PlanError::LookupMiss),
        }
    }
}

/// The named packages taken on board, one after the other.
pub open spec fn take_on_all(h: HoldView, names: Seq<Seq<char>>) -> Result<HoldView, PlanError>
    decreases names.len(),
{
    if names.len() == 0 {
        Ok(h)
    } else {
        match take_on_all(h, names.drop_last()) {
            Ok(so_far) => take_on(so_far, names.last()),
            Err(e) => Err(e),
        }
    }
}

/// The named packages handed over, one after the other.
pub open spec fn hand_over_all(h: HoldView, names: Seq<Seq<char>>) -> Result<HoldView, PlanError>
    decreases names.len(),
{
    if names.len() == 0 {
        Ok(h)
    } else {
        match hand_over_all(h, names.drop_last()) {
            Ok(so_far) => hand_over(so_far, names.last()),
            Err(e) => Err(e),
        }
    }
}

/// The train as the step starts on it: at the end of its way, if the way
/// has a length, and with the package among its commitments, if the step commits to it.
pub open spec fn set_out_train(
    train: TrainView,
    package: PackageView,
    is_pickup: bool,
    d: DestinationView,
) -> TrainView {
    let arrived = if d.cumulative_distance > 0 {
        TrainView {
            current_location: d.to,
            total_distance: train.total_distance + d.cumulative_distance,
            ..train
        }
    } else {
        train
    };
    if is_pickup {
        TrainView { packages_to_pick_up: arrived.packages_to_pick_up.push(package.name), ..arrived }
    } else {
        arrived
    }
}

/// The package as the step starts on it: committed to by the train, if the step commits to it.
pub open spec fn set_out_package(train: TrainView, package: PackageView, is_pickup: bool) -> PackageView {
    if is_pickup {
        PackageView { to_be_picked_up_by: train.name, ..package }
    } else {
        package
    }
}

/// What the step works on as it starts.
pub open spec fn set_out(
    train: TrainView,
    package: PackageView,
    packages: Seq<PackageView>,
    c: CandidateView,
    d: DestinationView,
) -> HoldView {
    HoldView {
        train: set_out_train(train, package, c.is_pickup, d),
        package: set_out_package(train, package, c.is_pickup),
        packages,
    }
}

/// The state after the trip `trip` of `train` for `package` along `d`.
pub open spec fn settle(
    trains: Seq<TrainView>,
    packages: Seq<PackageView>,
    train: TrainView,
    package: PackageView,
    c: CandidateView,
    d: DestinationView,
    trip: TripView,
) -> Result<StateView, PlanError> {
    match take_on_all(set_out(train, package, packages, c, d), trip.picked_up) {
        Err(e) => Err(e),
        Ok(loaded) => match hand_over_all(loaded, trip.delivered) {
            Err(e) => Err(e),
            Ok(h) => Ok(
                StateView {
                    trains: with_train(trains, h.train),
                    packages: with_package(h.packages, h.package),
                    movements: trip.movements,
                },
            ),
        },
    }
}

/// The station that the action sends the train to: the origin of the
/// package where the action commits to it, else its destination.
pub open spec fn goal(package: PackageView, is_pickup: bool) -> Seq<char> {
    if is_pickup {
        package.from
    } else {
        package.to
    }
}

/// The way that the action needs, from where the train stands to the
/// station that the action sends it to, as the oracle answers.
pub open spec fn way(
    known: Seq<PathTableView>,
    from: Seq<char>,
    package: PackageView,
    is_pickup: bool,
) -> Option<Result<DestinationView, PlanError>> {
    route(known, from, goal(package, is_pickup))
}

/// The state after the trip, or `Overflow` where the distance that the
/// train has covered no longer fits in an `i32`.
pub open spec fn arrive(
    trains: Seq<TrainView>,
    packages: Seq<PackageView>,
    train: TrainView,
    package: PackageView,
    c: CandidateView,
    d: DestinationView,
    trip: TripView,
) -> Result<StateView, PlanError> {
    if d.cumulative_distance > 0 && train.total_distance + d.cumulative_distance > i32::MAX {
        Err(PlanError::Overflow)
    } else {
        settle(trains, packages, train, package, c, d, trip)
    }
}

/// One step: the action `c` taken in the state. `LookupMiss` where the
/// tables lack its train or its package; else what the oracle, the trip or
/// the arrival fails with. `None` where `known` lacks the path table that the step needs.
pub open spec fn advance(
    known: Seq<PathTableView>,
    trains: Seq<TrainView>,
    packages: Seq<PackageView>,
    movements: Seq<MovementView>,
    c: CandidateView,
) -> Option<Result<StateView, PlanError>> {
    match (position(train_names(trains), c.train), position(package_names(packages), c.package)) {
        (Some(ti), Some(pi)) => match way(
            known,
            trains[ti].current_location,
            packages[pi],
            c.is_pickup,
        ) {
            None => None,
            Some(Err(e)) => Some(Err(e)),
            Some(Ok(d)) => Some(
                match moved(trains[ti], d, packages, movements) {
                    Err(e) => Err(e),
                    Ok(trip) => arrive(trains, packages, trains[ti], packages[pi], c, d, trip),
                },
            ),
        },
        _ => Some(Err(PlanError::LookupMiss)),
    }
}

/// Every package is delivered.
pub open spec fn all_delivered(packages: Seq<PackageView>) -> bool {
    forall|i: int| 0 <= i < packages.len() ==> (#[trigger] packages[i]).is_delivered()
}

/// The best plan so far, with what it costs.
pub ghost struct BestView {
    pub distance: int,
    pub trains: int,
    pub plan: Seq<MovementView>,
}

/// The better of the best so far and `plan`: `plan` where it ends earlier,
/// or ends at the same time and moves fewer trains.
pub open spec fn better(best: BestView, plan: Seq<MovementView>) -> BestView {
    if makespan(plan) < best.distance || (makespan(plan) == best.distance && trains_used(plan)
        < best.trains) {
        BestView { distance: makespan(plan), trains: trains_used(plan), plan }
    } else {
        best
    }
}

/// How a search ends: with a plan or an error, and with the plans it remembers.
pub ghost struct OutcomeView {
    pub result: Result<Seq<MovementView>, PlanError>,
    pub cache: Seq<CachedPlanView>,
}

/// The search from a state, at most `budget` steps deep: the plan
/// remembered for the state, if there is one; with no action open, the
/// timeline as it is, or `NoSolution` while a package is undelivered; else
/// the best of the plans found through each open action, sorted, which is
/// then remembered. `None` where `known` lacks a path table that the search needs.
#[verifier::opaque]
pub open spec fn search(
    known: Seq<PathTableView>,
    cache: Seq<CachedPlanView>,
    trains: Seq<TrainView>,
    packages: Seq<PackageView>,
    movements: Seq<MovementView>,
    budget: nat,
) -> Option<OutcomeView>
    decreases budget, 0nat, 0nat,
{
    let key = fingerprint(trains, packages);
    match recalled(cache, key) {
        Some(plan) => Some(OutcomeView { result: Ok(plan), cache }),
        None => match candidates(trains, packages) {
            Err(e) => Some(OutcomeView { result: Err(e), cache }),
            Ok(queue) => if queue.len() == 0 {
                Some(
                    OutcomeView {
                        result: if all_delivered(packages) {
                            Ok(movements)
                        } else {
                            Err(PlanError::NoSolution)
                        },
                        cache,
                    },
                )
            } else if budget == 0 {
                Some(OutcomeView { result: Err(PlanError::BudgetExhausted), cache })
            } else {
                match explore(
                    known,
                    cache,
                    trains,
                    packages,
                    movements,
                    queue,
                    0,
                    BestView {
                        distance: i32::MAX as int,
                        trains: i32::MAX as int,
                        plan: movements,
                    },
                    (budget - 1) as nat,
                ) {
                    None => None,
                    Some(o) => match o.result {
                        Err(e) => Some(o),
                        Ok(best) => Some(
                            OutcomeView {
                                result: Ok(sorted::<Movement>(best)),
                                cache: with_plan(
                                    o.cache,
                                    CachedPlanView { key, movements: sorted::<Movement>(best) },
                                ),
                            },
                        ),
                    },
                }
            },
        },
    }
}

/// The search through the actions of `queue` from the `i`th on, each at
/// most `budget` steps deep, with the best plan so far: the first error
/// ends it; a plan of more than `i32::MAX` movements is an `Overflow`.
#[verifier::opaque]
pub open spec fn explore(
    known: Seq<PathTableView>,
    cache: Seq<CachedPlanView>,
    trains: Seq<TrainView>,
    packages: Seq<PackageView>,
    movements: Seq<MovementView>,
    queue: Seq<CandidateView>,
    i: int,
    best: BestView,
    budget: nat,
) -> Option<OutcomeView>
    decreases budget, 1nat, queue.len() - i,
{
    if i < 0 || i >= queue.len() {
        Some(OutcomeView { result: Ok(best.plan), cache })
    } else {
        match advance(known, trains, packages, movements, queue[i]) {
            None => None,
            Some(Err(e)) => Some(OutcomeView { result: Err(e), cache }),
            Some(Ok(next)) => match search(
                known,
                cache,
                next.trains,
                next.packages,
                next.movements,
                budget,
            ) {
                None => None,
                Some(o) => match o.result {
                    Err(e) => Some(o),
                    Ok(plan) => if plan.len() > i32::MAX {
                        Some(OutcomeView { result: Err(PlanError::Overflow), cache: o.cache })
                    } else {
                        explore(
                            known,
                            o.cache,
                            trains,
                            packages,
                            movements,
                            queue,
                            i + 1,
                            better(best, plan),
                            budget,
                        )
                    },
                },
            },
        }
    }
}

/// The state is remembered: the search gives the remembered plan.
pub proof fn lemma_search_recalls(
    known: Seq<PathTableView>,
    cache: Seq<CachedPlanView>,
    trains: Seq<TrainView>,
    packages: Seq<PackageView>,
    movements: Seq<MovementView>,
    budget: nat,
)
    requires
        recalled(cache, fingerprint(trains, packages)) is Some,
    ensures
        search(known, cache, trains, packages, movements, budget) == Some(
            OutcomeView {
                result: Ok(recalled(cache, fingerprint(trains, packages)).unwrap()),
                cache,
            },
        ),
{
    reveal(search);
    reveal(explore);
}

/// The state is not remembered and the search does not go through a queue:
/// the actions cannot be listed, none is open, or the budget is spent.
pub proof fn lemma_search_stops(
    known: Seq<PathTableView>,
    cache: Seq<CachedPlanView>,
    trains: Seq<TrainView>,
    packages: Seq<PackageView>,
    movements: Seq<MovementView>,
    budget: nat,
)
    requires
        recalled(cache, fingerprint(trains, packages)) is None,
        match candidates(trains, packages) {
            Err(e) => true,
            Ok(queue) => queue.len() == 0 || budget == 0,
        },
    ensures
        search(known, cache, trains, packages, movements, budget) == Some(
            OutcomeView {
                result: match candidates(trains, packages) {
                    Err(e) => Err(e),
                    Ok(queue) => if queue.len() == 0 {
                        if all_delivered(packages) {
                            Ok(movements)
                        } else {
                            Err(PlanError::NoSolution)
                        }
                    } else {
                        Err(PlanError::BudgetExhausted)
                    },
                },
                cache,
            },
        ),
{
    reveal(search);
    reveal(explore);
}

/// The state is not remembered and the search goes through the queue: its
/// error, or its best plan sorted and remembered.
pub proof fn lemma_search_explores(
    known: Seq<PathTableView>,
    cache: Seq<CachedPlanView>,
    trains: Seq<TrainView>,
    packages: Seq<PackageView>,
    movements: Seq<MovementView>,
    budget: nat,
)
    requires
        recalled(cache, fingerprint(trains, packages)) is None,
        candidates(trains, packages) is Ok,
        candidates(trains, packages).unwrap().len() > 0,
        budget > 0,
    ensures
        search(known, cache, trains, packages, movements, budget) == match explore(
            known,
            cache,
            trains,
            packages,
            movements,
            candidates(trains, packages).unwrap(),
            0,
            BestView { distance: i32::MAX as int, trains: i32::MAX as int, plan: movements },
            (budget - 1) as nat,
        ) {
            None => None,
            Some(o) => match o.result {
                Err(e) => Some(o),
                Ok(best) => Some(
                    OutcomeView {
                        result: Ok(sorted::<Movement>(best)),
                        cache: with_plan(
                            o.cache,
                            CachedPlanView {
                                key: fingerprint(trains, packages),
                                movements: sorted::<Movement>(best),
                            },
                        ),
                    },
                ),
            },
        },
{
    reveal(search);
    reveal(explore);
}

/// A search through the queue that can be made takes a step that can be
/// taken, and behind it makes a search that can be made.
pub proof fn lemma_explore_needs(
    known: Seq<PathTableView>,
    cache: Seq<CachedPlanView>,
    trains: Seq<TrainView>,
    packages: Seq<PackageView>,
    movements: Seq<MovementView>,
    queue: Seq<CandidateView>,
    i: int,
    best: BestView,
    budget: nat,
)
    requires
        0 <= i < queue.len(),
        explore(known, cache, trains, packages, movements, queue, i, best, budget) is Some,
    ensures
        advance(known, trains, packages, movements, queue[i]) is Some,
        match advance(known, trains, packages, movements, queue[i]).unwrap() {
            Ok(next) => search(
                known,
                cache,
                next.trains,
                next.packages,
                next.movements,
                budget,
            ) is Some,
            Err(e) => true,
        },
{
    reveal(search);
    reveal(explore);
}

/// The queue is through: the best plan so far.
pub proof fn lemma_explore_ends(
    known: Seq<PathTableView>,
    cache: Seq<CachedPlanView>,
    trains: Seq<TrainView>,
    packages: Seq<PackageView>,
    movements: Seq<MovementView>,
    queue: Seq<CandidateView>,
    i: int,
    best: BestView,
    budget: nat,
)
    requires
        i >= queue.len(),
    ensures
        explore(known, cache, trains, packages, movements, queue, i, best, budget) == Some(
            OutcomeView { result: Ok(best.plan), cache },
        ),
{
    reveal(search);
    reveal(explore);
}

/// The step of the `i`th action fails: its error ends the search through the queue.
pub proof fn lemma_explore_step_fails(
    known: Seq<PathTableView>,
    cache: Seq<CachedPlanView>,
    trains: Seq<TrainView>,
    packages: Seq<PackageView>,
    movements: Seq<MovementView>,
    queue: Seq<CandidateView>,
    i: int,
    best: BestView,
    budget: nat,
    e: PlanError,
)
    requires
        0 <= i < queue.len(),
        advance(known, trains, packages, movements, queue[i]) == Some(
            Err::<StateView, PlanError>(e),
        ),
    ensures
        explore(known, cache, trains, packages, movements, queue, i, best, budget) == Some(
            OutcomeView { result: Err(e), cache },
        ),
{
    reveal(search);
    reveal(explore);
}

/// The search behind the `i`th action fails, or finds a plan that is too
/// long: that ends the search through the queue.
pub proof fn lemma_explore_search_fails(
    known: Seq<PathTableView>,
    cache: Seq<CachedPlanView>,
    trains: Seq<TrainView>,
    packages: Seq<PackageView>,
    movements: Seq<MovementView>,
    queue: Seq<CandidateView>,
    i: int,
    best: BestView,
    budget: nat,
    next: StateView,
    o: OutcomeView,
)
    requires
        0 <= i < queue.len(),
        advance(known, trains, packages, movements, queue[i]) == Some(
            Ok::<StateView, PlanError>(next),
        ),
        search(known, cache, next.trains, next.packages, next.movements, budget) == Some(o),
        match o.result {
            Err(e) => true,
            Ok(plan) => plan.len() > i32::MAX,
        },
    ensures
        explore(known, cache, trains, packages, movements, queue, i, best, budget) == Some(
            OutcomeView {
                result: match o.result {
                    Err(e) => Err(e),
                    Ok(plan) => Err(PlanError::Overflow),
                },
                cache: o.cache,
            },
        ),
{
    reveal(search);
    reveal(explore);
}

/// The search behind the `i`th action finds a plan: the search through the
/// queue goes on with the better of it and the best so far.
pub proof fn lemma_explore_goes_on(
    known: Seq<PathTableView>,
    cache: Seq<CachedPlanView>,
    trains: Seq<TrainView>,
    packages: Seq<PackageView>,
    movements: Seq<MovementView>,
    queue: Seq<CandidateView>,
    i: int,
    best: BestView,
    budget: nat,
    next: StateView,
    o: OutcomeView,
)
    requires
        0 <= i < queue.len(),
        advance(known, trains, packages, movements, queue[i]) == Some(
            Ok::<StateView, PlanError>(next),
        ),
        search(known, cache, next.trains, next.packages, next.movements, budget) == Some(o),
        o.result is Ok,
        o.result.unwrap().len() <= i32::MAX,
    ensures
        explore(known, cache, trains, packages, movements, queue, i, best, budget) == explore(
            known,
            o.cache,
            trains,
            packages,
            movements,
            queue,
            i + 1,
            better(best, o.result.unwrap()),
            budget,
        ),
{
    reveal(search);
    reveal(explore);
}

/// Whatever more the oracle comes to know, the search through the queue from
/// the start is the search from the `i`th action on with `cache` and `best`.
pub open spec fn carried(
    known: Seq<PathTableView>,
    cache0: Seq<CachedPlanView>,
    cache: Seq<CachedPlanView>,
    trains: Seq<TrainView>,
    packages: Seq<PackageView>,
    movements: Seq<MovementView>,
    queue: Seq<CandidateView>,
    i: int,
    best0: BestView,
    best: BestView,
    budget: nat,
) -> bool {
    forall|wider: Seq<PathTableView>| #[trigger]
        extends(known, wider) ==> explore(
            wider,
            cache0,
            trains,
            packages,
            movements,
            queue,
            0,
            best0,
            budget,
        ) == explore(wider, cache, trains, packages, movements, queue, i, best, budget)
}

/// Where the step of the `i`th action fails, the search through the queue fails with it.
pub proof fn lemma_carried_step_fails(
    known: Seq<PathTableView>,
    wider: Seq<PathTableView>,
    cache0: Seq<CachedPlanView>,
    cache: Seq<CachedPlanView>,
    trains: Seq<TrainView>,
    packages: Seq<PackageView>,
    movements: Seq<MovementView>,
    queue: Seq<CandidateView>,
    i: int,
    best0: BestView,
    best: BestView,
    budget: nat,
    e: PlanError,
)
    requires
        carried(known, cache0, cache, trains, packages, movements, queue, i, best0, best, budget),
        extends(known, wider),
        0 <= i < queue.len(),
        advance(wider, trains, packages, movements, queue[i]) == Some(
            Err::<StateView, PlanError>(e),
        ),
    ensures
        explore(wider, cache0, trains, packages, movements, queue, 0, best0, budget) == Some(
            OutcomeView { result: Err(e), cache },
        ),
{
    lemma_explore_step_fails(wider, cache, trains, packages, movements, queue, i, best, budget, e);
}

/// Where the search behind the `i`th action fails, or finds a plan that is
/// too long, the search through the queue fails with it.
pub proof fn lemma_carried_search_fails(
    known: Seq<PathTableView>,
    wider: Seq<PathTableView>,
    cache0: Seq<CachedPlanView>,
    cache: Seq<CachedPlanView>,
    trains: Seq<TrainView>,
    packages: Seq<PackageView>,
    movements: Seq<MovementView>,
    queue: Seq<CandidateView>,
    i: int,
    best0: BestView,
    best: BestView,
    budget: nat,
    next: StateView,
    o: OutcomeView,
)
    requires
        carried(known, cache0, cache, trains, packages, movements, queue, i, best0, best, budget),
        extends(known, wider),
        0 <= i < queue.len(),
        advance(wider, trains, packages, movements, queue[i]) == Some(
            Ok::<StateView, PlanError>(next),
        ),
        search(wider, cache, next.trains, next.packages, next.movements, budget) == Some(o),
        match o.result {
            Err(e) => true,
            Ok(plan) => plan.len() > i32::MAX,
        },
    ensures
        explore(wider, cache0, trains, packages, movements, queue, 0, best0, budget) == Some(
            OutcomeView {
                result: match o.result {
                    Err(e) => Err(e),
                    Ok(plan) => Err(PlanError::Overflow),
                },
                cache: o.cache,
            },
        ),
{
    lemma_explore_search_fails(
        wider,
        cache,
        trains,
        packages,
        movements,
        queue,
        i,
        best,
        budget,
        next,
        o,
    );
}

/// Where the search behind the `i`th action finds a plan, the search
/// through the queue is carried on to the next action.
pub proof fn lemma_carried_goes_on(
    known: Seq<PathTableView>,
    wider: Seq<PathTableView>,
    cache0: Seq<CachedPlanView>,
    cache: Seq<CachedPlanView>,
    trains: Seq<TrainView>,
    packages: Seq<PackageView>,
    movements: Seq<MovementView>,
    queue: Seq<CandidateView>,
    i: int,
    best0: BestView,
    best: BestView,
    budget: nat,
    next: StateView,
    o: OutcomeView,
)
    requires
        carried(known, cache0, cache, trains, packages, movements, queue, i, best0, best, budget),
        extends(known, wider),
        0 <= i < queue.len(),
        advance(wider, trains, packages, movements, queue[i]) == Some(
            Ok::<StateView, PlanError>(next),
        ),
        search(wider, cache, next.trains, next.packages, next.movements, budget) == Some(o),
        o.result is Ok,
        o.result.unwrap().len() <= i32::MAX,
    ensures
        carried(
            wider,
            cache0,
            o.cache,
            trains,
            packages,
            movements,
            queue,
            i + 1,
            best0,
            better(best, o.result.unwrap()),
            budget,
        ),
{
    assert forall|widest: Seq<PathTableView>| #[trigger] extends(wider, widest) implies explore(
        widest,
        cache0,
        trains,
        packages,
        movements,
        queue,
        0,
        best0,
        budget,
    ) == explore(
        widest,
        o.cache,
        trains,
        packages,
        movements,
        queue,
        i + 1,
        better(best, o.result.unwrap()),
        budget,
    ) by {
        lemma_extends_transitive(known, wider, widest);
        lemma_advance_extends(wider, widest, trains, packages, movements, queue[i]);
        lemma_search_extends(
            wider,
            widest,
            cache,
            next.trains,
            next.packages,
            next.movements,
            budget,
        );
        lemma_explore_goes_on(
            widest,
            cache,
            trains,
            packages,
            movements,
            queue,
            i,
            best,
            budget,
            next,
            o,
        );
    }
}

/// What is filed under a key is what is recalled for it.
pub proof fn lemma_recalled_with_plan(cache: Seq<CachedPlanView>, plan: CachedPlanView)
    ensures
        recalled(with_plan(cache, plan), plan.key) == Some(plan.movements),
{
    let after = with_plan(cache, plan);
    lemma_position(plan_keys(cache), plan.key);
    let at = match position(plan_keys(cache), plan.key) {
        Some(i) => i,
        None => cache.len() as int,
    };
    assert(plan_keys(after)[at] == plan.key);
    assert forall|j: int| 0 <= j < at implies plan_keys(after)[j] != plan.key by {
        assert(plan_keys(after)[j] == plan_keys(cache)[j]);
    }
    lemma_position_is(plan_keys(after), plan.key, at);
}

/// The memoization law: a search that found its plan through an open
/// action, or recalled it, leaves a memory from which every search from a
/// state of the same key, whatever its timeline, its budget and the
/// oracle's knowledge, gives that very plan and changes nothing.
pub proof fn lemma_search_remembers(
    known: Seq<PathTableView>,
    cache: Seq<CachedPlanView>,
    trains: Seq<TrainView>,
    packages: Seq<PackageView>,
    movements: Seq<MovementView>,
    budget: nat,
    plan: Seq<MovementView>,
    left: Seq<CachedPlanView>,
    known_again: Seq<PathTableView>,
    trains_again: Seq<TrainView>,
    packages_again: Seq<PackageView>,
    movements_again: Seq<MovementView>,
    budget_again: nat,
)
    requires
        search(known, cache, trains, packages, movements, budget) == Some(
            OutcomeView { result: Ok(plan), cache: left },
        ),
        recalled(cache, fingerprint(trains, packages)) is Some || (candidates(trains, packages)
            is Ok && candidates(trains, packages).unwrap().len() > 0),
        fingerprint(trains_again, packages_again) == fingerprint(trains, packages),
    ensures
        search(
            known_again,
            left,
            trains_again,
            packages_again,
            movements_again,
            budget_again,
        ) == Some(OutcomeView { result: Ok(plan), cache: left }),
{
    let key = fingerprint(trains, packages);
    if recalled(cache, key) is Some {
        lemma_search_recalls(known, cache, trains, packages, movements, budget);
    } else {
        if budget == 0 {
            lemma_search_stops(known, cache, trains, packages, movements, budget);
        } else {
            lemma_search_explores(known, cache, trains, packages, movements, budget);
            let o = explore(
                known,
                cache,
                trains,
                packages,
                movements,
                candidates(trains, packages).unwrap(),
                0,
                BestView { distance: i32::MAX as int, trains: i32::MAX as int, plan: movements },
                (budget - 1) as nat,
            ).unwrap();
            lemma_recalled_with_plan(o.cache, CachedPlanView { key, movements: plan });
        }
    }
    lemma_search_recalls(
        known_again,
        left,
        trains_again,
        packages_again,
        movements_again,
        budget_again,
    );
}

/// The budget of a search that starts with `n` packages: three steps for each.
pub open spec fn budget_for(n: nat) -> nat {
    if 3 * n > usize::MAX {
        usize::MAX as nat
    } else {
        3 * n
    }
}

/// `wider` knows every path table that `known` knows, and the same of it.
pub open spec fn extends(known: Seq<PathTableView>, wider: Seq<PathTableView>) -> bool {
    forall|source: Seq<char>| #[trigger]
        remembered(known, source) is Some ==> remembered(wider, source) == remembered(
            known,
            source,
        )
}

/// What knows more than what knows more knows more.
pub proof fn lemma_extends_transitive(
    a: Seq<PathTableView>,
    b: Seq<PathTableView>,
    c: Seq<PathTableView>,
)
    requires
        extends(a, b),
        extends(b, c),
    ensures
        extends(a, c),
{
    assert forall|source: Seq<char>| #[trigger] remembered(a, source) is Some implies remembered(
        c,
        source,
    ) == remembered(a, source) by {
        assert(remembered(b, source) is Some);
    }
}

/// Filing a table for a source of which none was known keeps what was known.
pub proof fn lemma_with_table_extends(known: Seq<PathTableView>, table: PathTableView)
    requires
        remembered(known, table.source) is None,
    ensures
        extends(known, with_table(known, table)),
{
    let wider = with_table(known, table);
    lemma_position(sources(known), table.source);
    assert forall|source: Seq<char>| #[trigger]
        remembered(known, source) is Some implies remembered(wider, source) == remembered(
        known,
        source,
    ) by {
        lemma_position(sources(known), source);
        let j = position(sources(known), source).unwrap();
        assert(source != table.source);
        assert(sources(wider)[j] == source);
        assert forall|k: int| 0 <= k < j implies sources(wider)[k] != source by {
            assert(sources(known)[k] != source);
        }
        lemma_position_is(sources(wider), source, j);
    }
}

/// The way that the oracle finds it finds when it knows more.
pub proof fn lemma_way_extends(
    known: Seq<PathTableView>,
    wider: Seq<PathTableView>,
    from: Seq<char>,
    package: PackageView,
    is_pickup: bool,
)
    requires
        extends(known, wider),
        way(known, from, package, is_pickup) is Some,
    ensures
        way(wider, from, package, is_pickup) == way(known, from, package, is_pickup),
{
    assert(remembered(known, from) is Some);
}

/// A step that can be taken is the same step when the oracle knows more.
pub proof fn lemma_advance_extends(
    known: Seq<PathTableView>,
    wider: Seq<PathTableView>,
    trains: Seq<TrainView>,
    packages: Seq<PackageView>,
    movements: Seq<MovementView>,
    c: CandidateView,
)
    requires
        extends(known, wider),
        advance(known, trains, packages, movements, c) is Some,
    ensures
        advance(wider, trains, packages, movements, c) == advance(
            known,
            trains,
            packages,
            movements,
            c,
        ),
{
    match (position(train_names(trains), c.train), position(package_names(packages), c.package)) {
        (Some(ti), Some(pi)) => {
            lemma_way_extends(known, wider, trains[ti].current_location, packages[pi], c.is_pickup);
        },
        _ => {},
    }
}

/// A search that can be made is the same search when the oracle knows more.
pub proof fn lemma_search_extends(
    known: Seq<PathTableView>,
    wider: Seq<PathTableView>,
    cache: Seq<CachedPlanView>,
    trains: Seq<TrainView>,
    packages: Seq<PackageView>,
    movements: Seq<MovementView>,
    budget: nat,
)
    requires
        extends(known, wider),
        search(known, cache, trains, packages, movements, budget) is Some,
    ensures
        search(wider, cache, trains, packages, movements, budget) == search(
            known,
            cache,
            trains,
            packages,
            movements,
            budget,
        ),
    decreases budget, 0nat, 0nat,
{
    reveal(search);
    reveal(explore);
    let key = fingerprint(trains, packages);
    if recalled(cache, key) is None {
        match candidates(trains, packages) {
            Err(e) => {},
            Ok(queue) => {
                if queue.len() > 0 && budget > 0 {
                    lemma_explore_extends(
                        known,
                        wider,
                        cache,
                        trains,
                        packages,
                        movements,
                        queue,
                        0,
                        BestView {
                            distance: i32::MAX as int,
                            trains: i32::MAX as int,
                            plan: movements,
                        },
                        (budget - 1) as nat,
                    );
                }
            },
        }
    }
}

/// The search through a queue that can be made is the same when the oracle knows more.
pub proof fn lemma_explore_extends(
    known: Seq<PathTableView>,
    wider: Seq<PathTableView>,
    cache: Seq<CachedPlanView>,
    trains: Seq<TrainView>,
    packages: Seq<PackageView>,
    movements: Seq<MovementView>,
    queue: Seq<CandidateView>,
    i: int,
    best: BestView,
    budget: nat,
)
    requires
        extends(known, wider),
        explore(known, cache, trains, packages, movements, queue, i, best, budget) is Some,
    ensures
        explore(wider, cache, trains, packages, movements, queue, i, best, budget) == explore(
            known,
            cache,
            trains,
            packages,
            movements,
            queue,
            i,
            best,
            budget,
        ),
    decreases budget, 1nat, queue.len() - i,
{
    reveal(search);
    reveal(explore);
    if 0 <= i < queue.len() {
        lemma_advance_extends(known, wider, trains, packages, movements, queue[i]);
        match advance(known, trains, packages, movements, queue[i]) {
            Some(Ok(next)) => {
                lemma_search_extends(
                    known,
                    wider,
                    cache,
                    next.trains,
                    next.packages,
                    next.movements,
                    budget,
                );
                match search(known, cache, next.trains, next.packages, next.movements, budget) {
                    Some(o) => match o.result {
                        Ok(plan) => {
                            if plan.len() <= i32::MAX {
                                lemma_explore_extends(
                                    known,
                                    wider,
                                    o.cache,
                                    trains,
                                    packages,
                                    movements,
                                    queue,
                                    i + 1,
                                    better(best, plan),
                                    budget,
                                );
                            }
                        },
                        Err(e) => {},
                    },
                    None => {},
                }
            },
            _ => {},
        }
    }
}

} // verus!
