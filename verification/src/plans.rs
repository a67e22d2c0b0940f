//! Why every plan that the search gives is a plan.

use vstd::prelude::*;
use vstd::seq_lib::seq_to_set_is_finite;
use vstd::set_lib::lemma_len_subset;
use crate::candidates::{candidates, CandidateView};
use crate::capacity::{mass, same_cargo, weights_ok};
use crate::error::PlanError;
use crate::fingerprint::fingerprint;
use crate::graph::PathTableView;
use crate::loads::{
    board, lemma_advance_loads, lemma_loads_fit_same, loads_fit, loads_ok, run_fits, same_fleet,
};
use crate::movement::{lemma_movements_rank_well, Movement, MovementView};
use crate::package::{package_names, PackageView};
use crate::search::{
    advance, all_delivered, better, explore, lemma_explore_ends, lemma_explore_goes_on,
    lemma_explore_needs, lemma_explore_search_fails, lemma_explore_step_fails,
    lemma_search_explores, lemma_search_recalls, lemma_search_stops, plan_keys, recalled, search,
    with_plan, BestView, CachedPlanView,
};
use crate::sorting::{in_order, lemma_sorted_in_order, sorted};
use crate::deliveries::{
    bound_for, hands_home, hands_home_at, lemma_advance_homes, lemma_hands_home_same,
    lemma_sorted_hands_home,
};
use crate::once::{claims_apart, done_with, gives, hands_once, lemma_advance_once, train_gives};
use crate::origins::{
    bound_from, legs_positive, lemma_advance_origins, lemma_sorted_takes_home,
    lemma_takes_home_same, takes_home, takes_home_at, waits_at_origin,
};
use crate::paths::AdjacencyView;
use crate::pickups::{
    given_after_taken, held_taken, lemma_advance_takes, lemma_takes_same, lemma_takes_same_runs,
    taken_by, taken_off, takes_once, train_takes,
};
use crate::sums::{
    boards_distinct, claims_ok, given_sum, lemma_advance_claims, lemma_board_sums, picked_sum,
    run_distinct,
};
use crate::soundness::{
    at_start, lemma_advance_ok, lemma_advance_on_legs, lemma_advance_starts, timeline_ok, ways_ok,
    ways_sound,
};
use crate::table::{lemma_position, position};
use crate::timeline::{makespan, trains_of, trains_used};
use crate::train::{train_names, TrainView};
use crate::validity::{
    chained, contiguous, delivered_in, delivers_all, hands_over, known_trains, lemma_chain_order,
    lemma_place, lemma_place_grows, lemma_runs_has, lemma_runs_sorted, lemma_runs_timed,
    lemma_sorted_contiguous, lemma_sorted_delivers, lemma_sorted_known_trains,
    lemma_sorted_on_legs, lemma_sorted_timed, lemma_timed_drop_last, on_legs, place, runs,
    starts_right, takes_on, timed,
};

verus! {

/// The state is in order: its timeline and its loads; every movement so
/// far runs along a leg of the adjacency; the first movement of each train
/// starts at time 0 where the train starts, and a train that has not moved
/// stands there; no train has claimed a package twice, or has had one on
/// board twice; no package is handed over twice or claimed by two trains,
/// and what is handed over is claimed no more; no package is taken on
/// twice, what a train holds it has taken on, and what is taken on no train
/// is committed to any more; and, where every leg has a length, packages are
/// taken on where they come from, and a train stands where the packages
/// come from that it is committed to.
pub open spec fn state_ok(
    adj: Seq<AdjacencyView>,
    trains: Seq<TrainView>,
    packages: Seq<PackageView>,
    movements: Seq<MovementView>,
) -> bool {
    &&& timeline_ok(trains, packages, movements)
    &&& loads_ok(trains, packages, movements)
    &&& on_legs(adj, movements)
    &&& at_start(trains, movements)
    &&& starts_right(movements, trains)
    &&& claims_ok(trains, packages)
    &&& boards_distinct(movements, trains)
    &&& hands_home(movements, packages)
    &&& hands_once(movements, trains)
    &&& done_with(trains, packages, movements)
    &&& claims_apart(trains)
    &&& takes_once(movements, trains)
    &&& taken_off(trains, packages, movements)
    &&& held_taken(trains, movements)
    &&& given_after_taken(movements, trains)
    &&& legs_positive(adj) ==> waits_at_origin(trains, packages) && takes_home(movements, packages)
}

/// A plan for the trains and the packages: every movement timed, along a
/// leg of the adjacency for as long as the leg is, and that of one of the
/// trains; the movements of each train joined end to end, the first from
/// time 0 and from the station where the train starts;
/// every package handed over, once, and none but the packages of the
/// table, each where it is bound for, by the train that took it on, once,
/// with that movement or an earlier one; no train, on any of its movements,
/// loaded beyond its capacity, or with a package on board twice; and, where
/// every leg of the adjacency has a length, none but the packages of the
/// table taken on, each where it comes from.
pub open spec fn plan_ok(
    adj: Seq<AdjacencyView>,
    plan: Seq<MovementView>,
    trains: Seq<TrainView>,
    packages: Seq<PackageView>,
) -> bool {
    &&& timed(plan)
    &&& on_legs(adj, plan)
    &&& contiguous(plan)
    &&& starts_right(plan, trains)
    &&& known_trains(plan, train_names(trains))
    &&& delivers_all(plan, package_names(packages))
    &&& hands_home(plan, packages)
    &&& hands_once(plan, trains)
    &&& takes_once(plan, trains)
    &&& given_after_taken(plan, trains)
    &&& loads_fit(plan, trains, packages)
    &&& boards_distinct(plan, trains)
    &&& legs_positive(adj) ==> takes_home(plan, packages)
}

/// Every plan that is remembered is a plan for the trains and the packages.
pub open spec fn memory_ok(
    adj: Seq<AdjacencyView>,
    cache: Seq<CachedPlanView>,
    trains: Seq<TrainView>,
    packages: Seq<PackageView>,
) -> bool {
    forall|i: int| 0 <= i < cache.len() ==> plan_ok(adj, (#[trigger] cache[i]).movements, trains, packages)
}

/// A plan for tables of trains and packages is a plan for tables of the
/// same trains and the same packages.
pub proof fn lemma_plan_ok_same(
    adj: Seq<AdjacencyView>,
    plan: Seq<MovementView>,
    trains: Seq<TrainView>,
    packages: Seq<PackageView>,
    trains_after: Seq<TrainView>,
    packages_after: Seq<PackageView>,
)
    requires
        same_fleet(trains, trains_after),
        same_cargo(packages, packages_after),
        plan_ok(adj, plan, trains, packages),
    ensures
        plan_ok(adj, plan, trains_after, packages_after),
{
    assert(train_names(trains_after) =~= train_names(trains));
    assert(package_names(packages_after) =~= package_names(packages));
    lemma_loads_fit_same(plan, trains, packages, trains_after, packages_after);
    lemma_hands_home_same(plan, packages, packages_after);
    if legs_positive(adj) {
        lemma_takes_home_same(plan, packages, packages_after);
    }
    assert forall|i: int, a: int, k: int, i2: int, a2: int, k2: int, name: Seq<char>|
        #[trigger] train_gives(plan, trains_after, i, a, k, name) && #[trigger] train_gives(
            plan,
            trains_after,
            i2,
            a2,
            k2,
            name,
        ) implies i == i2 && a == a2 && k == k2 by {
        assert(trains_after[i].name == trains[i].name);
        assert(trains_after[i2].name == trains[i2].name);
        assert(train_gives(plan, trains, i, a, k, name));
        assert(train_gives(plan, trains, i2, a2, k2, name));
    }
    assert forall|i: int| 0 <= i < trains_after.len() implies run_distinct(
        runs(plan, (#[trigger] trains_after[i]).name),
    ) by {
        assert(run_distinct(runs(plan, trains[i].name)));
    }
    lemma_takes_same(plan, trains, trains_after);
    assert forall|i: int|
        0 <= i < trains_after.len() && runs(plan, (#[trigger] trains_after[i]).name).len()
            > 0 implies runs(plan, trains_after[i].name)[0].start_time == 0 && runs(
        plan,
        trains_after[i].name,
    )[0].from == trains_after[i].start by {
        assert(trains[i].name == trains_after[i].name);
    }
}

/// What is remembered for tables of trains and packages is remembered for
/// tables of the same trains and the same packages.
pub proof fn lemma_memory_ok_same(
    adj: Seq<AdjacencyView>,
    cache: Seq<CachedPlanView>,
    trains: Seq<TrainView>,
    packages: Seq<PackageView>,
    trains_after: Seq<TrainView>,
    packages_after: Seq<PackageView>,
)
    requires
        same_fleet(trains, trains_after),
        same_cargo(packages, packages_after),
        memory_ok(adj, cache, trains, packages),
    ensures
        memory_ok(adj, cache, trains_after, packages_after),
{
    assert forall|i: int| 0 <= i < cache.len() implies plan_ok(
        adj,
        (#[trigger] cache[i]).movements,
        trains_after,
        packages_after,
    ) by {
        lemma_plan_ok_same(adj, cache[i].movements, trains, packages, trains_after, packages_after);
    }
}

/// Sorting keeps the loads of a timed and contiguous timeline.
pub proof fn lemma_sorted_loads(
    plan: Seq<MovementView>,
    trains: Seq<TrainView>,
    packages: Seq<PackageView>,
)
    requires
        timed(plan),
        contiguous(plan),
        loads_fit(plan, trains, packages),
    ensures
        loads_fit(sorted::<Movement>(plan), trains, packages),
{
    assert forall|i: int| 0 <= i < trains.len() implies run_fits(
        runs(sorted::<Movement>(plan), (#[trigger] trains[i]).name),
        packages,
        trains[i].capacity,
    ) by {
        lemma_runs_sorted(plan, trains[i].name);
        assert(run_fits(runs(plan, trains[i].name), packages, trains[i].capacity));
    }
}

/// A timed timeline ends at a time that an `i32` can say.
pub proof fn lemma_makespan_fits(plan: Seq<MovementView>)
    requires
        timed(plan),
    ensures
        0 <= makespan(plan) <= i32::MAX,
    decreases plan.len(),
{
    if plan.len() > 0 {
        lemma_timed_drop_last(plan);
        lemma_makespan_fits(plan.drop_last());
        assert(plan.last() == plan[plan.len() - 1]);
    }
}

/// A timeline moves no more trains than it has names for.
pub proof fn lemma_trains_used_few(plan: Seq<MovementView>, names: Seq<Seq<char>>)
    requires
        known_trains(plan, names),
    ensures
        trains_used(plan) <= names.len(),
{
    let used = trains_of(plan).to_set();
    assert forall|x: Seq<char>| used.contains(x) implies names.to_set().contains(x) by {
        let j = choose|j: int| 0 <= j < trains_of(plan).len() && trains_of(plan)[j] == x;
        assert(names.contains(plan[j].train));
    }
    seq_to_set_is_finite(names);
    lemma_len_subset(used, names.to_set());
    names.lemma_cardinality_of_set();
}

/// What the search starts from as the best so far: the timeline as it is, at the greatest cost.
pub open spec fn no_plan_yet(movements: Seq<MovementView>) -> BestView {
    BestView { distance: i32::MAX as int, trains: i32::MAX as int, plan: movements }
}

/// The first plan that is found is better than none.
pub proof fn lemma_first_plan_wins(
    movements: Seq<MovementView>,
    plan: Seq<MovementView>,
    names: Seq<Seq<char>>,
)
    requires
        timed(plan),
        known_trains(plan, names),
        names.len() < i32::MAX,
    ensures
        better(no_plan_yet(movements), plan).plan == plan,
{
    lemma_makespan_fits(plan);
    lemma_trains_used_few(plan, names);
}

/// Sorting keeps a plan a plan.
pub proof fn lemma_sorted_plan(
    adj: Seq<AdjacencyView>,
    plan: Seq<MovementView>,
    trains: Seq<TrainView>,
    packages: Seq<PackageView>,
)
    requires
        plan_ok(adj, plan, trains, packages),
    ensures
        plan_ok(adj, sorted::<Movement>(plan), trains, packages),
{
    lemma_sorted_timed(plan);
    lemma_sorted_contiguous(plan);
    lemma_sorted_known_trains(plan, train_names(trains));
    lemma_sorted_delivers(plan, package_names(packages));
    lemma_sorted_loads(plan, trains, packages);
    lemma_sorted_on_legs(adj, plan);
    lemma_sorted_hands_home(plan, packages);
    if legs_positive(adj) {
        lemma_sorted_takes_home(plan, packages);
    }
    assert forall|i: int, a: int, k: int, i2: int, a2: int, k2: int, name: Seq<char>|
        #[trigger] train_gives(sorted::<Movement>(plan), trains, i, a, k, name)
            && #[trigger] train_gives(
            sorted::<Movement>(plan),
            trains,
            i2,
            a2,
            k2,
            name,
        ) implies i == i2 && a == a2 && k == k2 by {
        lemma_runs_sorted(plan, trains[i].name);
        lemma_runs_sorted(plan, trains[i2].name);
        assert(train_gives(plan, trains, i, a, k, name));
        assert(train_gives(plan, trains, i2, a2, k2, name));
    }
    assert forall|i: int| 0 <= i < trains.len() implies run_distinct(
        runs(sorted::<Movement>(plan), (#[trigger] trains[i]).name),
    ) by {
        lemma_runs_sorted(plan, trains[i].name);
        assert(run_distinct(runs(plan, trains[i].name)));
    }
    assert forall|i: int| 0 <= i < trains.len() implies runs(
        sorted::<Movement>(plan),
        (#[trigger] trains[i]).name,
    ) == runs(plan, trains[i].name) by {
        lemma_runs_sorted(plan, trains[i].name);
    }
    lemma_takes_same_runs(plan, sorted::<Movement>(plan), trains, trains);
    assert forall|i: int|
        0 <= i < trains.len() && runs(sorted::<Movement>(plan), (#[trigger] trains[i]).name).len()
            > 0 implies runs(sorted::<Movement>(plan), trains[i].name)[0].start_time == 0 && runs(
        sorted::<Movement>(plan),
        trains[i].name,
    )[0].from == trains[i].start by {
        lemma_runs_sorted(plan, trains[i].name);
    }
}

/// Every plan returned is a plan: from a state in order, with a memory of
/// plans, the search gives a timeline that is timed, that joins the
/// movements of each train end to end, and that hands over every package;
/// and what it then remembers are such plans.
pub proof fn lemma_search_ok(
    adj: Seq<AdjacencyView>,
    known: Seq<PathTableView>,
    cache: Seq<CachedPlanView>,
    trains: Seq<TrainView>,
    packages: Seq<PackageView>,
    movements: Seq<MovementView>,
    budget: nat,
)
    requires
        ways_ok(known),
        ways_sound(adj, known),
        state_ok(adj, trains, packages, movements),
        memory_ok(adj, cache, trains, packages),
        search(known, cache, trains, packages, movements, budget) is Some,
    ensures
        ({
            let o = search(known, cache, trains, packages, movements, budget).unwrap();
            &&& memory_ok(adj, o.cache, trains, packages)
            &&& o.result is Ok ==> plan_ok(adj, o.result.unwrap(), trains, packages)
        }),
    decreases budget, 0nat, 0nat,
{
    let key = fingerprint(trains, packages);
    let pn = package_names(packages);
    if recalled(cache, key) is Some {
        lemma_search_recalls(known, cache, trains, packages, movements, budget);
        lemma_position(plan_keys(cache), key);
        let i = position(plan_keys(cache), key).unwrap();
        assert(plan_ok(adj, cache[i].movements, trains, packages));
    } else {
        match candidates(trains, packages) {
            Err(e) => {
                lemma_search_stops(known, cache, trains, packages, movements, budget);
            },
            Ok(queue) => {
                if queue.len() == 0 || budget == 0 {
                    lemma_search_stops(known, cache, trains, packages, movements, budget);
                    if queue.len() == 0 && all_delivered(packages) {
                        assert forall|i: int| 0 <= i < pn.len() implies delivered_in(
                            movements,
                            #[trigger] pn[i],
                        ) by {
                            assert(packages[i].is_delivered());
                        }
                    }
                } else {
                    lemma_search_explores(known, cache, trains, packages, movements, budget);
                    lemma_explore_ok(
                        adj,
                        known,
                        cache,
                        trains,
                        packages,
                        movements,
                        queue,
                        0,
                        no_plan_yet(movements),
                        (budget - 1) as nat,
                    );
                    let o = explore(
                        known,
                        cache,
                        trains,
                        packages,
                        movements,
                        queue,
                        0,
                        no_plan_yet(movements),
                        (budget - 1) as nat,
                    ).unwrap();
                    if o.result is Ok {
                        let best = o.result.unwrap();
                        lemma_sorted_plan(adj, best, trains, packages);
                        let filed = CachedPlanView { key, movements: sorted::<Movement>(best) };
                        let after = with_plan(o.cache, filed);
                        lemma_position(plan_keys(o.cache), key);
                        assert forall|i: int| 0 <= i < after.len() implies plan_ok(
                            adj,
                            (#[trigger] after[i]).movements,
                            trains,
                            packages,
                        ) by {
                            if after[i] != filed {
                                assert(after[i] == o.cache[i]);
                            }
                        }
                    }
                }
            },
        }
    }
}

/// The search through a queue gives a plan and remembers plans, as the search does.
pub proof fn lemma_explore_ok(
    adj: Seq<AdjacencyView>,
    known: Seq<PathTableView>,
    cache: Seq<CachedPlanView>,
    trains: Seq<TrainView>,
    packages: Seq<PackageView>,
    movements: Seq<MovementView>,
    queue: Seq<CandidateView>,
    i: int,
    best: BestView,
    budget: nat,
)
    requires
        ways_ok(known),
        ways_sound(adj, known),
        state_ok(adj, trains, packages, movements),
        memory_ok(adj, cache, trains, packages),
        candidates(trains, packages) == Ok::<Seq<CandidateView>, PlanError>(queue),
        queue.len() > 0,
        0 <= i,
        i == 0 ==> best == no_plan_yet(movements),
        i > 0 ==> plan_ok(adj, best.plan, trains, packages),
        explore(known, cache, trains, packages, movements, queue, i, best, budget) is Some,
    ensures
        ({
            let o = explore(
                known,
                cache,
                trains,
                packages,
                movements,
                queue,
                i,
                best,
                budget,
            ).unwrap();
            &&& memory_ok(adj, o.cache, trains, packages)
            &&& o.result is Ok ==> plan_ok(adj, o.result.unwrap(), trains, packages)
        }),
    decreases budget, 1nat, queue.len() - i,
{
    let tn = train_names(trains);
    let pn = package_names(packages);
    if i >= queue.len() {
        lemma_explore_ends(known, cache, trains, packages, movements, queue, i, best, budget);
    } else {
        lemma_explore_needs(known, cache, trains, packages, movements, queue, i, best, budget);
        match advance(known, trains, packages, movements, queue[i]).unwrap() {
            Err(e) => {
                lemma_explore_step_fails(
                    known,
                    cache,
                    trains,
                    packages,
                    movements,
                    queue,
                    i,
                    best,
                    budget,
                    e,
                );
            },
            Ok(next) => {
                assert(queue.contains(queue[i]));
                lemma_advance_ok(known, trains, packages, movements, queue[i]);
                lemma_advance_loads(known, trains, packages, movements, queue[i]);
                lemma_advance_on_legs(adj, known, trains, packages, movements, queue[i]);
                lemma_advance_starts(known, trains, packages, movements, queue[i]);
                lemma_advance_claims(known, trains, packages, movements, queue[i]);
                lemma_advance_homes(known, trains, packages, movements, queue[i]);
                lemma_advance_once(adj, known, trains, packages, movements, queue[i]);
                lemma_advance_takes(known, trains, packages, movements, queue[i]);
                if legs_positive(adj) {
                    lemma_advance_origins(adj, known, trains, packages, movements, queue[i]);
                }
                lemma_memory_ok_same(adj, cache, trains, packages, next.trains, next.packages);
                lemma_search_ok(adj, known, cache, next.trains, next.packages, next.movements, budget);
                let o = search(
                    known,
                    cache,
                    next.trains,
                    next.packages,
                    next.movements,
                    budget,
                ).unwrap();
                lemma_memory_ok_same(adj, o.cache, next.trains, next.packages, trains, packages);
                match o.result {
                    Err(e) => {
                        lemma_explore_search_fails(
                            known,
                            cache,
                            trains,
                            packages,
                            movements,
                            queue,
                            i,
                            best,
                            budget,
                            next,
                            o,
                        );
                    },
                    Ok(plan) => {
                        if plan.len() > i32::MAX {
                            lemma_explore_search_fails(
                                known,
                                cache,
                                trains,
                                packages,
                                movements,
                                queue,
                                i,
                                best,
                                budget,
                                next,
                                o,
                            );
                        } else {
                            lemma_explore_goes_on(
                                known,
                                cache,
                                trains,
                                packages,
                                movements,
                                queue,
                                i,
                                best,
                                budget,
                                next,
                                o,
                            );
                            lemma_plan_ok_same(
                                adj,
                                plan,
                                next.trains,
                                next.packages,
                                trains,
                                packages,
                            );
                            if i == 0 {
                                lemma_first_plan_wins(movements, plan, tn);
                            }
                            lemma_explore_ok(
                                adj,
                                known,
                                o.cache,
                                trains,
                                packages,
                                movements,
                                queue,
                                i + 1,
                                better(best, plan),
                                budget,
                            );
                        }
                    },
                }
            },
        }
    }
}

/// The plan that a search finds through an open action stands train by
/// train, the movements of each train by their start.
pub proof fn lemma_search_sorts(
    known: Seq<PathTableView>,
    cache: Seq<CachedPlanView>,
    trains: Seq<TrainView>,
    packages: Seq<PackageView>,
    movements: Seq<MovementView>,
    budget: nat,
)
    requires
        recalled(cache, fingerprint(trains, packages)) is None,
        candidates(trains, packages) is Ok,
        candidates(trains, packages).unwrap().len() > 0,
        search(known, cache, trains, packages, movements, budget) is Some,
        search(known, cache, trains, packages, movements, budget).unwrap().result is Ok,
    ensures
        in_order::<Movement>(
            search(known, cache, trains, packages, movements, budget).unwrap().result.unwrap(),
        ),
{
    lemma_movements_rank_well();
    if budget == 0 {
        lemma_search_stops(known, cache, trains, packages, movements, budget);
    } else {
        lemma_search_explores(known, cache, trains, packages, movements, budget);
        let o = explore(
            known,
            cache,
            trains,
            packages,
            movements,
            candidates(trains, packages).unwrap(),
            0,
            no_plan_yet(movements),
            (budget - 1) as nat,
        ).unwrap();
        lemma_sorted_in_order::<Movement>(o.result.unwrap());
    }
}

/// The capacity bound of a plan as sums: for every train and every one of
/// its movements, the weight of what its movements up to and with that one
/// take on, less the weight of what its movements before that one hand
/// over, is no more than the train can carry.
pub proof fn lemma_plan_within_capacity(
    adj: Seq<AdjacencyView>,
    plan: Seq<MovementView>,
    trains: Seq<TrainView>,
    packages: Seq<PackageView>,
    i: int,
    j: int,
)
    requires
        plan_ok(adj, plan, trains, packages),
        weights_ok(packages),
        0 <= i < trains.len(),
        0 <= j < runs(plan, trains[i].name).len(),
    ensures
        picked_sum(runs(plan, trains[i].name), j + 1, packages) - given_sum(
            runs(plan, trains[i].name),
            j,
            packages,
        ) <= trains[i].capacity,
{
    let r = runs(plan, trains[i].name);
    assert(run_distinct(r));
    assert(run_fits(r, packages, trains[i].capacity));
    assert(mass(board(r, j), packages) <= trains[i].capacity);
    lemma_board_sums(r, packages, j);
}

/// Every package of a plan is handed over by one movement of one train,
/// once, where the package is bound for, and by no other.
pub proof fn lemma_plan_hands_over_once(
    adj: Seq<AdjacencyView>,
    plan: Seq<MovementView>,
    trains: Seq<TrainView>,
    packages: Seq<PackageView>,
    q: int,
)
    requires
        plan_ok(adj, plan, trains, packages),
        0 <= q < packages.len(),
    ensures
        exists|i: int, a: int, k: int|
            {
                &&& #[trigger] train_gives(plan, trains, i, a, k, packages[q].name)
                &&& bound_for(packages, packages[q].name, runs(plan, trains[i].name)[a].to)
                &&& forall|i2: int, a2: int, k2: int| #[trigger]
                    train_gives(plan, trains, i2, a2, k2, packages[q].name) ==> i2 == i && a2 == a
                        && k2 == k
            },
{
    let name = packages[q].name;
    assert(package_names(packages)[q] == name);
    assert(delivered_in(plan, name));
    let (j, k) = choose|j: int, k: int| hands_over(plan, j, k, name);
    let names = train_names(trains);
    assert(names.contains(plan[j].train));
    let i = choose|i: int| 0 <= i < names.len() && names[i] == plan[j].train;
    let r = runs(plan, trains[i].name);
    assert(plan.contains(plan[j]));
    lemma_runs_has(plan, trains[i].name, plan[j]);
    let a = choose|a: int| 0 <= a < r.len() && r[a] == plan[j];
    assert(train_gives(plan, trains, i, a, k, name));
    assert(hands_home_at(packages, plan[j]));
    assert(bound_for(packages, plan[j].packages_delivered[k], plan[j].to));
}

/// Every package of a plan is taken on by one movement of one train, once,
/// and by no other; that train hands it over, with that movement or a
/// later one, which starts no earlier.
pub proof fn lemma_plan_takes_once(
    adj: Seq<AdjacencyView>,
    plan: Seq<MovementView>,
    trains: Seq<TrainView>,
    packages: Seq<PackageView>,
    q: int,
)
    requires
        plan_ok(adj, plan, trains, packages),
        0 <= q < packages.len(),
    ensures
        exists|i: int, a: int, k: int, a0: int, k0: int|
            {
                &&& #[trigger] train_gives(plan, trains, i, a, k, packages[q].name)
                &&& #[trigger] train_takes(plan, trains, i, a0, k0, packages[q].name)
                &&& a0 <= a
                &&& runs(plan, trains[i].name)[a0].start_time <= runs(
                    plan,
                    trains[i].name,
                )[a].start_time
                &&& forall|i2: int, a2: int, k2: int| #[trigger]
                    train_takes(plan, trains, i2, a2, k2, packages[q].name) ==> i2 == i && a2
                        == a0 && k2 == k0
            },
{
    let name = packages[q].name;
    lemma_plan_hands_over_once(adj, plan, trains, packages, q);
    let (i, a, k) = choose|i: int, a: int, k: int| #[trigger]
        train_gives(plan, trains, i, a, k, name);
    assert(taken_by(plan, trains, i, a, name));
    let (a0, k0) = choose|a0: int, k0: int| #[trigger]
        train_takes(plan, trains, i, a0, k0, name) && a0 <= a;
    let r = runs(plan, trains[i].name);
    lemma_runs_timed(plan, trains[i].name);
    assert(chained(r));
    lemma_chain_order(r, a0, a);
    assert(train_gives(plan, trains, i, a, k, name) && train_takes(plan, trains, i, a0, k0, name));
}

/// The train of a movement of a plan, and the movement's place among those
/// of the train.
proof fn lemma_plan_place(
    adj: Seq<AdjacencyView>,
    plan: Seq<MovementView>,
    trains: Seq<TrainView>,
    packages: Seq<PackageView>,
    j: int,
) -> (at: (int, int))
    requires
        plan_ok(adj, plan, trains, packages),
        0 <= j < plan.len(),
    ensures
        0 <= at.0 < trains.len(),
        trains[at.0].name == plan[j].train,
        at.1 == place(plan, plan[j].train, j),
        0 <= at.1 < runs(plan, trains[at.0].name).len(),
        runs(plan, trains[at.0].name)[at.1] == plan[j],
{
    let names = train_names(trains);
    assert(names.contains(plan[j].train));
    let i = choose|i: int| 0 <= i < names.len() && names[i] == plan[j].train;
    lemma_place(plan, j);
    (i, place(plan, plan[j].train, j))
}

/// No package is handed over at two places of a plan.
pub proof fn lemma_plan_hands_over_at_one_place(
    adj: Seq<AdjacencyView>,
    plan: Seq<MovementView>,
    trains: Seq<TrainView>,
    packages: Seq<PackageView>,
    name: Seq<char>,
    j: int,
    k: int,
    j2: int,
    k2: int,
)
    requires
        plan_ok(adj, plan, trains, packages),
        hands_over(plan, j, k, name),
        hands_over(plan, j2, k2, name),
    ensures
        j == j2,
        k == k2,
{
    let (i, a) = lemma_plan_place(adj, plan, trains, packages, j);
    let (i2, a2) = lemma_plan_place(adj, plan, trains, packages, j2);
    assert(train_gives(plan, trains, i, a, k, name));
    assert(train_gives(plan, trains, i2, a2, k2, name));
    if j < j2 {
        lemma_place_grows(plan, j, j2);
    } else if j2 < j {
        lemma_place_grows(plan, j2, j);
    }
}

/// No package is taken on at two places of a plan.
pub proof fn lemma_plan_takes_on_at_one_place(
    adj: Seq<AdjacencyView>,
    plan: Seq<MovementView>,
    trains: Seq<TrainView>,
    packages: Seq<PackageView>,
    name: Seq<char>,
    j: int,
    k: int,
    j2: int,
    k2: int,
)
    requires
        plan_ok(adj, plan, trains, packages),
        takes_on(plan, j, k, name),
        takes_on(plan, j2, k2, name),
    ensures
        j == j2,
        k == k2,
{
    let (i, a) = lemma_plan_place(adj, plan, trains, packages, j);
    let (i2, a2) = lemma_plan_place(adj, plan, trains, packages, j2);
    assert(train_takes(plan, trains, i, a, k, name));
    assert(train_takes(plan, trains, i2, a2, k2, name));
    if j < j2 {
        lemma_place_grows(plan, j, j2);
    } else if j2 < j {
        lemma_place_grows(plan, j2, j);
    }
}

/// The movement of a plan that takes a package on is a movement of the
/// train that hands it over: the same movement or one before it in the
/// plan, which starts no later.
pub proof fn lemma_plan_takes_on_first(
    adj: Seq<AdjacencyView>,
    plan: Seq<MovementView>,
    trains: Seq<TrainView>,
    packages: Seq<PackageView>,
    name: Seq<char>,
    j0: int,
    k0: int,
    j: int,
    k: int,
)
    requires
        plan_ok(adj, plan, trains, packages),
        takes_on(plan, j0, k0, name),
        hands_over(plan, j, k, name),
    ensures
        plan[j0].train == plan[j].train,
        j0 <= j,
        plan[j0].start_time <= plan[j].start_time,
{
    let (i0, a0) = lemma_plan_place(adj, plan, trains, packages, j0);
    let (i, a) = lemma_plan_place(adj, plan, trains, packages, j);
    assert(train_takes(plan, trains, i0, a0, k0, name));
    assert(train_gives(plan, trains, i, a, k, name));
    assert(taken_by(plan, trains, i, a, name));
    let (a1, k1) = choose|a1: int, k1: int| #[trigger]
        train_takes(plan, trains, i, a1, k1, name) && a1 <= a;
    assert(i0 == i && a0 == a1);
    if j < j0 {
        lemma_place_grows(plan, j, j0);
    }
    let r = runs(plan, trains[i].name);
    lemma_runs_timed(plan, trains[i].name);
    assert(chained(r));
    lemma_chain_order(r, a0, a);
}

/// Every package of the table is carried by a plan: some movement takes it
/// on and some movement hands it over, where the package is bound for; and,
/// where every leg of the adjacency has a length, it is taken on where it
/// comes from.
pub proof fn lemma_plan_carries_each(
    adj: Seq<AdjacencyView>,
    plan: Seq<MovementView>,
    trains: Seq<TrainView>,
    packages: Seq<PackageView>,
    q: int,
)
    requires
        plan_ok(adj, plan, trains, packages),
        0 <= q < packages.len(),
    ensures
        exists|j0: int, k0: int, j: int, k: int|
            {
                &&& #[trigger] takes_on(plan, j0, k0, packages[q].name)
                &&& #[trigger] hands_over(plan, j, k, packages[q].name)
                &&& bound_for(packages, packages[q].name, plan[j].to)
                &&& legs_positive(adj) ==> bound_from(packages, packages[q].name, plan[j0].from)
            },
{
    let name = packages[q].name;
    assert(package_names(packages)[q] == name);
    assert(delivered_in(plan, name));
    let (j, k) = choose|j: int, k: int| hands_over(plan, j, k, name);
    let (i, a) = lemma_plan_place(adj, plan, trains, packages, j);
    assert(train_gives(plan, trains, i, a, k, name));
    assert(taken_by(plan, trains, i, a, name));
    let (a0, k0) = choose|a0: int, k0: int| #[trigger]
        train_takes(plan, trains, i, a0, k0, name) && a0 <= a;
    let r = runs(plan, trains[i].name);
    assert(r.contains(r[a0]));
    lemma_runs_has(plan, trains[i].name, r[a0]);
    let j0 = choose|j0: int| 0 <= j0 < plan.len() && plan[j0] == r[a0];
    assert(takes_on(plan, j0, k0, name));
    assert(hands_home_at(packages, plan[j]));
    assert(bound_for(packages, plan[j].packages_delivered[k], plan[j].to));
    if legs_positive(adj) {
        assert(takes_home_at(packages, plan[j0]));
        assert(bound_from(packages, plan[j0].packages_picked_up[k0], plan[j0].from));
    }
}

} // verus!
