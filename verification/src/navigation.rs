//! The planner: from trains, packages and a timeline so far to the best plan it finds.

use vstd::prelude::*;
use vstd::string::*;
use crate::candidates::{
    candidates, capable_among, capable_trains, commitments, commitments_of, has_free, load,
    loads_known, offers, pickups, total_weight, weight_of, Candidate, CandidateView,
};
use crate::destination::Destination;
use crate::error::PlanError;
use crate::fingerprint::{
    fingerprint, fragment, holder_at, holders, train_places, NamePair, NamePairView, Stage,
};
use crate::graph::{Graph, PathTableView};
use crate::input::{cargo, fleet, network, Input};
use crate::min_heap::MAX_ENTRIES;
use crate::movement::{copy_movements, Movement, MovementView};
use crate::names::{lemma_take_push, same_name, views};
use crate::package::{copy_packages, package_names, Package, PackageView};
use crate::paths::{legs_non_negative, route_count};
use crate::search::{
    all_delivered, better, budget_for, carried, extends, lemma_advance_extends,
    lemma_carried_goes_on, lemma_carried_search_fails, lemma_carried_step_fails,
    lemma_explore_ends, lemma_extends_transitive, lemma_search_explores, lemma_search_recalls,
    lemma_search_stops, plan_keys, recalled, search, with_package, with_plan, with_train,
    BestView, CachedPlanView, OutcomeView, StateView,
};
use crate::sorting::sort;
use crate::plans::{lemma_search_ok, memory_ok, plan_ok, state_ok};
use crate::soundness::{lemma_known_sound, lemma_known_ways};
use crate::step::advance_state;
use crate::table::{find, keys, lemma_position, put, upsert, Keyed};
use crate::timeline::{
    due, handed_over, last_end, leg_count, lemma_due_known, makespan, moved, stop, time_at,
    trains_of, trains_used, trip,
};
use crate::train::{copy_trains, train_names, Train};

verus! {

/// A plan that the planner remembers, under the key of the state it was found for.
pub struct CachedPlan {
    pub key: String,
    pub movements: Vec<Movement>,
}

impl View for CachedPlan {
    type V = CachedPlanView;

    open spec fn view(&self) -> CachedPlanView {
        CachedPlanView { key: self.key@, movements: views(self.movements@) }
    }
}

impl Keyed for CachedPlan {
    open spec fn key(&self) -> Seq<char> {
        self.key@
    }

    fn key_str(&self) -> (r: &str) {
        self.key.as_str()
    }
}

/// The planner: the graph with its oracle, the trains and the packages it
/// was made for, and the plans it remembers.
pub struct Navigation {
    pub graph: Graph,
    pub trains: Vec<Train>,
    pub packages: Vec<Package>,
    pub cache: Vec<CachedPlan>,
}

/// What the result of a search stands for.
pub open spec fn plan_view(r: Result<Vec<Movement>, PlanError>) -> Result<
    Seq<MovementView>,
    PlanError,
> {
    match r {
        Ok(plan) => Ok(views(plan@)),
        Err(e) => Err(e),
    }
}

/// Whether every package is delivered.
fn every_package_delivered(packages: &Vec<Package>) -> (r: bool)
    ensures
        r == all_delivered(views(packages@)),
{
    let mut i: usize = 0;
    while i < packages.len()
        invariant
            i <= packages@.len(),
            forall|k: int| 0 <= k < i ==> (#[trigger] views(packages@)[k]).is_delivered(),
        decreases packages@.len() - i,
    {
        if packages[i].delivered_by.as_str().is_empty() {
            assert(!views(packages@)[i as int].is_delivered());
            return false;
        }
        i += 1;
    }
    true
}

/// Writes a fragment of the key: the tag, then the pairs.
fn write_fragment(tag: &str, pairs: &Vec<NamePair>) -> (r: String)
    ensures
        r@ == fragment(tag@, views(pairs@)),
{
    let mut r = String::from_str(tag);
    let mut i: usize = 0;
    proof {
        assert(views(pairs@.take(0)) =~= Seq::<NamePairView>::empty());
    }
    while i < pairs.len()
        invariant
            i <= pairs@.len(),
            r@ == fragment(tag@, views(pairs@.take(i as int))),
        decreases pairs@.len() - i,
    {
        proof {
            let next = views(pairs@.take(i + 1));
            assert(next.drop_last() =~= views(pairs@.take(i as int)));
            assert(next.last() == pairs@[i as int]@);
        }
        r.append(",");
        r.append(pairs[i].name.as_str());
        r.append(":");
        r.append(pairs[i].holder.as_str());
        i += 1;
    }
    proof {
        assert(pairs@.take(pairs@.len() as int) =~= pairs@);
    }
    r
}

/// The packages that name a train at `stage`, each with that train.
fn collect_holders(packages: &Vec<Package>, stage: Stage) -> (r: Vec<NamePair>)
    ensures
        views(r@) == holders(views(packages@), stage),
{
    let mut r: Vec<NamePair> = Vec::new();
    let mut i: usize = 0;
    proof {
        assert(views(packages@.take(0)) =~= Seq::empty());
        assert(views(r@) =~= Seq::empty());
    }
    while i < packages.len()
        invariant
            i <= packages@.len(),
            views(r@) == holders(views(packages@.take(i as int)), stage),
        decreases packages@.len() - i,
    {
        let ghost before = views(r@);
        proof {
            let next = views(packages@.take(i + 1));
            assert(next.drop_last() =~= views(packages@.take(i as int)));
            assert(next.last() == packages@[i as int]@);
        }
        let holder = match stage {
            Stage::Reserved => &packages[i].to_be_picked_up_by,
            Stage::PickedUp => &packages[i].picked_up_by,
            Stage::Delivered => &packages[i].delivered_by,
        };
        if !holder.as_str().is_empty() {
            r.push(NamePair { name: packages[i].name.clone(), holder: holder.clone() });
            proof {
                assert(views(r@) =~= before.push(
                    NamePairView {
                        name: packages@[i as int]@.name,
                        holder: holder_at(packages@[i as int]@, stage),
                    },
                ));
            }
        }
        i += 1;
    }
    proof {
        assert(packages@.take(packages@.len() as int) =~= packages@);
    }
    r
}

/// The names of the packages that the train has claimed: those it has
/// committed to, then those on board.
fn claimed_names(train: &Train) -> (r: Vec<String>)
    ensures
        views(r@) == train@.claimed(),
{
    let mut r = train.packages_to_pick_up.clone();
    let mut i: usize = 0;
    proof {
        assert(views(r@) =~= train@.packages_to_pick_up + train@.packages_picked_up.take(0));
    }
    while i < train.packages_picked_up.len()
        invariant
            i <= train.packages_picked_up@.len(),
            views(r@) == train@.packages_to_pick_up + train@.packages_picked_up.take(i as int),
        decreases train.packages_picked_up@.len() - i,
    {
        let ghost before = views(r@);
        r.push(train.packages_picked_up[i].clone());
        proof {
            assert(views(r@) =~= before.push(train@.packages_picked_up[i as int]));
            lemma_take_push(train@.packages_to_pick_up, train@.packages_picked_up, i as int);
        }
        i += 1;
    }
    proof {
        let b = train@.packages_picked_up;
        assert(b.take(b.len() as int) =~= b);
    }
    r
}

/// What the train has claimed of its capacity, if the table holds all that it names.
fn load_of(train: &Train, packages: &Vec<Package>) -> (r: Option<i128>)
    ensures
        match load(train@, views(packages@)) {
            Some(claimed) => r is Some && r.unwrap() == claimed
                && -0x8000_0000_0000_0000_0000_0000 <= claimed <= 0x8000_0000_0000_0000_0000_0000,
            None => r is None,
        },
{
    let names = claimed_names(train);
    let ghost all = views(names@);
    let ghost table = views(packages@);
    let mut sum: i128 = 0;
    let mut i: usize = 0;
    proof {
        assert(keys(packages@) =~= package_names(table));
        assert(all.take(0) =~= Seq::empty());
    }
    while i < names.len()
        invariant
            i <= names@.len(),
            all == views(names@),
            all == train@.claimed(),
            table == views(packages@),
            keys(packages@) == package_names(table),
            total_weight(all.take(i as int), table) == Some(sum as int),
            -0x8000_0000 * i <= sum <= 0x8000_0000 * i,
        decreases names@.len() - i,
    {
        proof {
            assert(all.take(i + 1).drop_last() =~= all.take(i as int));
            assert(all.take(i + 1).last() == names@[i as int]@);
        }
        match find(packages, names[i].as_str()) {
            Some(at) => {
                sum = sum + packages[at].weight as i128;
            },
            None => {
                proof {
                    assert(weight_of(table, all.take(i + 1).last()) is None);
                    assert(total_weight(all.take(i + 1), table) is None);
                    lemma_total_weight_lacks(all, table, i + 1);
                    assert(all.take(all.len() as int) =~= all);
                }
                return None;
            },
        }
        i += 1;
    }
    proof {
        assert(all.take(all.len() as int) =~= all);
    }
    Some(sum)
}

/// Where the table lacks one of the first `n` names, it lacks one of them all.
proof fn lemma_total_weight_lacks(names: Seq<Seq<char>>, packages: Seq<PackageView>, n: int)
    requires
        0 <= n <= names.len(),
        total_weight(names.take(n), packages) is None,
    ensures
        total_weight(names.take(names.len() as int), packages) is None,
    decreases names.len() - n,
{
    if n < names.len() {
        assert(names.take(n + 1).drop_last() =~= names.take(n));
        lemma_total_weight_lacks(names, packages, n + 1);
    }
}

/// Where the table lacks one of the first `n` names, it lacks one of them all.
proof fn lemma_due_lacks(
    names: Seq<Seq<char>>,
    packages: Seq<PackageView>,
    to: Seq<char>,
    n: int,
)
    requires
        0 <= n <= names.len(),
        due(names.take(n), packages, to) is None,
    ensures
        due(names.take(names.len() as int), packages, to) is None,
    decreases names.len() - n,
{
    if n < names.len() {
        assert(names.take(n + 1).drop_last() =~= names.take(n));
        lemma_due_lacks(names, packages, to, n + 1);
    }
}

/// The values of a sequence with one more are those of the sequence and the one.
proof fn lemma_push_to_set(s: Seq<Seq<char>>, x: Seq<char>)
    ensures
        s.push(x).to_set() == s.to_set().insert(x),
{
    assert forall|y: Seq<char>| s.push(x).to_set().contains(y) <==> s.to_set().insert(x).contains(
        y,
    ) by {
        if s.push(x).contains(y) {
            let k = choose|k: int| 0 <= k < s.push(x).len() && s.push(x)[k] == y;
            if k < s.len() {
                assert(s[k] == y);
            }
        }
        if s.contains(y) {
            let k = choose|k: int| 0 <= k < s.len() && s[k] == y;
            assert(s.push(x)[k] == y);
        }
        if y == x {
            assert(s.push(x)[s.len() as int] == x);
        }
    }
    assert(s.push(x).to_set() =~= s.to_set().insert(x));
}

/// Adds copies of the names in `more` behind those in `names`.
fn extend_names(names: &mut Vec<String>, more: &Vec<String>)
    ensures
        views(final(names)@) == views(old(names)@) + views(more@),
{
    let ghost base = views(names@);
    let ghost whole = views(more@);
    let mut i: usize = 0;
    proof {
        assert(base + whole.take(0) =~= base);
    }
    while i < more.len()
        invariant
            i <= more@.len(),
            whole == views(more@),
            views(names@) == base + whole.take(i as int),
        decreases more@.len() - i,
    {
        let ghost so_far = views(names@);
        names.push(more[i].clone());
        proof {
            assert(views(names@) =~= so_far.push(whole[i as int]));
            lemma_take_push(base, whole, i as int);
        }
        i += 1;
    }
    proof {
        assert(whole.take(whole.len() as int) =~= whole);
    }
}

/// Whether `name` is among `names`.
fn holds_name(names: &Vec<String>, name: &str) -> (r: bool)
    ensures
        r == views(names@).contains(name@),
{
    let mut i: usize = 0;
    while i < names.len()
        invariant
            i <= names@.len(),
            forall|k: int| 0 <= k < i ==> views(names@)[k] != name@,
        decreases names@.len() - i,
    {
        if same_name(names[i].as_str(), name) {
            assert(views(names@)[i as int] == name@);
            return true;
        }
        i += 1;
    }
    false
}

/// When the train's last movement in the timeline ends; 0 where it has none.
fn last_end_of(movements: &Vec<Movement>, train: &str) -> (r: i32)
    ensures
        r == last_end(views(movements@), train@),
{
    let ghost all = views(movements@);
    let mut i: usize = movements.len();
    proof {
        assert(all.take(all.len() as int) =~= all);
    }
    while i > 0
        invariant
            i <= movements@.len(),
            all == views(movements@),
            last_end(all, train@) == last_end(all.take(i as int), train@),
        decreases i,
    {
        proof {
            assert(all.take(i as int).last() == movements@[i - 1]@);
            assert(all.take(i as int).drop_last() =~= all.take(i - 1));
        }
        if same_name(movements[i - 1].train.as_str(), train) {
            return movements[i - 1].end_time;
        }
        i -= 1;
    }
    0
}

impl Navigation {
    /// Of the packages that the train has claimed, the names of those whose
    /// destination is `to`; `LookupMiss` where the table lacks one that it names.
    pub fn get_packages_to_deliver(train: Train, packages: Vec<Package>, to: String) -> (r: Result<
        Vec<String>,
        PlanError,
    >)
        ensures
            match due(train@.claimed(), views(packages@), to@) {
                Some(names) => r is Ok && views(r.unwrap()@) == names,
                None => r == Err::<Vec<String>, PlanError>(PlanError::LookupMiss),
            },
    {
        let names = claimed_names(&train);
        let ghost all = views(names@);
        let ghost table = views(packages@);
        let mut packages_to_deliver: Vec<String> = Vec::new();
        let mut i: usize = 0;
        proof {
            assert(keys(packages@) =~= package_names(table));
            assert(all.take(0) =~= Seq::empty());
            assert(views(packages_to_deliver@) =~= Seq::empty());
        }
        while i < names.len()
            invariant
                i <= names@.len(),
                all == views(names@),
                all == train@.claimed(),
                table == views(packages@),
                keys(packages@) == package_names(table),
                due(all.take(i as int), table, to@) == Some(views(packages_to_deliver@)),
            decreases names@.len() - i,
        {
            let ghost before = views(packages_to_deliver@);
            proof {
                assert(all.take(i + 1).drop_last() =~= all.take(i as int));
                assert(all.take(i + 1).last() == names@[i as int]@);
            }
            match find(&packages, names[i].as_str()) {
                Some(at) => {
                    if same_name(packages[at].to.as_str(), to.as_str()) {
                        packages_to_deliver.push(names[i].clone());
                        proof {
                            assert(views(packages_to_deliver@) =~= before.push(all[i as int]));
                        }
                    }
                },
                None => {
                    proof {
                        assert(due(all.take(i + 1), table, to@) is None);
                        lemma_due_lacks(all, table, to@, i + 1);
                        assert(all.take(all.len() as int) =~= all);
                    }
                    return Err(PlanError::LookupMiss);
                },
            }
            i += 1;
        }
        proof {
            assert(all.take(all.len() as int) =~= all);
        }
        Ok(packages_to_deliver)
    }

    /// The trip of `train` along the way `destination`, added to a copy of
    /// the timeline, with the names of the packages taken on and handed over.
    pub fn move_train(
        train: Train,
        destination: Destination,
        packages: Vec<Package>,
        movements: Vec<Movement>,
    ) -> (r: Result<(Vec<Movement>, Vec<String>, Vec<String>), PlanError>)
        ensures
            match moved(train@, destination@, views(packages@), views(movements@)) {
                Ok(trip) => r is Ok && views(r.unwrap().0@) == trip.movements && views(
                    r.unwrap().1@,
                ) == trip.picked_up && views(r.unwrap().2@) == trip.delivered,
                Err(e) => r == Err::<(Vec<Movement>, Vec<String>, Vec<String>), PlanError>(e),
            },
    {
        let ghost d = destination@;
        let ghost table = views(packages@);
        let ghost base = views(movements@);
        let mut new_movements = copy_movements(&movements);
        let mut packages_picked_up: Vec<String> = Vec::new();
        let mut packages_delivered: Vec<String> = Vec::new();
        proof {
            assert(views(packages_picked_up@) =~= Seq::empty());
            assert(views(packages_delivered@) =~= Seq::empty());
        }
        if destination.cumulative_distance == 0 {
            return Ok((new_movements, packages_picked_up, packages_delivered));
        }
        let start_time = last_end_of(&movements, train.name.as_str());
        let ghost legs = trip(train@, d, table, start_time as int);
        let checkpoints = &destination.checkpoints;
        let n = checkpoints.len();
        let mut time: i32 = start_time;
        let mut m: usize = 0;
        proof {
            assert(base + legs.take(0) =~= base);
        }
        while m < n
            invariant
                m <= n,
                n == destination.checkpoints@.len(),
                checkpoints == &destination.checkpoints,
                d == destination@,
                table == views(packages@),
                base == views(movements@),
                d.cumulative_distance != 0,
                start_time == last_end(base, train@.name),
                legs == trip(train@, d, table, start_time as int),
                time == time_at(d, start_time as int, m as int),
                forall|k: int|
                    0 <= k <= m ==> i32::MIN <= #[trigger] time_at(d, start_time as int, k)
                        <= i32::MAX,
                m > 0 ==> due(train@.claimed(), table, stop(d, 0)) is Some,
                views(new_movements@) == base + legs.take(m as int),
                views(packages_delivered@) == handed_over(train@, d, table, m as int),
                m == 0 ==> views(packages_picked_up@) == Seq::<Seq<char>>::empty(),
                m > 0 ==> views(packages_picked_up@) == train@.packages_to_pick_up,
            decreases n - m,
        {
            let to = checkpoints[m].to.clone();
            proof {
                assert(d.checkpoints[m as int] == checkpoints@[m as int]@);
                assert(to@ == stop(d, m as int));
                lemma_due_known(train@.claimed(), table, stop(d, 0), to@);
            }
            let packages_to_deliver = match Navigation::get_packages_to_deliver(
                train.clone(),
                copy_packages(&packages),
                to.clone(),
            ) {
                Ok(names) => names,
                Err(e) => {
                    return Err(e);
                },
            };
            let end: i64 = time as i64 + checkpoints[m].distance as i64;
            if end < i32::MIN as i64 || end > i32::MAX as i64 {
                proof {
                    assert(time_at(d, start_time as int, m + 1) == end);
                }
                return Err(PlanError::Overflow);
            }
            let picked = if m == 0 {
                extend_names(&mut packages_picked_up, &train.packages_to_pick_up);
                train.packages_to_pick_up.clone()
            } else {
                Vec::new()
            };
            let from = if m == 0 {
                destination.from.clone()
            } else {
                checkpoints[m - 1].to.clone()
            };
            let ghost so_far = views(new_movements@);
            let ghost given = views(packages_delivered@);
            extend_names(&mut packages_delivered, &packages_to_deliver);
            let movement = Movement {
                start_time: time,
                end_time: end as i32,
                from,
                to,
                train: train.name.clone(),
                packages_picked_up: picked,
                packages_delivered: packages_to_deliver,
            };
            proof {
                if m > 0 {
                    assert(d.checkpoints[m - 1] == checkpoints@[m - 1]@);
                }
                assert(movement@.packages_picked_up =~= legs[m as int].packages_picked_up);
                assert(movement@ == legs[m as int]);
            }
            new_movements.push(movement);
            proof {
                assert(views(new_movements@) =~= so_far.push(legs[m as int]));
                lemma_take_push(base, legs, m as int);
                assert(views(packages_picked_up@) =~= train@.packages_to_pick_up);
            }
            time = end as i32;
            m += 1;
        }
        proof {
            assert(destination.to@ == stop(d, n as int));
            lemma_due_known(train@.claimed(), table, stop(d, 0), destination.to@);
        }
        let packages_to_deliver = match Navigation::get_packages_to_deliver(
            train.clone(),
            copy_packages(&packages),
            destination.to.clone(),
        ) {
            Ok(names) => names,
            Err(e) => {
                return Err(e);
            },
        };
        let end: i64 = time as i64 + destination.distance as i64;
        if end < i32::MIN as i64 || end > i32::MAX as i64 {
            proof {
                assert(time_at(d, start_time as int, n + 1) == end);
            }
            return Err(PlanError::Overflow);
        }
        let picked = if n == 0 {
            extend_names(&mut packages_picked_up, &train.packages_to_pick_up);
            train.packages_to_pick_up.clone()
        } else {
            Vec::new()
        };
        let from = if n == 0 {
            destination.from.clone()
        } else {
            checkpoints[n - 1].to.clone()
        };
        let ghost so_far = views(new_movements@);
        extend_names(&mut packages_delivered, &packages_to_deliver);
        let movement = Movement {
            start_time: time,
            end_time: end as i32,
            from,
            to: destination.to.clone(),
            train: train.name.clone(),
            packages_picked_up: picked,
            packages_delivered: packages_to_deliver,
        };
        proof {
            if n > 0 {
                assert(d.checkpoints[n - 1] == checkpoints@[n - 1]@);
            }
            assert(movement@.packages_picked_up =~= legs[n as int].packages_picked_up);
            assert(movement@ == legs[n as int]);
        }
        new_movements.push(movement);
        proof {
            assert(views(new_movements@) =~= so_far.push(legs[n as int]));
            lemma_take_push(base, legs, n as int);
            assert(legs.take(n + 1) =~= legs);
            assert(views(packages_picked_up@) =~= train@.packages_to_pick_up);
            assert forall|k: int| 0 <= k <= leg_count(d) implies i32::MIN <= #[trigger] time_at(
                d,
                start_time as int,
                k,
            ) <= i32::MAX by {}
        }
        Ok((new_movements, packages_picked_up, packages_delivered))
    }

    /// The latest end of a movement; 0 where there is none.
    pub fn get_longest_distance_in_movements(movements: Vec<Movement>) -> (r: i32)
        ensures
            r == makespan(views(movements@)),
    {
        let ghost all = views(movements@);
        let mut longest_distance: i32 = 0;
        let mut i: usize = 0;
        proof {
            assert(all.take(0) =~= Seq::empty());
        }
        while i < movements.len()
            invariant
                i <= movements@.len(),
                all == views(movements@),
                longest_distance == makespan(all.take(i as int)),
            decreases movements@.len() - i,
        {
            proof {
                assert(all.take(i + 1).drop_last() =~= all.take(i as int));
                assert(all.take(i + 1).last() == movements@[i as int]@);
            }
            if movements[i].end_time > longest_distance {
                longest_distance = movements[i].end_time;
            }
            i += 1;
        }
        proof {
            assert(all.take(all.len() as int) =~= all);
        }
        longest_distance
    }

    /// The number of trains that move.
    pub fn get_number_of_trains(movements: Vec<Movement>) -> (r: i32)
        requires
            movements@.len() <= i32::MAX,
        ensures
            r == trains_used(views(movements@)),
    {
        let ghost all = trains_of(views(movements@));
        let mut trains: Vec<String> = Vec::new();
        let mut i: usize = 0;
        proof {
            assert(views(trains@) =~= Seq::empty());
            assert(views(trains@).to_set() =~= all.take(0).to_set());
        }
        while i < movements.len()
            invariant
                i <= movements@.len(),
                all == trains_of(views(movements@)),
                trains@.len() <= i,
                views(trains@).no_duplicates(),
                views(trains@).to_set() == all.take(i as int).to_set(),
            decreases movements@.len() - i,
        {
            let ghost before = views(trains@);
            let ghost name = movements@[i as int].train@;
            proof {
                assert(all[i as int] == name);
                assert(all.take(i + 1) =~= all.take(i as int).push(name));
                lemma_push_to_set(all.take(i as int), name);
            }
            if !holds_name(&trains, movements[i].train.as_str()) {
                trains.push(movements[i].train.clone());
                proof {
                    assert(views(trains@) =~= before.push(name));
                    lemma_push_to_set(before, name);
                }
            } else {
                proof {
                    assert(before.to_set().contains(name));
                    assert(before.to_set().insert(name) =~= before.to_set());
                }
            }
            i += 1;
        }
        proof {
            assert(all.take(all.len() as int) =~= all);
            views(trains@).unique_seq_to_set();
        }
        trains.len() as i32
    }

    /// The trains that have room left for the package, in table order, or
    /// `LookupMiss` where a train names a package that the table lacks.
    pub fn get_capable_trains(pack: Package, packages: Vec<Package>, trains: Vec<Train>) -> (r:
        Result<Vec<Train>, PlanError>)
        ensures
            match capable_trains(pack@, views(packages@), views(trains@)) {
                Ok(capable) => r is Ok && views(r.unwrap()@) == capable,
                Err(e) => r == Err::<Vec<Train>, PlanError>(e),
            },
    {
        let ghost all = views(trains@);
        let ghost table = views(packages@);
        let mut capable_trains: Vec<Train> = Vec::new();
        let mut i: usize = 0;
        proof {
            assert(all.take(0) =~= Seq::empty());
            assert(views(capable_trains@) =~= Seq::empty());
        }
        while i < trains.len()
            invariant
                i <= trains@.len(),
                all == views(trains@),
                table == views(packages@),
                forall|k: int| 0 <= k < i ==> load(#[trigger] all[k], table) is Some,
                views(capable_trains@) == capable_among(all.take(i as int), pack@, table),
            decreases trains@.len() - i,
        {
            let ghost before = views(capable_trains@);
            proof {
                assert(all.take(i + 1).drop_last() =~= all.take(i as int));
                assert(all.take(i + 1).last() == trains@[i as int]@);
            }
            match load_of(&trains[i], &packages) {
                Some(claimed) => {
                    let train_capacity_left: i128 = trains[i].capacity as i128 - claimed;
                    if train_capacity_left >= pack.weight as i128 {
                        capable_trains.push(trains[i].clone());
                        proof {
                            assert(views(capable_trains@) =~= before.push(trains@[i as int]@));
                        }
                    }
                },
                None => {
                    proof {
                        assert(load(all[i as int], table) is None);
                    }
                    return Err(PlanError::LookupMiss);
                },
            }
            i += 1;
        }
        proof {
            assert(all.take(all.len() as int) =~= all);
        }
        Ok(capable_trains)
    }

    /// The actions open in the state, in the order in which the planner tries them.
    pub fn candidates(trains: &Vec<Train>, packages: &Vec<Package>) -> (r: Result<
        Vec<Candidate>,
        PlanError,
    >)
        ensures
            match candidates(views(trains@), views(packages@)) {
                Ok(queue) => r is Ok && views(r.unwrap()@) == queue,
                Err(e) => r == Err::<Vec<Candidate>, PlanError>(e),
            },
    {
        let ghost all = views(trains@);
        let ghost table = views(packages@);
        let mut queue: Vec<Candidate> = Vec::new();
        let mut i: usize = 0;
        proof {
            assert(views(queue@) =~= Seq::empty());
        }
        while i < packages.len()
            invariant
                i <= packages@.len(),
                all == views(trains@),
                table == views(packages@),
                (exists|k: int| 0 <= k < i && (#[trigger] table[k]).is_free()) ==> loads_known(
                    all,
                    table,
                ),
                views(queue@) == pickups(all, table, i as int),
            decreases packages@.len() - i,
        {
            let ghost before = views(queue@);
            let package = &packages[i];
            if package.to_be_picked_up_by.as_str().is_empty()
                && package.picked_up_by.as_str().is_empty()
                && package.delivered_by.as_str().is_empty() {
                assert(table[i as int].is_free());
                let capable = match Navigation::get_capable_trains(
                    package.clone(),
                    copy_packages(packages),
                    copy_trains(trains),
                ) {
                    Ok(capable) => capable,
                    Err(e) => {
                        return Err(e);
                    },
                };
                let ghost wanted = offers(all, table[i as int], table);
                let mut j: usize = 0;
                proof {
                    assert(before + wanted.take(0) =~= before);
                }
                while j < capable.len()
                    invariant
                        j <= capable@.len(),
                        i < packages@.len(),
                        package == packages@[i as int],
                        table == views(packages@),
                        views(capable@) == capable_among(all, table[i as int], table),
                        wanted == offers(all, table[i as int], table),
                        wanted.len() == capable@.len(),
                        views(queue@) == before + wanted.take(j as int),
                    decreases capable@.len() - j,
                {
                    let ghost so_far = views(queue@);
                    queue.push(
                        Candidate {
                            train: capable[j].name.clone(),
                            package: package.name.clone(),
                            is_pickup: true,
                        },
                    );
                    proof {
                        assert(views(capable@)[j as int] == capable@[j as int]@);
                        assert(views(queue@) =~= so_far.push(wanted[j as int]));
                        lemma_take_push(before, wanted, j as int);
                    }
                    j += 1;
                }
                proof {
                    assert(wanted.take(wanted.len() as int) =~= wanted);
                }
            } else {
                proof {
                    assert(!table[i as int].is_free());
                    assert(before + Seq::<CandidateView>::empty() =~= before);
                }
            }
            i += 1;
        }
        let ghost offered = views(queue@);
        let mut t: usize = 0;
        proof {
            assert(offered + Seq::<CandidateView>::empty() =~= offered);
        }
        while t < trains.len()
            invariant
                t <= trains@.len(),
                all == views(trains@),
                views(queue@) == offered + commitments(all, t as int),
            decreases trains@.len() - t,
        {
            let ghost before = views(queue@);
            let train = &trains[t];
            let ghost owed = commitments_of(all[t as int]);
            let ghost first = train@.packages_to_pick_up;
            let mut j: usize = 0;
            proof {
                assert(before + owed.take(0) =~= before);
            }
            while j < train.packages_to_pick_up.len()
                invariant
                    j <= train.packages_to_pick_up@.len(),
                    t < trains@.len(),
                    train == trains@[t as int],
                    all == views(trains@),
                    owed == commitments_of(all[t as int]),
                    views(queue@) == before + owed.take(j as int),
                decreases train.packages_to_pick_up@.len() - j,
            {
                let ghost so_far = views(queue@);
                queue.push(
                    Candidate {
                        train: train.name.clone(),
                        package: train.packages_to_pick_up[j].clone(),
                        is_pickup: false,
                    },
                );
                proof {
                    assert(train@.claimed()[j as int] == train.packages_to_pick_up@[j as int]@);
                    assert(views(queue@) =~= so_far.push(owed[j as int]));
                    lemma_take_push(before, owed, j as int);
                }
                j += 1;
            }
            let mut j: usize = 0;
            while j < train.packages_picked_up.len()
                invariant
                    j <= train.packages_picked_up@.len(),
                    t < trains@.len(),
                    train == trains@[t as int],
                    all == views(trains@),
                    first == train@.packages_to_pick_up,
                    owed == commitments_of(all[t as int]),
                    views(queue@) == before + owed.take(first.len() + j),
                decreases train.packages_picked_up@.len() - j,
            {
                let ghost so_far = views(queue@);
                queue.push(
                    Candidate {
                        train: train.name.clone(),
                        package: train.packages_picked_up[j].clone(),
                        is_pickup: false,
                    },
                );
                proof {
                    assert(train@.claimed()[first.len() + j] == train.packages_picked_up@[j as int]@);
                    assert(views(queue@) =~= so_far.push(owed[first.len() + j]));
                    lemma_take_push(before, owed, first.len() + j);
                }
                j += 1;
            }
            proof {
                assert(owed.take(owed.len() as int) =~= owed);
                assert(offered + commitments(all, t as int) + owed =~= offered + (commitments(
                    all,
                    t as int,
                ) + owed));
            }
            t += 1;
        }
        proof {
            if has_free(table) {
                let k = choose|k: int| 0 <= k < table.len() && (#[trigger] table[k]).is_free();
                assert(loads_known(all, table));
            }
        }
        Ok(sort(queue))
    }

    /// The remembered plans.
    pub open spec fn plans(&self) -> Seq<CachedPlanView> {
        views(self.cache@)
    }

    /// A planner for the network, the trains and the packages of `input`, with nothing remembered.
    pub fn new(input: Input) -> (nav: Navigation)
        ensures
            (forall|i: int| 0 <= i < input.edges@.len() ==> (#[trigger] input.edges@[i]).3 >= 0) && 2
                * input.edges@.len() < MAX_ENTRIES ==> nav.graph.wf(),
            route_count(nav.graph.adjacency()) == 2 * input.edges@.len(),
            nav.graph.paths_known(),
            nav.graph.adjacency() == network(input.edges@),
            nav.graph.known() == Seq::<PathTableView>::empty(),
            views(nav.trains@) == fleet(input.trains@),
            views(nav.packages@) == cargo(input.packages@),
            nav.plans() == Seq::<CachedPlanView>::empty(),
    {
        let mut graph = Graph::new();
        let mut trains: Vec<Train> = Vec::new();
        let mut packages: Vec<Package> = Vec::new();
        let mut i: usize = 0;
        proof {
            assert(input.edges@.take(0) =~= Seq::empty());
            assert(route_count(graph.adjacency()) == 0) by {
                assert(graph.adjacency().len() == 0);
            }
        }
        while i < input.edges.len()
            invariant
                i <= input.edges@.len(),
                (forall|k: int| 0 <= k < input.edges@.len() ==> (#[trigger] input.edges@[k]).3 >= 0)
                    ==> legs_non_negative(graph.adjacency()),
                graph.cache@.len() == 0,
                route_count(graph.adjacency()) == 2 * i,
                graph.adjacency() == network(input.edges@.take(i as int)),
            decreases input.edges@.len() - i,
        {
            proof {
                assert(input.edges@.take(i + 1).drop_last() =~= input.edges@.take(i as int));
                assert(input.edges@.take(i + 1).last() == input.edges@[i as int]);
            }
            graph.add_edge(input.edges[i].1.clone(), input.edges[i].2.clone(), input.edges[i].3);
            i += 1;
        }
        let mut i: usize = 0;
        proof {
            assert(input.edges@.take(input.edges@.len() as int) =~= input.edges@);
            assert(input.trains@.take(0) =~= Seq::empty());
            assert(views(trains@) =~= Seq::empty());
        }
        while i < input.trains.len()
            invariant
                i <= input.trains@.len(),
                views(trains@) == fleet(input.trains@.take(i as int)),
            decreases input.trains@.len() - i,
        {
            let ghost before = trains@;
            proof {
                assert(input.trains@.take(i + 1).drop_last() =~= input.trains@.take(i as int));
                assert(input.trains@.take(i + 1).last() == input.trains@[i as int]);
                assert(keys(before) =~= train_names(views(before)));
            }
            let train = Train::new(
                input.trains[i].0.clone(),
                input.trains[i].1,
                input.trains[i].2.clone(),
            );
            let ghost filed = train;
            put(&mut trains, train);
            proof {
                lemma_position(train_names(views(before)), filed@.name);
                assert(filed.key() == filed@.name);
                assert(trains@ == upsert(before, filed));
                assert(views(trains@) =~= with_train(views(before), filed@));
            }
            i += 1;
        }
        let mut i: usize = 0;
        proof {
            assert(input.trains@.take(input.trains@.len() as int) =~= input.trains@);
            assert(input.packages@.take(0) =~= Seq::empty());
            assert(views(packages@) =~= Seq::empty());
        }
        while i < input.packages.len()
            invariant
                i <= input.packages@.len(),
                views(packages@) == cargo(input.packages@.take(i as int)),
            decreases input.packages@.len() - i,
        {
            let ghost before = packages@;
            proof {
                assert(input.packages@.take(i + 1).drop_last() =~= input.packages@.take(i as int));
                assert(input.packages@.take(i + 1).last() == input.packages@[i as int]);
                assert(keys(before) =~= package_names(views(before)));
            }
            let package = Package::new(
                input.packages[i].0.clone(),
                input.packages[i].1,
                input.packages[i].2.clone(),
                input.packages[i].3.clone(),
            );
            let ghost filed = package;
            put(&mut packages, package);
            proof {
                lemma_position(package_names(views(before)), filed@.name);
                assert(filed.key() == filed@.name);
                assert(packages@ == upsert(before, filed));
                assert(views(packages@) =~= with_package(views(before), filed@));
            }
            i += 1;
        }
        proof {
            assert(input.packages@.take(input.packages@.len() as int) =~= input.packages@);
        }
        let nav = Navigation { graph, trains, packages, cache: Vec::new() };
        proof {
            assert(nav.plans() =~= Seq::empty());
            assert(nav.graph.known() =~= Seq::empty());
        }
        nav
    }

    /// The search from the state that `trains`, `packages` and `movements`
    /// make up, at most `budget` steps deep. The oracle may learn path
    /// tables on the way, and the plan that is found is remembered.
    pub fn search(
        &mut self,
        trains: Vec<Train>,
        packages: Vec<Package>,
        movements: Vec<Movement>,
        budget: usize,
    ) -> (r: Result<Vec<Movement>, PlanError>)
        requires
            old(self).graph.wf(),
        ensures
            final(self).graph.wf(),
            final(self).graph.adj_list == old(self).graph.adj_list,
            final(self).trains == old(self).trains,
            final(self).packages == old(self).packages,
            extends(old(self).graph.known(), final(self).graph.known()),
            old(self).graph.paths_known() ==> final(self).graph.paths_known(),
            search(
                final(self).graph.known(),
                old(self).plans(),
                views(trains@),
                views(packages@),
                views(movements@),
                budget as nat,
            ) == Some(OutcomeView { result: plan_view(r), cache: final(self).plans() }),
        decreases budget,
    {
        let ghost t = views(trains@);
        let ghost p = views(packages@);
        let ghost m = views(movements@);
        let ghost c0 = self.plans();
        let ghost known0 = self.graph.known();
        proof {
            assert(extends(known0, known0));
            assert(keys(self.cache@) =~= plan_keys(c0));
            lemma_position(plan_keys(c0), fingerprint(t, p));
        }
        let cache_key = Navigation::get_cache_key(copy_trains(&trains), copy_packages(&packages));
        match find(&self.cache, cache_key.as_str()) {
            Some(at) => {
                proof {
                    lemma_search_recalls(known0, c0, t, p, m, budget as nat);
                }
                return Ok(copy_movements(&self.cache[at].movements));
            },
            None => {},
        }
        let queue = match Navigation::candidates(&trains, &packages) {
            Ok(queue) => queue,
            Err(e) => {
                proof {
                    lemma_search_stops(known0, c0, t, p, m, budget as nat);
                }
                return Err(e);
            },
        };
        if queue.len() == 0 {
            proof {
                lemma_search_stops(known0, c0, t, p, m, budget as nat);
            }
            if every_package_delivered(&packages) {
                return Ok(movements);
            } else {
                return Err(PlanError::NoSolution);
            }
        }
        if budget == 0 {
            proof {
                lemma_search_stops(known0, c0, t, p, m, budget as nat);
            }
            return Err(PlanError::BudgetExhausted);
        }
        let ghost q = views(queue@);
        let ghost b = (budget - 1) as nat;
        let ghost best0 = BestView { distance: i32::MAX as int, trains: i32::MAX as int, plan: m };
        let mut min_distance: i32 = i32::MAX;
        let mut min_trains: i32 = i32::MAX;
        let mut best_movements = copy_movements(&movements);
        let mut i: usize = 0;
        while i < queue.len()
            invariant
                i <= queue@.len(),
                budget > 0,
                b == (budget - 1) as nat,
                t == views(trains@),
                p == views(packages@),
                m == views(movements@),
                q == views(queue@),
                c0 == old(self).plans(),
                known0 == old(self).graph.known(),
                best0 == (BestView { distance: i32::MAX as int, trains: i32::MAX as int, plan: m }),
                recalled(c0, fingerprint(t, p)) is None,
                candidates(t, p) == Ok::<Seq<CandidateView>, PlanError>(q),
                q.len() > 0,
                self.graph.wf(),
                self.graph.adj_list == old(self).graph.adj_list,
                self.trains == old(self).trains,
                self.packages == old(self).packages,
                extends(known0, self.graph.known()),
                old(self).graph.paths_known() ==> self.graph.paths_known(),
                carried(
                    self.graph.known(),
                    c0,
                    self.plans(),
                    t,
                    p,
                    m,
                    q,
                    i as int,
                    best0,
                    BestView {
                        distance: min_distance as int,
                        trains: min_trains as int,
                        plan: views(best_movements@),
                    },
                    b,
                ),
            decreases queue@.len() - i,
        {
            let ghost known_a = self.graph.known();
            let ghost plans_a = self.plans();
            let ghost best_a = BestView {
                distance: min_distance as int,
                trains: min_trains as int,
                plan: views(best_movements@),
            };
            let step = advance_state(&mut self.graph, &trains, &packages, &movements, &queue[i]);
            let ghost known_b = self.graph.known();
            proof {
                lemma_extends_transitive(known0, known_a, known_b);
                assert(q[i as int] == queue@[i as int]@);
            }
            let (new_trains, new_packages, new_movements) = match step {
                Ok(next) => next,
                Err(e) => {
                    proof {
                        lemma_carried_step_fails(
                            known_a,
                            known_b,
                            c0,
                            plans_a,
                            t,
                            p,
                            m,
                            q,
                            i as int,
                            best0,
                            best_a,
                            b,
                            e,
                        );
                        lemma_search_explores(known_b, c0, t, p, m, budget as nat);
                    }
                    return Err(e);
                },
            };
            let ghost next = StateView {
                trains: views(new_trains@),
                packages: views(new_packages@),
                movements: views(new_movements@),
            };
            let found = self.search(new_trains, new_packages, new_movements, budget - 1);
            let ghost known_c = self.graph.known();
            let ghost o = OutcomeView { result: plan_view(found), cache: self.plans() };
            proof {
                lemma_extends_transitive(known_a, known_b, known_c);
                lemma_extends_transitive(known0, known_a, known_c);
                lemma_advance_extends(known_b, known_c, t, p, m, q[i as int]);
            }
            let all_movements = match found {
                Ok(plan) => plan,
                Err(e) => {
                    proof {
                        lemma_carried_search_fails(
                            known_a,
                            known_c,
                            c0,
                            plans_a,
                            t,
                            p,
                            m,
                            q,
                            i as int,
                            best0,
                            best_a,
                            b,
                            next,
                            o,
                        );
                        lemma_search_explores(known_c, c0, t, p, m, budget as nat);
                    }
                    return Err(e);
                },
            };
            if all_movements.len() > i32::MAX as usize {
                proof {
                    lemma_carried_search_fails(
                        known_a,
                        known_c,
                        c0,
                        plans_a,
                        t,
                        p,
                        m,
                        q,
                        i as int,
                        best0,
                        best_a,
                        b,
                        next,
                        o,
                    );
                    lemma_search_explores(known_c, c0, t, p, m, budget as nat);
                }
                return Err(PlanError::Overflow);
            }
            let longest_train_distance = Navigation::get_longest_distance_in_movements(
                copy_movements(&all_movements),
            );
            let number_of_trains = Navigation::get_number_of_trains(
                copy_movements(&all_movements),
            );
            let ghost plan = views(all_movements@);
            if longest_train_distance < min_distance || (longest_train_distance == min_distance
                && number_of_trains < min_trains) {
                min_distance = longest_train_distance;
                min_trains = number_of_trains;
                best_movements = all_movements;
            }
            proof {
                let best_c = BestView {
                    distance: min_distance as int,
                    trains: min_trains as int,
                    plan: views(best_movements@),
                };
                assert(best_c == better(best_a, plan));
                lemma_carried_goes_on(
                    known_a,
                    known_c,
                    c0,
                    plans_a,
                    t,
                    p,
                    m,
                    q,
                    i as int,
                    best0,
                    best_a,
                    b,
                    next,
                    o,
                );
            }
            i += 1;
        }
        let ghost known_z = self.graph.known();
        let ghost plans_z = self.plans();
        let ghost best_z = BestView {
            distance: min_distance as int,
            trains: min_trains as int,
            plan: views(best_movements@),
        };
        proof {
            assert(extends(known_z, known_z));
            lemma_explore_ends(known_z, plans_z, t, p, m, q, i as int, best_z, b);
            lemma_search_explores(known_z, c0, t, p, m, budget as nat);
        }
        let best_movements = sort(best_movements);
        let ghost plans_before = self.cache@;
        let remembered = CachedPlan { key: cache_key, movements: copy_movements(&best_movements) };
        let ghost filed = remembered;
        proof {
            assert(keys(plans_before) =~= plan_keys(views(plans_before)));
            lemma_position(plan_keys(views(plans_before)), filed@.key);
            assert(filed.key() == filed@.key);
        }
        put(&mut self.cache, remembered);
        proof {
            assert(self.cache@ == upsert(plans_before, filed));
            assert(self.plans() =~= with_plan(views(plans_before), filed@));
        }
        Ok(best_movements)
    }

    /// The best plan that the search finds from the state that `trains`,
    /// `packages` and `movements` make up, with three steps for each package as its budget.
    pub fn calculate(
        &mut self,
        trains: Vec<Train>,
        packages: Vec<Package>,
        movements: Vec<Movement>,
    ) -> (r: Result<Vec<Movement>, PlanError>)
        requires
            old(self).graph.wf(),
        ensures
            final(self).graph.wf(),
            final(self).graph.adj_list == old(self).graph.adj_list,
            final(self).trains == old(self).trains,
            final(self).packages == old(self).packages,
            extends(old(self).graph.known(), final(self).graph.known()),
            old(self).graph.paths_known() ==> final(self).graph.paths_known(),
            search(
                final(self).graph.known(),
                old(self).plans(),
                views(trains@),
                views(packages@),
                views(movements@),
                budget_for(packages@.len()),
            ) == Some(OutcomeView { result: plan_view(r), cache: final(self).plans() }),
            old(self).graph.paths_known() && state_ok(
                old(self).graph.adjacency(),
                views(trains@),
                views(packages@),
                views(movements@),
            ) && memory_ok(
                old(self).graph.adjacency(),
                old(self).plans(),
                views(trains@),
                views(packages@),
            ) ==> memory_ok(
                old(self).graph.adjacency(),
                final(self).plans(),
                views(trains@),
                views(packages@),
            ) && (r is Ok ==> plan_ok(
                old(self).graph.adjacency(),
                views(r.unwrap()@),
                views(trains@),
                views(packages@),
            )),
    {
        let budget: usize = if packages.len() > usize::MAX / 3 {
            usize::MAX
        } else {
            3 * packages.len()
        };
        let ghost t = views(trains@);
        let ghost p = views(packages@);
        let ghost m = views(movements@);
        let r = self.search(trains, packages, movements, budget);
        proof {
            let adj = self.graph.adjacency();
            assert(adj == old(self).graph.adjacency());
            if old(self).graph.paths_known() && state_ok(adj, t, p, m) && memory_ok(
                adj,
                old(self).plans(),
                t,
                p,
            ) {
                lemma_known_ways(adj, self.graph.known());
                lemma_known_sound(adj, self.graph.known());
                lemma_search_ok(
                    adj,
                    self.graph.known(),
                    old(self).plans(),
                    t,
                    p,
                    m,
                    budget as nat,
                );
            }
        }
        r
    }

    /// The key of the state that `trains` and `packages` make up.
    pub fn get_cache_key(trains: Vec<Train>, packages: Vec<Package>) -> (key: String)
        ensures
            key@ == fingerprint(views(trains@), views(packages@)),
    {
        let mut train_locations: Vec<NamePair> = Vec::new();
        let mut i: usize = 0;
        while i < trains.len()
            invariant
                i <= trains@.len(),
                train_locations@.len() == i,
                forall|k: int|
                    0 <= k < i ==> (#[trigger] train_locations@[k])@ == train_places(
                        views(trains@),
                    )[k],
            decreases trains@.len() - i,
        {
            train_locations.push(
                NamePair {
                    name: trains[i].name.clone(),
                    holder: trains[i].current_location.clone(),
                },
            );
            i += 1;
        }
        proof {
            assert(views(train_locations@) =~= train_places(views(trains@)));
        }
        let train_locations = sort(train_locations);
        let packages_to_be_picked_up = sort(collect_holders(&packages, Stage::Reserved));
        let packages_picked_up = sort(collect_holders(&packages, Stage::PickedUp));
        let packages_delivered = sort(collect_holders(&packages, Stage::Delivered));

        let mut key = write_fragment("train_locations", &train_locations);
        key.append(";");
        key.append(write_fragment("packages_to_be_picked_up", &packages_to_be_picked_up).as_str());
        key.append(";");
        key.append(write_fragment("packages_picked_up", &packages_picked_up).as_str());
        key.append(";");
        key.append(write_fragment("packages_delivered", &packages_delivered).as_str());
        key
    }
}

} // verus!
