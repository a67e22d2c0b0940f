//! Where the packages of a plan are handed over.

use vstd::prelude::*;
use crate::candidates::{candidates, CandidateView};
use crate::capacity::{lemma_step_keeps_capacity, same_cargo};
use crate::graph::PathTableView;
use crate::loads::loads_ok;
use crate::movement::{Movement, MovementView};
use crate::package::{package_names, PackageView};
use crate::search::{advance, way};
use crate::sorting::{lemma_sorted_has, sorted};
use crate::table::{lemma_position, position};
use crate::timeline::{due, last_end, moved, stop, trip};
use crate::train::{train_names, TrainView};

verus! {

/// The table holds the package called `name`, and it is bound for `to`.
pub open spec fn bound_for(packages: Seq<PackageView>, name: Seq<char>, to: Seq<char>) -> bool {
    match position(package_names(packages), name) {
        Some(i) => packages[i].to == to,
        None => false,
    }
}

/// The movement hands over only packages of the table, where they are bound for.
pub open spec fn hands_home_at(packages: Seq<PackageView>, m: MovementView) -> bool {
    forall|k: int|
        0 <= k < m.packages_delivered.len() ==> bound_for(
            packages,
            #[trigger] m.packages_delivered[k],
            m.to,
        )
}

/// Every movement hands over only packages of the table, where they are bound for.
pub open spec fn hands_home(plan: Seq<MovementView>, packages: Seq<PackageView>) -> bool {
    forall|j: int| 0 <= j < plan.len() ==> hands_home_at(packages, #[trigger] plan[j])
}

/// Of the named packages, those that are due at a station are named, and bound for it.
pub proof fn lemma_due_bound(
    names: Seq<Seq<char>>,
    packages: Seq<PackageView>,
    to: Seq<char>,
    x: Seq<char>,
)
    requires
        due(names, packages, to) is Some,
        due(names, packages, to).unwrap().contains(x),
    ensures
        names.contains(x),
        bound_for(packages, x, to),
    decreases names.len(),
{
    if names.len() > 0 {
        let rest = names.drop_last();
        let inner = due(rest, packages, to).unwrap();
        let all = due(names, packages, to).unwrap();
        let last = names.last();
        assert(names[names.len() - 1] == last);
        let at = choose|at: int| 0 <= at < all.len() && all[at] == x;
        let i = position(package_names(packages), last).unwrap();
        if packages[i].to == to && at == inner.len() {
        } else {
            assert(inner[at] == x);
            lemma_due_bound(rest, packages, to, x);
            let k = choose|k: int| 0 <= k < rest.len() && rest[k] == x;
            assert(names[k] == x);
        }
    } else {
        let all = due(names, packages, to).unwrap();
        let at = choose|at: int| 0 <= at < all.len() && all[at] == x;
    }
}

/// What hands home with one table of packages does so with another of the same packages.
pub proof fn lemma_hands_home_same(
    plan: Seq<MovementView>,
    packages: Seq<PackageView>,
    after: Seq<PackageView>,
)
    requires
        same_cargo(packages, after),
        hands_home(plan, packages),
    ensures
        hands_home(plan, after),
{
    assert(package_names(after) =~= package_names(packages));
    assert forall|j: int| 0 <= j < plan.len() implies hands_home_at(after, #[trigger] plan[j]) by {
        assert(hands_home_at(packages, plan[j]));
        assert forall|k: int| 0 <= k < plan[j].packages_delivered.len() implies bound_for(
            after,
            #[trigger] plan[j].packages_delivered[k],
            plan[j].to,
        ) by {
            let name = plan[j].packages_delivered[k];
            assert(bound_for(packages, name, plan[j].to));
            lemma_position(package_names(packages), name);
        }
    }
}

/// Sorting keeps where the packages are handed over.
pub proof fn lemma_sorted_hands_home(plan: Seq<MovementView>, packages: Seq<PackageView>)
    requires
        hands_home(plan, packages),
    ensures
        hands_home(sorted::<Movement>(plan), packages),
{
    let s = sorted::<Movement>(plan);
    assert forall|j: int| 0 <= j < s.len() implies hands_home_at(packages, #[trigger] s[j]) by {
        assert(s.contains(s[j]));
        lemma_sorted_has::<Movement>(plan, s[j]);
        let i = choose|i: int| 0 <= i < plan.len() && plan[i] == s[j];
        assert(hands_home_at(packages, plan[i]));
    }
}

/// A step hands packages over only where they are bound for.
pub proof fn lemma_advance_homes(
    known: Seq<PathTableView>,
    trains: Seq<TrainView>,
    packages: Seq<PackageView>,
    movements: Seq<MovementView>,
    c: CandidateView,
)
    requires
        loads_ok(trains, packages, movements),
        hands_home(movements, packages),
        candidates(trains, packages) is Ok,
        candidates(trains, packages).unwrap().contains(c),
        advance(known, trains, packages, movements, c) is Some,
        advance(known, trains, packages, movements, c).unwrap() is Ok,
    ensures
        ({
            let next = advance(known, trains, packages, movements, c).unwrap().unwrap();
            hands_home(next.movements, next.packages)
        }),
{
    let next = advance(known, trains, packages, movements, c).unwrap().unwrap();
    lemma_step_keeps_capacity(known, trains, packages, movements, c);
    lemma_position(train_names(trains), c.train);
    lemma_position(package_names(packages), c.package);
    let ti = position(train_names(trains), c.train).unwrap();
    let pi = position(package_names(packages), c.package).unwrap();
    let train = trains[ti];
    let d = way(known, train.current_location, packages[pi], c.is_pickup).unwrap().unwrap();
    let after = moved(train, d, packages, movements).unwrap();
    assert(next.movements == after.movements);
    if d.cumulative_distance != 0 {
        let legs = trip(train, d, packages, last_end(movements, train.name));
        let whole = movements + legs;
        assert forall|j: int| 0 <= j < whole.len() implies hands_home_at(
            packages,
            #[trigger] whole[j],
        ) by {
            if j < movements.len() {
                assert(whole[j] == movements[j]);
            } else {
                let m = j - movements.len();
                assert(whole[j] == legs[m]);
                crate::timeline::lemma_due_known(
                    train.claimed(),
                    packages,
                    stop(d, 0),
                    stop(d, m),
                );
                assert forall|k: int| 0 <= k < legs[m].packages_delivered.len() implies bound_for(
                    packages,
                    #[trigger] legs[m].packages_delivered[k],
                    legs[m].to,
                ) by {
                    let list = legs[m].packages_delivered;
                    assert(list.contains(list[k]));
                    lemma_due_bound(train.claimed(), packages, stop(d, m), list[k]);
                }
            }
        }
    }
    lemma_hands_home_same(next.movements, packages, next.packages);
}

} // verus!
