//! How a trip of a train extends the timeline, and what a timeline costs.

use vstd::prelude::*;
use crate::destination::DestinationView;
use crate::error::PlanError;
use crate::movement::MovementView;
use crate::package::{package_names, PackageView};
use crate::table::position;
use crate::train::TrainView;

verus! {

/// Of the named packages those whose destination is `to`, in their order;
/// `None` where the table lacks one of the names.
pub open spec fn due(names: Seq<Seq<char>>, packages: Seq<PackageView>, to: Seq<char>) -> Option<
    Seq<Seq<char>>,
>
    decreases names.len(),
{
    if names.len() == 0 {
        Some(Seq::empty())
    } else {
        match (
            due(names.drop_last(), packages, to),
            position(package_names(packages), names.last()),
        ) {
            (Some(rest), Some(i)) => Some(
                if packages[i].to == to {
                    rest.push(names.last())
                } else {
                    rest
                },
            ),
            _ => None,
        }
    }
}

/// Whether the table holds every name does not depend on the station asked for.
pub proof fn lemma_due_known(
    names: Seq<Seq<char>>,
    packages: Seq<PackageView>,
    a: Seq<char>,
    b: Seq<char>,
)
    ensures
        due(names, packages, a) is Some <==> due(names, packages, b) is Some,
    decreases names.len(),
{
    if names.len() > 0 {
        lemma_due_known(names.drop_last(), packages, a, b);
    }
}

/// When the train's last movement in the timeline ends; 0 where it has none.
pub open spec fn last_end(movements: Seq<MovementView>, train: Seq<char>) -> int
    decreases movements.len(),
{
    if movements.len() == 0 {
        0
    } else if movements.last().train == train {
        movements.last().end_time
    } else {
        last_end(movements.drop_last(), train)
    }
}

/// The station at which leg `m` of the way `d` arrives: the checkpoints in turn, then the destination.
pub open spec fn stop(d: DestinationView, m: int) -> Seq<char> {
    if 0 <= m < d.checkpoints.len() {
        d.checkpoints[m].to
    } else {
        d.to
    }
}

/// The length of leg `m` of the way `d`: what is recorded with the
/// checkpoint at which it arrives, and for the last leg the final distance.
pub open spec fn leg_length(d: DestinationView, m: int) -> int {
    if 0 <= m < d.checkpoints.len() {
        d.checkpoints[m].distance
    } else {
        d.distance
    }
}

/// The number of legs of the way `d`.
pub open spec fn leg_count(d: DestinationView) -> nat {
    d.checkpoints.len() + 1
}

/// The time at which leg `m` starts when the trip starts at `start`.
pub open spec fn time_at(d: DestinationView, start: int, m: int) -> int
    decreases m,
{
    if m <= 0 {
        start
    } else {
        time_at(d, start, m - 1) + leg_length(d, m - 1)
    }
}

/// Every leg of a trip ends when it started plus its length; the first
/// starts when the trip starts, and each of the others when and where the one before it ended.
pub proof fn lemma_leg_times(
    train: TrainView,
    d: DestinationView,
    packages: Seq<PackageView>,
    start: int,
    m: int,
)
    requires
        0 <= m,
    ensures
        leg(train, d, packages, start, m).end_time == leg(train, d, packages, start, m).start_time
            + leg_length(d, m),
        leg(train, d, packages, start, 0).start_time == start,
        leg(train, d, packages, start, m + 1).start_time == leg(
            train,
            d,
            packages,
            start,
            m,
        ).end_time,
        leg(train, d, packages, start, m + 1).from == leg(train, d, packages, start, m).to,
{
}

/// Every leg of the trip starts and ends at a time that fits in an `i32`.
pub open spec fn times_fit(d: DestinationView, start: int) -> bool {
    forall|m: int| 0 <= m <= leg_count(d) ==> i32::MIN <= #[trigger] time_at(d, start, m) <= i32::MAX
}

/// Leg `m` of the trip of `train` along `d`: on the first leg the train
/// takes on all it has committed to; on each leg it hands over, of what it
/// has claimed, the packages whose destination is where the leg arrives.
pub open spec fn leg(
    train: TrainView,
    d: DestinationView,
    packages: Seq<PackageView>,
    start: int,
    m: int,
) -> MovementView {
    MovementView {
        start_time: time_at(d, start, m),
        end_time: time_at(d, start, m + 1),
        from: if m == 0 {
            d.from
        } else {
            stop(d, m - 1)
        },
        to: stop(d, m),
        train: train.name,
        packages_picked_up: if m == 0 {
            train.packages_to_pick_up
        } else {
            Seq::empty()
        },
        packages_delivered: due(train.claimed(), packages, stop(d, m)).unwrap(),
    }
}

/// The legs of the trip, in order.
pub open spec fn trip(
    train: TrainView,
    d: DestinationView,
    packages: Seq<PackageView>,
    start: int,
) -> Seq<MovementView> {
    Seq::new(leg_count(d), |m: int| leg(train, d, packages, start, m))
}

/// What the train hands over on the first `m` legs of the trip, leg by leg.
pub open spec fn handed_over(
    train: TrainView,
    d: DestinationView,
    packages: Seq<PackageView>,
    m: int,
) -> Seq<Seq<char>>
    decreases m,
{
    if m <= 0 {
        Seq::empty()
    } else {
        handed_over(train, d, packages, m - 1) + due(
            train.claimed(),
            packages,
            stop(d, m - 1),
        ).unwrap()
    }
}

/// What a trip gives: the timeline with its legs, and the names of the
/// packages taken on and handed over.
pub ghost struct TripView {
    pub movements: Seq<MovementView>,
    pub picked_up: Seq<Seq<char>>,
    pub delivered: Seq<Seq<char>>,
}

/// The trip of `train` along the way `d`, added to the timeline. A way of
/// length 0 changes nothing. Else `LookupMiss` where the train names a
/// package that the table lacks, and `Overflow` where a leg would start or
/// end at a time that does not fit in an `i32`.
pub open spec fn moved(
    train: TrainView,
    d: DestinationView,
    packages: Seq<PackageView>,
    movements: Seq<MovementView>,
) -> Result<TripView, PlanError> {
    if d.cumulative_distance == 0 {
        Ok(TripView { movements, picked_up: Seq::empty(), delivered: Seq::empty() })
    } else if due(train.claimed(), packages, stop(d, 0)) is None {
        Err(PlanError::LookupMiss)
    } else if !times_fit(d, last_end(movements, train.name)) {
        Err(PlanError::Overflow)
    } else {
        Ok(
            TripView {
                movements: movements + trip(train, d, packages, last_end(movements, train.name)),
                picked_up: train.packages_to_pick_up,
                delivered: handed_over(train, d, packages, leg_count(d) as int),
            },
        )
    }
}

/// The latest end of a movement of the plan; 0 for the empty plan.
pub open spec fn makespan(plan: Seq<MovementView>) -> int
    decreases plan.len(),
{
    if plan.len() == 0 {
        0
    } else {
        let rest = makespan(plan.drop_last());
        if plan.last().end_time > rest {
            plan.last().end_time
        } else {
            rest
        }
    }
}

/// The train of each movement of the plan, in order.
pub open spec fn trains_of(plan: Seq<MovementView>) -> Seq<Seq<char>> {
    Seq::new(plan.len(), |i: int| plan[i].train)
}

/// The number of trains that move in the plan.
pub open spec fn trains_used(plan: Seq<MovementView>) -> int {
    trains_of(plan).to_set().len() as int
}

} // verus!
