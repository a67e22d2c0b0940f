//! One leg of a plan.

use vstd::prelude::*;
use crate::names::{lemma_names_compared, name_before, precedes, same_name, views};
use crate::sorting::{ranks_well, Ranked};

verus! {

/// A train runs from `from` to `to` between `start_time` and `end_time`; it
/// takes packages on before it leaves and hands packages over when it arrives.
#[derive(Debug, PartialEq)]
pub struct Movement {
    pub start_time: i32,
    pub end_time: i32,
    pub from: String,
    pub to: String,
    pub train: String,
    pub packages_picked_up: Vec<String>,
    pub packages_delivered: Vec<String>,
}

/// The mathematical value of a [`Movement`].
pub ghost struct MovementView {
    pub start_time: int,
    pub end_time: int,
    pub from: Seq<char>,
    pub to: Seq<char>,
    pub train: Seq<char>,
    pub packages_picked_up: Seq<Seq<char>>,
    pub packages_delivered: Seq<Seq<char>>,
}

impl View for Movement {
    type V = MovementView;

    open spec fn view(&self) -> MovementView {
        MovementView {
            start_time: self.start_time as int,
            end_time: self.end_time as int,
            from: self.from@,
            to: self.to@,
            train: self.train@,
            packages_picked_up: views(self.packages_picked_up@),
            packages_delivered: views(self.packages_delivered@),
        }
    }
}

impl Clone for Movement {
    fn clone(&self) -> (r: Self)
        ensures
            r@ == self@,
    {
        let r = Movement {
            start_time: self.start_time,
            end_time: self.end_time,
            from: self.from.clone(),
            to: self.to.clone(),
            train: self.train.clone(),
            packages_picked_up: self.packages_picked_up.clone(),
            packages_delivered: self.packages_delivered.clone(),
        };
        assert(r@.packages_picked_up =~= self@.packages_picked_up);
        assert(r@.packages_delivered =~= self@.packages_delivered);
        r
    }
}

/// In a plan the movements stand train by train, those of one train by their start.
impl Ranked for Movement {
    open spec fn before(a: MovementView, b: MovementView) -> bool {
        name_before(a.train, b.train) || (a.train == b.train && a.start_time < b.start_time)
    }

    fn precedes(&self, other: &Self) -> (r: bool) {
        if precedes(self.train.as_str(), other.train.as_str()) {
            true
        } else if same_name(self.train.as_str(), other.train.as_str()) {
            self.start_time < other.start_time
        } else {
            false
        }
    }
}

/// The rank of movements is a strict weak order.
pub proof fn lemma_movements_rank_well()
    ensures
        ranks_well::<Movement>(),
{
    assert forall|a: MovementView, b: MovementView| #[trigger]
        Movement::before(a, b) implies !Movement::before(b, a) by {
        lemma_names_compared(a.train, b.train, a.train);
    }
    assert forall|a: MovementView, b: MovementView, c: MovementView|
        !#[trigger] Movement::before(a, b) && !#[trigger] Movement::before(
            b,
            c,
        ) implies !Movement::before(a, c) by {
        lemma_names_compared(a.train, b.train, c.train);
    }
}

/// A copy of the timeline.
pub fn copy_movements(movements: &Vec<Movement>) -> (r: Vec<Movement>)
    ensures
        views(r@) == views(movements@),
{
    let r = movements.clone();
    assert(views(r@) =~= views(movements@));
    r
}

} // verus!
