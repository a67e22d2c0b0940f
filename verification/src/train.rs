//! A train, where it is and what it carries.

use vstd::prelude::*;
use crate::names::views;
use crate::table::Keyed;

verus! {

/// A train with its capacity and place, and the names of the packages that
/// it has committed to, holds on board, and has delivered.
#[derive(Debug)]
pub struct Train {
    pub name: String,
    pub start: String,
    pub current_location: String,
    pub capacity: i32,
    pub total_distance: i32,
    pub packages_to_pick_up: Vec<String>,
    pub packages_picked_up: Vec<String>,
    pub packages_delivered: Vec<String>,
}

/// The mathematical value of a [`Train`].
pub ghost struct TrainView {
    pub name: Seq<char>,
    pub start: Seq<char>,
    pub current_location: Seq<char>,
    pub capacity: int,
    pub total_distance: int,
    pub packages_to_pick_up: Seq<Seq<char>>,
    pub packages_picked_up: Seq<Seq<char>>,
    pub packages_delivered: Seq<Seq<char>>,
}

impl TrainView {
    /// The packages that count against the capacity: those committed to, then those on board.
    pub open spec fn claimed(self) -> Seq<Seq<char>> {
        self.packages_to_pick_up + self.packages_picked_up
    }
}

impl View for Train {
    type V = TrainView;

    open spec fn view(&self) -> TrainView {
        TrainView {
            name: self.name@,
            start: self.start@,
            current_location: self.current_location@,
            capacity: self.capacity as int,
            total_distance: self.total_distance as int,
            packages_to_pick_up: views(self.packages_to_pick_up@),
            packages_picked_up: views(self.packages_picked_up@),
            packages_delivered: views(self.packages_delivered@),
        }
    }
}

impl Clone for Train {
    fn clone(&self) -> (r: Self)
        ensures
            r@ == self@,
    {
        let r = Train {
            name: self.name.clone(),
            start: self.start.clone(),
            current_location: self.current_location.clone(),
            capacity: self.capacity,
            total_distance: self.total_distance,
            packages_to_pick_up: self.packages_to_pick_up.clone(),
            packages_picked_up: self.packages_picked_up.clone(),
            packages_delivered: self.packages_delivered.clone(),
        };
        assert(r@.packages_to_pick_up =~= self@.packages_to_pick_up);
        assert(r@.packages_picked_up =~= self@.packages_picked_up);
        assert(r@.packages_delivered =~= self@.packages_delivered);
        r
    }
}

impl Keyed for Train {
    open spec fn key(&self) -> Seq<char> {
        self.name@
    }

    fn key_str(&self) -> (r: &str) {
        self.name.as_str()
    }
}

impl Train {
    /// A train that stands at `start` and has not moved or taken on anything.
    pub fn new(name: String, capacity: i32, start: String) -> (t: Train)
        ensures
            t@ == (TrainView {
                name: name@,
                start: start@,
                current_location: start@,
                capacity: capacity as int,
                total_distance: 0,
                packages_to_pick_up: Seq::empty(),
                packages_picked_up: Seq::empty(),
                packages_delivered: Seq::empty(),
            }),
    {
        let t = Train {
            name,
            start: start.clone(),
            current_location: start,
            capacity,
            total_distance: 0,
            packages_delivered: Vec::new(),
            packages_to_pick_up: Vec::new(),
            packages_picked_up: Vec::new(),
        };
        assert(t@.packages_to_pick_up =~= Seq::empty());
        assert(t@.packages_picked_up =~= Seq::empty());
        assert(t@.packages_delivered =~= Seq::empty());
        t
    }
}

/// The names of the trains of a table, in table order.
pub open spec fn train_names(trains: Seq<TrainView>) -> Seq<Seq<char>> {
    Seq::new(trains.len(), |i: int| trains[i].name)
}

/// A copy of the table of trains.
pub fn copy_trains(trains: &Vec<Train>) -> (r: Vec<Train>)
    ensures
        views(r@) == views(trains@),
{
    let r = trains.clone();
    assert(views(r@) =~= views(trains@));
    r
}

} // verus!
