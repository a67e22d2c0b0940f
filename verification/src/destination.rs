//! What the path oracle knows of one station as seen from a source.

use vstd::prelude::*;
use crate::names::views;
use crate::route::{Route, RouteView};
use crate::table::Keyed;

verus! {

/// The way from `from` to `to`: the length of its last leg, the length of the
/// whole way, and the stations passed in between, each with a distance.
#[derive(Debug, PartialEq)]
pub struct Destination {
    pub from: String,
    pub to: String,
    pub distance: i32,
    pub cumulative_distance: i32,
    pub checkpoints: Vec<Route>,
}

/// The mathematical value of a [`Destination`].
pub ghost struct DestinationView {
    pub from: Seq<char>,
    pub to: Seq<char>,
    pub distance: int,
    pub cumulative_distance: int,
    pub checkpoints: Seq<RouteView>,
}

impl View for Destination {
    type V = DestinationView;

    open spec fn view(&self) -> DestinationView {
        DestinationView {
            from: self.from@,
            to: self.to@,
            distance: self.distance as int,
            cumulative_distance: self.cumulative_distance as int,
            checkpoints: views(self.checkpoints@),
        }
    }
}

impl Clone for Destination {
    fn clone(&self) -> (r: Self)
        ensures
            r@ == self@,
    {
        let r = Destination {
            from: self.from.clone(),
            to: self.to.clone(),
            distance: self.distance,
            cumulative_distance: self.cumulative_distance,
            checkpoints: self.checkpoints.clone(),
        };
        assert(views(r.checkpoints@) =~= views(self.checkpoints@));
        r
    }
}

impl Keyed for Destination {
    open spec fn key(&self) -> Seq<char> {
        self.to@
    }

    fn key_str(&self) -> (r: &str) {
        self.to.as_str()
    }
}

impl Destination {
    /// A destination with empty names, no distance and no checkpoints.
    pub fn new() -> (d: Destination)
        ensures
            d@ == (DestinationView {
                from: Seq::empty(),
                to: Seq::empty(),
                distance: 0,
                cumulative_distance: 0,
                checkpoints: Seq::empty(),
            }),
    {
        let d = Destination {
            from: String::new(),
            to: String::new(),
            distance: 0,
            cumulative_distance: 0,
            checkpoints: Vec::new(),
        };
        assert(views(d.checkpoints@) =~= Seq::empty());
        d
    }
}

/// The stations that the records of a path table lead to, in table order.
pub open spec fn tos(t: Seq<DestinationView>) -> Seq<Seq<char>> {
    Seq::new(t.len(), |i: int| t[i].to)
}

/// A copy of the path table.
pub fn copy_destinations(table: &Vec<Destination>) -> (r: Vec<Destination>)
    ensures
        views(r@) == views(table@),
{
    let r = table.clone();
    assert(views(r@) =~= views(table@));
    r
}

} // verus!
