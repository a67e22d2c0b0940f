//! One leg of the network as seen from a station.

use vstd::prelude::*;

verus! {

/// A leg that leads to station `to` over `distance`.
#[derive(Debug, PartialEq)]
pub struct Route {
    pub to: String,
    pub distance: i32,
}

/// The mathematical value of a [`Route`].
pub ghost struct RouteView {
    pub to: Seq<char>,
    pub distance: int,
}

impl View for Route {
    type V = RouteView;

    open spec fn view(&self) -> RouteView {
        RouteView { to: self.to@, distance: self.distance as int }
    }
}

impl Clone for Route {
    fn clone(&self) -> (r: Self)
        ensures
            r == *self,
    {
        Route { to: self.to.clone(), distance: self.distance }
    }
}

} // verus!
