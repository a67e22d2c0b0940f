//! A package and where it stands in its life.

use vstd::prelude::*;
use crate::names::views;
use crate::table::Keyed;

verus! {

/// A package with its origin and destination, and the train, if any, that
/// has committed to it, picked it up, and delivered it. An empty name says
/// that no train has.
#[derive(Debug)]
pub struct Package {
    pub name: String,
    pub from: String,
    pub to: String,
    pub weight: i32,
    pub to_be_picked_up_by: String,
    pub picked_up_by: String,
    pub delivered_by: String,
}

/// The mathematical value of a [`Package`].
pub ghost struct PackageView {
    pub name: Seq<char>,
    pub from: Seq<char>,
    pub to: Seq<char>,
    pub weight: int,
    pub to_be_picked_up_by: Seq<char>,
    pub picked_up_by: Seq<char>,
    pub delivered_by: Seq<char>,
}

impl PackageView {
    /// No train has committed to the package, picked it up or delivered it.
    pub open spec fn is_free(self) -> bool {
        self.to_be_picked_up_by.len() == 0 && self.picked_up_by.len() == 0
            && self.delivered_by.len() == 0
    }

    /// A train has delivered the package.
    pub open spec fn is_delivered(self) -> bool {
        self.delivered_by.len() > 0
    }
}

impl View for Package {
    type V = PackageView;

    open spec fn view(&self) -> PackageView {
        PackageView {
            name: self.name@,
            from: self.from@,
            to: self.to@,
            weight: self.weight as int,
            to_be_picked_up_by: self.to_be_picked_up_by@,
            picked_up_by: self.picked_up_by@,
            delivered_by: self.delivered_by@,
        }
    }
}

impl Clone for Package {
    fn clone(&self) -> (r: Self)
        ensures
            r@ == self@,
    {
        Package {
            name: self.name.clone(),
            from: self.from.clone(),
            to: self.to.clone(),
            weight: self.weight,
            to_be_picked_up_by: self.to_be_picked_up_by.clone(),
            picked_up_by: self.picked_up_by.clone(),
            delivered_by: self.delivered_by.clone(),
        }
    }
}

impl Keyed for Package {
    open spec fn key(&self) -> Seq<char> {
        self.name@
    }

    fn key_str(&self) -> (r: &str) {
        self.name.as_str()
    }
}

impl Package {
    /// A package that no train has touched yet.
    pub fn new(name: String, weight: i32, from: String, to: String) -> (p: Package)
        ensures
            p@ == (PackageView {
                name: name@,
                from: from@,
                to: to@,
                weight: weight as int,
                to_be_picked_up_by: Seq::empty(),
                picked_up_by: Seq::empty(),
                delivered_by: Seq::empty(),
            }),
            p@.is_free(),
    {
        Package {
            name,
            from,
            to,
            weight,
            to_be_picked_up_by: String::new(),
            picked_up_by: String::new(),
            delivered_by: String::new(),
        }
    }
}

/// The names of the packages of a table, in table order.
pub open spec fn package_names(packages: Seq<PackageView>) -> Seq<Seq<char>> {
    Seq::new(packages.len(), |i: int| packages[i].name)
}

/// A copy of the table of packages.
pub fn copy_packages(packages: &Vec<Package>) -> (r: Vec<Package>)
    ensures
        views(r@) == views(packages@),
{
    let r = packages.clone();
    assert(views(r@) =~= views(packages@));
    r
}

} // verus!
