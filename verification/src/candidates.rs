//! The actions that the planner can take in a state, in the order in which it tries them.

use vstd::prelude::*;
use crate::error::PlanError;
use crate::names::{lemma_names_compared, name_before, precedes, same_name};
use crate::package::{package_names, PackageView};
use crate::sorting::{ranks_well, sorted, Ranked};
use crate::table::position;
use crate::train::TrainView;

verus! {

/// An action: `train` commits to `package` and goes to its origin
/// (`is_pickup`), or goes to the destination of a package it has committed to.
pub struct Candidate {
    pub train: String,
    pub package: String,
    pub is_pickup: bool,
}

/// The mathematical value of a [`Candidate`].
pub ghost struct CandidateView {
    pub train: Seq<char>,
    pub package: Seq<char>,
    pub is_pickup: bool,
}

impl View for Candidate {
    type V = CandidateView;

    open spec fn view(&self) -> CandidateView {
        CandidateView { train: self.train@, package: self.package@, is_pickup: self.is_pickup }
    }
}

/// What is committed comes before new commitments; then by train, then by package.
impl Ranked for Candidate {
    open spec fn before(a: CandidateView, b: CandidateView) -> bool {
        if a.is_pickup != b.is_pickup {
            !a.is_pickup
        } else if a.train != b.train {
            name_before(a.train, b.train)
        } else {
            name_before(a.package, b.package)
        }
    }

    fn precedes(&self, other: &Self) -> (r: bool) {
        if self.is_pickup != other.is_pickup {
            !self.is_pickup
        } else if !same_name(self.train.as_str(), other.train.as_str()) {
            precedes(self.train.as_str(), other.train.as_str())
        } else {
            precedes(self.package.as_str(), other.package.as_str())
        }
    }
}

/// The rank of actions is a strict weak order.
pub proof fn lemma_candidates_rank_well()
    ensures
        ranks_well::<Candidate>(),
{
    assert forall|a: CandidateView, b: CandidateView| #[trigger]
        Candidate::before(a, b) implies !Candidate::before(b, a) by {
        lemma_names_compared(a.train, b.train, a.train);
        lemma_names_compared(a.package, b.package, a.package);
    }
    assert forall|a: CandidateView, b: CandidateView, c: CandidateView|
        !#[trigger] Candidate::before(a, b) && !#[trigger] Candidate::before(
            b,
            c,
        ) implies !Candidate::before(a, c) by {
        lemma_names_compared(a.train, b.train, c.train);
        lemma_names_compared(a.package, b.package, c.package);
    }
}

/// The weight of the package called `name`, if the table holds it.
pub open spec fn weight_of(packages: Seq<PackageView>, name: Seq<char>) -> Option<int> {
    match position(package_names(packages), name) {
        Some(i) => Some(packages[i].weight),
        None => None,
    }
}

/// The weights of the named packages added up; `None` where the table lacks one of them.
pub open spec fn total_weight(names: Seq<Seq<char>>, packages: Seq<PackageView>) -> Option<int>
    decreases names.len(),
{
    if names.len() == 0 {
        Some(0)
    } else {
        match (total_weight(names.drop_last(), packages), weight_of(packages, names.last())) {
            (Some(sum), Some(weight)) => Some(sum + weight),
            _ => None,
        }
    }
}

/// What a train has claimed of its capacity: the weight of the packages it
/// has committed to and of those on board.
pub open spec fn load(train: TrainView, packages: Seq<PackageView>) -> Option<int> {
    total_weight(train.claimed(), packages)
}

/// The train has room left for the package.
pub open spec fn is_capable(train: TrainView, pack: PackageView, packages: Seq<PackageView>) -> bool {
    match load(train, packages) {
        Some(claimed) => train.capacity - claimed >= pack.weight,
        None => false,
    }
}

/// The table holds every package that a train names.
pub open spec fn loads_known(trains: Seq<TrainView>, packages: Seq<PackageView>) -> bool {
    forall|i: int| 0 <= i < trains.len() ==> load(#[trigger] trains[i], packages) is Some
}

/// The trains that have room left for the package, in table order.
pub open spec fn capable_among(
    trains: Seq<TrainView>,
    pack: PackageView,
    packages: Seq<PackageView>,
) -> Seq<TrainView>
    decreases trains.len(),
{
    if trains.len() == 0 {
        Seq::empty()
    } else {
        let rest = capable_among(trains.drop_last(), pack, packages);
        if is_capable(trains.last(), pack, packages) {
            rest.push(trains.last())
        } else {
            rest
        }
    }
}

/// The trains that have room left for the package, or `LookupMiss` where a
/// train names a package that the table lacks.
pub open spec fn capable_trains(
    pack: PackageView,
    packages: Seq<PackageView>,
    trains: Seq<TrainView>,
) -> Result<Seq<TrainView>, PlanError> {
    if loads_known(trains, packages) {
        Ok(capable_among(trains, pack, packages))
    } else {
        Err(PlanError::LookupMiss)
    }
}

/// For each train with room for the package, the commitment to it.
pub open spec fn offers(
    trains: Seq<TrainView>,
    pack: PackageView,
    packages: Seq<PackageView>,
) -> Seq<CandidateView> {
    let capable = capable_among(trains, pack, packages);
    Seq::new(
        capable.len(),
        |i: int| CandidateView { train: capable[i].name, package: pack.name, is_pickup: true },
    )
}

/// The commitments that can be made to the free packages among the first `n`.
pub open spec fn pickups(trains: Seq<TrainView>, packages: Seq<PackageView>, n: int) -> Seq<
    CandidateView,
>
    decreases n,
{
    if n <= 0 {
        Seq::empty()
    } else {
        pickups(trains, packages, n - 1) + if packages[n - 1].is_free() {
            offers(trains, packages[n - 1], packages)
        } else {
            Seq::empty()
        }
    }
}

/// For each package that the train has claimed, the run to its destination.
pub open spec fn commitments_of(train: TrainView) -> Seq<CandidateView> {
    Seq::new(
        train.claimed().len(),
        |i: int| CandidateView { train: train.name, package: train.claimed()[i], is_pickup: false },
    )
}

/// The runs that the first `n` trains owe.
pub open spec fn commitments(trains: Seq<TrainView>, n: int) -> Seq<CandidateView>
    decreases n,
{
    if n <= 0 {
        Seq::empty()
    } else {
        commitments(trains, n - 1) + commitments_of(trains[n - 1])
    }
}

/// Some package is free.
pub open spec fn has_free(packages: Seq<PackageView>) -> bool {
    exists|i: int| 0 <= i < packages.len() && (#[trigger] packages[i]).is_free()
}

/// The actions open in a state, sorted: for each free package the trains
/// with room for it, and for each train the packages it has claimed.
/// `LookupMiss` where a package is free and a train names a package that the table lacks.
pub open spec fn candidates(trains: Seq<TrainView>, packages: Seq<PackageView>) -> Result<
    Seq<CandidateView>,
    PlanError,
> {
    if has_free(packages) && !loads_known(trains, packages) {
        Err(PlanError::LookupMiss)
    } else {
        Ok(
            sorted::<Candidate>(
                pickups(trains, packages, packages.len() as int) + commitments(
                    trains,
                    trains.len() as int,
                ),
            ),
        )
    }
}

} // verus!
