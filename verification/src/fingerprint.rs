//! The key under which the planner remembers what it found for a state.

use vstd::prelude::*;
use crate::names::{lemma_name_order, lemma_names_compared, name_before, precedes};
use crate::package::{package_names, PackageView};
use crate::sorting::{all_ranked, lemma_sorted_canonical, ranks_well, sorted, Ranked};
use crate::table::distinct;
use crate::train::{train_names, TrainView};

verus! {

/// A name and what it is paired with in the key: a train with its place, a package with a train.
pub struct NamePair {
    pub name: String,
    pub holder: String,
}

/// The mathematical value of a [`NamePair`].
pub ghost struct NamePairView {
    pub name: Seq<char>,
    pub holder: Seq<char>,
}

impl View for NamePair {
    type V = NamePairView;

    open spec fn view(&self) -> NamePairView {
        NamePairView { name: self.name@, holder: self.holder@ }
    }
}

/// Pairs stand in the key by name.
impl Ranked for NamePair {
    open spec fn before(a: NamePairView, b: NamePairView) -> bool {
        name_before(a.name, b.name)
    }

    fn precedes(&self, other: &Self) -> (r: bool) {
        precedes(self.name.as_str(), other.name.as_str())
    }
}

/// The rank of pairs is a strict weak order.
pub proof fn lemma_pairs_rank_well()
    ensures
        ranks_well::<NamePair>(),
{
    assert forall|a: NamePairView, b: NamePairView| #[trigger]
        NamePair::before(a, b) implies !NamePair::before(b, a) by {
        lemma_names_compared(a.name, b.name, a.name);
    }
    assert forall|a: NamePairView, b: NamePairView, c: NamePairView|
        !#[trigger] NamePair::before(a, b) && !#[trigger] NamePair::before(
            b,
            c,
        ) implies !NamePair::before(a, c) by {
        lemma_names_compared(a.name, b.name, c.name);
    }
}

/// The three marks that a package collects.
pub enum Stage {
    Reserved,
    PickedUp,
    Delivered,
}

/// The train that a package names at a stage; empty where none.
pub open spec fn holder_at(p: PackageView, stage: Stage) -> Seq<char> {
    match stage {
        Stage::Reserved => p.to_be_picked_up_by,
        Stage::PickedUp => p.picked_up_by,
        Stage::Delivered => p.delivered_by,
    }
}

/// Each train with its place, in table order.
pub open spec fn train_places(trains: Seq<TrainView>) -> Seq<NamePairView> {
    Seq::new(
        trains.len(),
        |i: int| NamePairView { name: trains[i].name, holder: trains[i].current_location },
    )
}

/// Each package that names a train at `stage`, with that train, in table order.
pub open spec fn holders(packages: Seq<PackageView>, stage: Stage) -> Seq<NamePairView>
    decreases packages.len(),
{
    if packages.len() == 0 {
        Seq::empty()
    } else {
        let rest = holders(packages.drop_last(), stage);
        let p = packages.last();
        if holder_at(p, stage).len() > 0 {
            rest.push(NamePairView { name: p.name, holder: holder_at(p, stage) })
        } else {
            rest
        }
    }
}

/// A tag followed by the pairs, each as a comma, the name, a colon and what it is paired with.
pub open spec fn fragment(tag: Seq<char>, pairs: Seq<NamePairView>) -> Seq<char>
    decreases pairs.len(),
{
    if pairs.len() == 0 {
        tag
    } else {
        fragment(tag, pairs.drop_last()) + ","@ + pairs.last().name + ":"@ + pairs.last().holder
    }
}

/// The key of a state: where each train is and which train each package
/// names at each stage, each list sorted by name, the four fragments tagged
/// and joined by semicolons.
pub open spec fn fingerprint(trains: Seq<TrainView>, packages: Seq<PackageView>) -> Seq<char> {
    fragment("train_locations"@, sorted::<NamePair>(train_places(trains))) + ";"@ + fragment(
        "packages_to_be_picked_up"@,
        sorted::<NamePair>(holders(packages, Stage::Reserved)),
    ) + ";"@ + fragment(
        "packages_picked_up"@,
        sorted::<NamePair>(holders(packages, Stage::PickedUp)),
    ) + ";"@ + fragment(
        "packages_delivered"@,
        sorted::<NamePair>(holders(packages, Stage::Delivered)),
    )
}

/// Of the packages that name a train at a stage, any two are ranked, where
/// no two packages have one name; and each is a package of the table.
pub proof fn lemma_holders_ranked(packages: Seq<PackageView>, stage: Stage)
    requires
        distinct(package_names(packages)),
    ensures
        all_ranked::<NamePair>(holders(packages, stage)),
        forall|k: int|
            0 <= k < holders(packages, stage).len() ==> package_names(packages).contains(
                (#[trigger] holders(packages, stage)[k]).name,
            ),
    decreases packages.len(),
{
    let all = holders(packages, stage);
    if packages.len() > 0 {
        let rest = packages.drop_last();
        let p = packages.last();
        let names = package_names(packages);
        assert forall|i: int, j: int|
            0 <= i < rest.len() && 0 <= j < rest.len() && i != j implies package_names(rest)[i]
            != package_names(rest)[j] by {
            assert(names[i] != names[j]);
        }
        lemma_holders_ranked(rest, stage);
        let before = holders(rest, stage);
        assert forall|k: int| 0 <= k < before.len() implies names.contains(
            (#[trigger] before[k]).name,
        ) && before[k].name != p.name by {
            let at = choose|at: int|
                0 <= at < package_names(rest).len() && package_names(rest)[at] == before[k].name;
            assert(names[at] == before[k].name);
            assert(names[at] != names[packages.len() - 1]);
        }
        assert(names[packages.len() - 1] == p.name);
        assert forall|k: int| 0 <= k < all.len() implies names.contains((#[trigger] all[k]).name) by {
            if k < before.len() {
                assert(all[k] == before[k]);
            }
        }
        assert forall|i: int, j: int|
            0 <= i < all.len() && 0 <= j < all.len() && i != j implies NamePair::before(
            #[trigger] all[i],
            #[trigger] all[j],
        ) || NamePair::before(all[j], all[i]) by {
            if i < before.len() && j < before.len() {
                assert(all[i] == before[i] && all[j] == before[j]);
            } else if i < before.len() {
                assert(all[i] == before[i]);
                lemma_name_order(all[i].name, all[j].name, all[i].name);
            } else {
                assert(all[j] == before[j]);
                lemma_name_order(all[i].name, all[j].name, all[i].name);
            }
        }
    }
}

/// The key is canonical: two states in which the trains stand at the same
/// places and the packages name the same trains at each stage have the same
/// key, whatever the order of their tables and whatever else differs, where
/// no two trains and no two packages have one name.
pub proof fn lemma_fingerprint_canonical(
    trains: Seq<TrainView>,
    packages: Seq<PackageView>,
    other_trains: Seq<TrainView>,
    other_packages: Seq<PackageView>,
)
    requires
        distinct(train_names(trains)),
        distinct(package_names(packages)),
        train_places(trains).to_multiset() == train_places(other_trains).to_multiset(),
        holders(packages, Stage::Reserved).to_multiset() == holders(
            other_packages,
            Stage::Reserved,
        ).to_multiset(),
        holders(packages, Stage::PickedUp).to_multiset() == holders(
            other_packages,
            Stage::PickedUp,
        ).to_multiset(),
        holders(packages, Stage::Delivered).to_multiset() == holders(
            other_packages,
            Stage::Delivered,
        ).to_multiset(),
    ensures
        fingerprint(trains, packages) == fingerprint(other_trains, other_packages),
{
    lemma_pairs_rank_well();
    let places = train_places(trains);
    assert forall|i: int, j: int|
        0 <= i < places.len() && 0 <= j < places.len() && i != j implies NamePair::before(
        #[trigger] places[i],
        #[trigger] places[j],
    ) || NamePair::before(places[j], places[i]) by {
        assert(train_names(trains)[i] != train_names(trains)[j]);
        lemma_name_order(places[i].name, places[j].name, places[i].name);
    }
    lemma_sorted_canonical::<NamePair>(places, train_places(other_trains));
    lemma_holders_ranked(packages, Stage::Reserved);
    lemma_holders_ranked(packages, Stage::PickedUp);
    lemma_holders_ranked(packages, Stage::Delivered);
    lemma_sorted_canonical::<NamePair>(
        holders(packages, Stage::Reserved),
        holders(other_packages, Stage::Reserved),
    );
    lemma_sorted_canonical::<NamePair>(
        holders(packages, Stage::PickedUp),
        holders(other_packages, Stage::PickedUp),
    );
    lemma_sorted_canonical::<NamePair>(
        holders(packages, Stage::Delivered),
        holders(other_packages, Stage::Delivered),
    );
}

} // verus!
