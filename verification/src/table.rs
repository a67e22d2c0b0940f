//! Tables of named records, kept in vectors and searched by name.

use vstd::prelude::*;
use crate::names::same_name;

verus! {

/// A record that is found by its name.
pub trait Keyed {
    /// The name under which the record is filed.
    spec fn key(&self) -> Seq<char>;

    fn key_str(&self) -> (r: &str)
        ensures
            r@ == self.key(),
    ;
}

/// The names of the records of a table, in table order.
pub open spec fn keys<T: Keyed>(s: Seq<T>) -> Seq<Seq<char>> {
    Seq::new(s.len(), |i: int| s[i].key())
}

/// Where `name` first occurs among `names`, if it does.
pub open spec fn position(names: Seq<Seq<char>>, name: Seq<char>) -> Option<int> {
    names.index_of_first(name)
}

/// `i` is the first place at which `names` holds `name`.
pub open spec fn is_first_at(names: Seq<Seq<char>>, name: Seq<char>, i: int) -> bool {
    &&& 0 <= i < names.len()
    &&& names[i] == name
    &&& forall|j: int| 0 <= j < i ==> names[j] != name
}

/// `position` gives the first occurrence, and `None` only where there is none.
pub proof fn lemma_position(names: Seq<Seq<char>>, name: Seq<char>)
    ensures
        match position(names, name) {
            Some(i) => is_first_at(names, name, i),
            None => forall|j: int| 0 <= j < names.len() ==> names[j] != name,
        },
{
    names.index_of_first_ensures(name);
    if position(names, name) is None {
        assert forall|j: int| 0 <= j < names.len() implies names[j] != name by {
            if names[j] == name {
                assert(names.contains(name));
            }
        }
    }
}

/// A first occurrence is what `position` gives.
pub proof fn lemma_position_is(names: Seq<Seq<char>>, name: Seq<char>, i: int)
    requires
        is_first_at(names, name, i),
    ensures
        position(names, name) == Some(i),
{
    lemma_position(names, name);
}

/// Where no place holds `name`, `position` gives `None`.
pub proof fn lemma_position_none(names: Seq<Seq<char>>, name: Seq<char>)
    requires
        forall|j: int| 0 <= j < names.len() ==> names[j] != name,
    ensures
        position(names, name) is None,
{
    lemma_position(names, name);
}

/// No name occurs twice.
pub open spec fn distinct(names: Seq<Seq<char>>) -> bool {
    forall|i: int, j: int| 0 <= i < names.len() && 0 <= j < names.len() && i != j ==> names[i] != names[j]
}

/// The table after `item` is filed: in the place of the first record of the
/// same name, or at the end where there is none.
pub open spec fn upsert<T: Keyed>(s: Seq<T>, item: T) -> Seq<T> {
    match position(keys(s), item.key()) {
        Some(i) => s.update(i, item),
        None => s.push(item),
    }
}

/// Looks a record up by name: the index of the first record filed under `name`.
pub fn find<T: Keyed>(table: &Vec<T>, name: &str) -> (r: Option<usize>)
    ensures
        match r {
            Some(i) => position(keys(table@), name@) == Some(i as int) && i < table@.len()
                && table@[i as int].key() == name@,
            None => position(keys(table@), name@) is None,
        },
{
    let mut i: usize = 0;
    while i < table.len()
        invariant
            i <= table@.len(),
            forall|j: int| 0 <= j < i ==> keys(table@)[j] != name@,
        decreases table@.len() - i,
    {
        if same_name(table[i].key_str(), name) {
            proof {
                lemma_position_is(keys(table@), name@, i as int);
            }
            return Some(i);
        }
        i += 1;
    }
    proof {
        lemma_position_none(keys(table@), name@);
    }
    None
}

/// Files `item` under its name, in place of the record that had the name
/// before or as a new record; gives the place.
pub fn put<T: Keyed>(table: &mut Vec<T>, item: T) -> (slot: usize)
    ensures
        final(table)@ == upsert(old(table)@, item),
        slot < final(table)@.len(),
        final(table)@[slot as int] == item,
        match position(keys(old(table)@), item.key()) {
            Some(i) => slot == i,
            None => slot == old(table)@.len(),
        },
{
    match find(table, item.key_str()) {
        Some(i) => {
            table.set(i, item);
            i
        },
        None => {
            table.push(item);
            table.len() - 1
        },
    }
}

} // verus!
