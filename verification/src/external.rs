//! Declarations and contracts for the outside crates that the vocabulary is
//! built with: `indexmap`'s insertion-ordered set and `itertools`' `unique`
//! and `sorted` adaptors. Verus believes these contracts; each states what the
//! crate's documentation and source promise.

use vstd::prelude::*;
use indexmap::IndexSet;
use itertools::Itertools;
use crate::order::{first_occurrences, sorted};
use crate::splitter::string_views;

verus! {

/// `indexmap::IndexSet`, a hash set that keeps its items in insertion order.
#[verifier::external_type_specification]
#[verifier::external_body]
#[verifier::reject_recursive_types(T)]
#[verifier::reject_recursive_types(S)]
pub struct ExIndexSet<T, S>(IndexSet<T, S>);

/// The items of a set of strings, as character sequences, in their order in
/// the set (the order in which they were first inserted).
pub uninterp spec fn index_set_items(s: IndexSet<String>) -> Seq<Seq<char>>;

/// `IndexSet::new`: an empty set.
#[verifier::external_body]
pub(crate) fn index_set_new() -> (s: IndexSet<String>)
    ensures
        index_set_items(s) == Seq::<Seq<char>>::empty(),
{
    IndexSet::new()
}

/// `IndexSet::insert`: where an equal item is already in the set, the set is
/// left as it was and `false` comes back; otherwise `value` is appended after
/// the existing items and `true` comes back.
#[verifier::external_body]
pub(crate) fn index_set_insert(s: &mut IndexSet<String>, value: String) -> (added: bool)
    ensures
        added == !index_set_items(*old(s)).contains(value@),
        index_set_items(*final(s)) == if added {
            index_set_items(*old(s)).push(value@)
        } else {
            index_set_items(*old(s))
        },
{
    s.insert(value)
}

/// `IndexSet::get_index_of`: the position of the item equal to `value`, or
/// `None` where there is none.
#[verifier::external_body]
pub(crate) fn index_set_get_index_of(s: &IndexSet<String>, value: &str) -> (r: Option<usize>)
    ensures
        match r {
            Some(i) => i < index_set_items(*s).len() && index_set_items(*s)[i as int] == value@,
            None => !index_set_items(*s).contains(value@),
        },
{
    s.get_index_of(value)
}

/// `IndexSet::get_index`: the item at position `index`, or `None` where
/// `index` is not below the number of items.
#[verifier::external_body]
pub(crate) fn index_set_get_index(s: &IndexSet<String>, index: usize) -> (r: Option<&String>)
    ensures
        match r {
            Some(t) => index < index_set_items(*s).len() && t@ == index_set_items(*s)[index as int],
            None => index >= index_set_items(*s).len(),
        },
{
    s.get_index(index)
}

/// `Itertools::unique`: the items with every repetition of an earlier item
/// left out; the first occurrence of each item is kept, in the order given.
#[verifier::external_body]
pub(crate) fn unique_strings(items: Vec<String>) -> (out: Vec<String>)
    ensures
        string_views(out@) == first_occurrences(string_views(items@)),
{
    items.into_iter().unique().collect()
}

/// `Itertools::sorted`: the same items, each as often as before, in ascending
/// order of `String`'s `Ord`.
#[verifier::external_body]
pub(crate) fn sorted_strings(items: Vec<String>) -> (out: Vec<String>)
    ensures
        string_views(out@).to_multiset() == string_views(items@).to_multiset(),
        sorted(string_views(out@)),
{
    items.into_iter().sorted().collect()
}

} // verus!
