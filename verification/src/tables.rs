//! Ordered tables: the `indexmap` maps that configs and stores are read into, by what
//! they hold. A table is the sequence of its entries, in the order of the file.

use indexmap::IndexMap;
use vstd::prelude::*;

use crate::text::views;

verus! {

/// `indexmap::IndexMap`: entries under distinct keys, in the order of insertion.
#[verifier::external_type_specification]
#[verifier::external_body]
#[verifier::reject_recursive_types(K)]
#[verifier::reject_recursive_types(V)]
#[verifier::reject_recursive_types(S)]
pub struct ExIndexMap<K, V, S>(IndexMap<K, V, S>);

/// The entries of a table of texts, in order.
pub uninterp spec fn text_table(map: IndexMap<String, String>) -> Seq<(Seq<char>, Seq<char>)>;

/// The entries of a table of costs, in order.
pub uninterp spec fn cost_table(map: IndexMap<String, u32>) -> Seq<(Seq<char>, u32)>;

/// The entries of a table of name lists, in order.
pub uninterp spec fn group_table(map: IndexMap<String, Vec<String>>) -> Seq<
    (Seq<char>, Seq<Seq<char>>),
>;

/// What a table holds under `key`.
pub open spec fn lookup<V>(table: Seq<(Seq<char>, V)>, key: Seq<char>) -> Option<V>
    decreases table.len(),
{
    if table.len() == 0 {
        None
    } else if table[0].0 == key {
        Some(table[0].1)
    } else {
        lookup(table.skip(1), key)
    }
}

/// `IndexMap::new` makes a table without entries.
#[verifier::external_body]
pub(crate) fn new_text_table() -> (map: IndexMap<String, String>)
    ensures
        text_table(map) == Seq::<(Seq<char>, Seq<char>)>::empty(),
{
    IndexMap::new()
}

/// `IndexMap::new` makes a table without entries.
#[verifier::external_body]
pub(crate) fn new_cost_table() -> (map: IndexMap<String, u32>)
    ensures
        cost_table(map) == Seq::<(Seq<char>, u32)>::empty(),
{
    IndexMap::new()
}

/// `IndexMap::new` makes a table without entries.
#[verifier::external_body]
pub(crate) fn new_group_table() -> (map: IndexMap<String, Vec<String>>)
    ensures
        group_table(map) == Seq::<(Seq<char>, Seq<Seq<char>>)>::empty(),
{
    IndexMap::new()
}

/// `IndexMap::get` finds the value stored under a key equal to `key`. Keys are distinct,
/// so it is the first, and only, entry with that key.
#[verifier::external_body]
pub(crate) fn text_under<'a>(map: &'a IndexMap<String, String>, key: &str) -> (value: Option<
    &'a String,
>)
    ensures
        match value {
            Some(found) => lookup(text_table(*map), key@) == Some(found@),
            None => lookup(text_table(*map), key@) is None,
        },
{
    map.get(key)
}

/// `IndexMap::get` finds the value stored under a key equal to `key`. Keys are distinct,
/// so it is the first, and only, entry with that key.
#[verifier::external_body]
pub(crate) fn cost_under(map: &IndexMap<String, u32>, key: &str) -> (value: Option<u32>)
    ensures
        value == lookup(cost_table(*map), key@),
{
    map.get(key).copied()
}

/// `IndexMap::get_index` hands out the entry at a position in insertion order, and
/// nothing past the last one. A map holds at most `usize::MAX` entries.
#[verifier::external_body]
pub(crate) fn text_entry(map: &IndexMap<String, String>, index: usize) -> (entry: Option<
    (&String, &String),
>)
    ensures
        match entry {
            Some((key, value)) => index < text_table(*map).len() <= usize::MAX && text_table(
                *map,
            )[index as int] == (key@, value@),
            None => index >= text_table(*map).len(),
        },
{
    map.get_index(index)
}

/// `IndexMap::get_index` hands out the entry at a position in insertion order, and
/// nothing past the last one. A map holds at most `usize::MAX` entries.
#[verifier::external_body]
pub(crate) fn cost_entry(map: &IndexMap<String, u32>, index: usize) -> (entry: Option<
    (&String, &u32),
>)
    ensures
        match entry {
            Some((key, value)) => index < cost_table(*map).len() <= usize::MAX && cost_table(
                *map,
            )[index as int] == (key@, *value),
            None => index >= cost_table(*map).len(),
        },
{
    map.get_index(index)
}

/// `IndexMap::get_index` hands out the entry at a position in insertion order, and
/// nothing past the last one. A map holds at most `usize::MAX` entries.
#[verifier::external_body]
pub(crate) fn group_entry(map: &IndexMap<String, Vec<String>>, index: usize) -> (entry: Option<
    (&String, &Vec<String>),
>)
    ensures
        match entry {
            Some((key, value)) => index < group_table(*map).len() <= usize::MAX && group_table(
                *map,
            )[index as int] == (key@, views(value@)),
            None => index >= group_table(*map).len(),
        },
{
    map.get_index(index)
}

} // verus!
