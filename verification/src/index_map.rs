//! What the library takes from the `indexmap` crate.
//!
//! An `IndexMap` keeps its entries in a vector, in their order, beside a hash
//! table that finds the position of a key. Each function here makes one call
//! into the crate; its contract is taken from the crate's source and is not
//! proved. The contracts speak of a map's entries as a sequence.
use indexmap::IndexMap;
use vstd::prelude::*;

use crate::entries::{has_key, keys, swap_removed, value, with_value};
use crate::node::names;
use crate::subnets::{MetadataView, SubnetMetadata};

verus! {

/// `indexmap::IndexMap`, an insertion-ordered hash map.
#[verifier::external_type_specification]
#[verifier::external_body]
#[verifier::reject_recursive_types(K)]
#[verifier::reject_recursive_types(V)]
#[verifier::reject_recursive_types(S)]
pub struct ExIndexMap<K, V, S>(indexmap::IndexMap<K, V, S>);

/// The entries of a map from names to lists of names, in their order.
pub uninterp spec fn lists(map: IndexMap<String, Vec<String>>) -> Seq<(Seq<char>, Seq<Seq<char>>)>;

/// `IndexMap::new` makes a map without entries.
#[verifier::external_body]
pub(crate) fn lists_new() -> (map: IndexMap<String, Vec<String>>)
    ensures
        lists(map) == Seq::<(Seq<char>, Seq<Seq<char>>)>::empty(),
{
    IndexMap::new()
}

/// `IndexMap::entry` with `Entry::or_default` gives access to the list of the
/// key. Where the key has no entry, one with an empty list is put at the end
/// first. No other entry changes.
#[verifier::external_body]
pub(crate) fn lists_entry_or_default<'a>(
    map: &'a mut IndexMap<String, Vec<String>>,
    key: String,
) -> (list: &'a mut Vec<String>)
    ensures
        names(list@) == (if has_key(lists(*old(map)), key@) {
            value(lists(*old(map)), key@)
        } else {
            Seq::<Seq<char>>::empty()
        }),
        lists(*final(map)) == with_value(lists(*old(map)), key@, names(final(list)@)),
{
    map.entry(key).or_default()
}

/// `IndexMap::get_mut` gives access to the list of the key, if it has an entry.
/// No other entry changes.
#[verifier::external_body]
pub(crate) fn lists_get_mut<'a>(
    map: &'a mut IndexMap<String, Vec<String>>,
    key: &str,
) -> (found: Option<&'a mut Vec<String>>)
    ensures
        match found {
            Some(list) => {
                &&& has_key(lists(*old(map)), key@)
                &&& names(list@) == value(lists(*old(map)), key@)
                &&& lists(*final(map)) == with_value(lists(*old(map)), key@, names(final(list)@))
            },
            None => {
                &&& !has_key(lists(*old(map)), key@)
                &&& lists(*final(map)) == lists(*old(map))
            },
        },
{
    map.get_mut(key)
}

/// `IndexMap::get` finds the list of the key.
#[verifier::external_body]
pub(crate) fn lists_get<'a>(map: &'a IndexMap<String, Vec<String>>, key: &str) -> (found: Option<
    &'a Vec<String>,
>)
    ensures
        match found {
            Some(list) => has_key(lists(*map), key@) && names(list@) == value(lists(*map), key@),
            None => !has_key(lists(*map), key@),
        },
{
    map.get(key)
}

/// `IndexMap::swap_remove` takes out the entry of the key and returns its list.
/// The last entry takes the place of the one that left.
#[verifier::external_body]
pub(crate) fn lists_swap_remove(map: &mut IndexMap<String, Vec<String>>, key: &str) -> (removed:
    Option<Vec<String>>)
    ensures
        match removed {
            Some(list) => {
                &&& has_key(lists(*old(map)), key@)
                &&& names(list@) == value(lists(*old(map)), key@)
                &&& lists(*final(map)) == swap_removed(lists(*old(map)), key@)
            },
            None => {
                &&& !has_key(lists(*old(map)), key@)
                &&& lists(*final(map)) == lists(*old(map))
            },
        },
{
    map.swap_remove(key)
}

/// `IndexMap::len` counts the entries. They fill one vector, and no vector of
/// items that take up space is longer than `isize::MAX`.
#[verifier::external_body]
pub(crate) fn lists_len(map: &IndexMap<String, Vec<String>>) -> (n: usize)
    ensures
        n == lists(*map).len(),
        n <= isize::MAX,
{
    map.len()
}

/// The texts of borrowed entries.
pub open spec fn borrowed_lists(items: Seq<(&String, &Vec<String>)>) -> Seq<
    (Seq<char>, Seq<Seq<char>>),
> {
    items.map_values(|e: (&String, &Vec<String>)| (e.0@, names(e.1@)))
}

/// `IndexMap::iter` hands out the entries in their order. No two of them have
/// the same key: a key is only put in where the map does not have it yet, and
/// the crate only allows changes of a stored key that leave it equal.
#[verifier::external_body]
pub(crate) fn lists_iter<'a>(map: &'a IndexMap<String, Vec<String>>) -> (items: Vec<
    (&'a String, &'a Vec<String>),
>)
    ensures
        borrowed_lists(items@) == lists(*map),
        keys(borrowed_lists(items@)).no_duplicates(),
{
    map.iter().collect()
}

/// `IndexMap::clone` makes a map with the same entries in the same order.
#[verifier::external_body]
pub(crate) fn lists_clone(map: &IndexMap<String, Vec<String>>) -> (copy: IndexMap<
    String,
    Vec<String>,
>)
    ensures
        lists(copy) == lists(*map),
{
    map.clone()
}

/// The text that `{:?}` gives for a map with these entries.
pub uninterp spec fn debug_text(entries: Seq<(Seq<char>, Seq<Seq<char>>)>) -> Seq<char>;

/// The `Debug` form of an `IndexMap` is written from its entries alone, in
/// their order. How the names in it are quoted is left unsaid.
#[verifier::external_body]
pub(crate) fn lists_debug(map: &IndexMap<String, Vec<String>>) -> (text: String)
    ensures
        text@ == debug_text(lists(*map)),
{
    format!("{map:?}")
}

/// The entries of a map from subnet names to metadata, in their order.
pub uninterp spec fn metadata(map: IndexMap<String, SubnetMetadata>) -> Seq<
    (Seq<char>, MetadataView),
>;

/// The texts of owned entries.
pub open spec fn owned_metadata(items: Seq<(String, SubnetMetadata)>) -> Seq<
    (Seq<char>, MetadataView),
> {
    items.map_values(|e: (String, SubnetMetadata)| (e.0@, e.1@))
}

/// `IndexMap::from_iter` inserts the pairs one after the other. Where no two
/// of them have the same key, they become the entries in the order given.
#[verifier::external_body]
pub(crate) fn metadata_from_iter(items: Vec<(String, SubnetMetadata)>) -> (map: IndexMap<
    String,
    SubnetMetadata,
>)
    requires
        keys(owned_metadata(items@)).no_duplicates(),
    ensures
        metadata(map) == owned_metadata(items@),
{
    items.into_iter().collect()
}

/// `IndexMap::get` finds the metadata of the key.
#[verifier::external_body]
pub(crate) fn metadata_get<'a>(map: &'a IndexMap<String, SubnetMetadata>, key: &str) -> (found:
    Option<&'a SubnetMetadata>)
    ensures
        match found {
            Some(meta) => has_key(metadata(*map), key@) && meta@ == value(metadata(*map), key@),
            None => !has_key(metadata(*map), key@),
        },
{
    map.get(key)
}

/// `IndexMap::len` counts the entries.
#[verifier::external_body]
pub(crate) fn metadata_len(map: &IndexMap<String, SubnetMetadata>) -> (n: usize)
    ensures
        n == metadata(*map).len(),
{
    map.len()
}

/// `IndexMap::is_empty` tells whether there are no entries.
#[verifier::external_body]
pub(crate) fn metadata_is_empty(map: &IndexMap<String, SubnetMetadata>) -> (empty: bool)
    ensures
        empty == (metadata(*map).len() == 0),
{
    map.is_empty()
}

/// The texts of borrowed entries.
pub open spec fn borrowed_metadata(items: Seq<(&String, &SubnetMetadata)>) -> Seq<
    (Seq<char>, MetadataView),
> {
    items.map_values(|e: (&String, &SubnetMetadata)| (e.0@, e.1@))
}

/// `IndexMap::iter` hands out the entries in their order.
#[verifier::external_body]
pub(crate) fn metadata_iter<'a>(map: &'a IndexMap<String, SubnetMetadata>) -> (items: Vec<
    (&'a String, &'a SubnetMetadata),
>)
    ensures
        borrowed_metadata(items@) == metadata(*map),
{
    map.iter().collect()
}

/// The entries of a map from names to texts, in their order.
pub uninterp spec fn texts(map: IndexMap<String, String>) -> Seq<(Seq<char>, Seq<char>)>;

/// The texts of owned entries.
pub open spec fn owned_texts(items: Seq<(String, String)>) -> Seq<(Seq<char>, Seq<char>)> {
    items.map_values(|e: (String, String)| (e.0@, e.1@))
}

/// `IndexMap::from_iter` inserts the pairs one after the other. Where no two
/// of them have the same key, they become the entries in the order given.
#[verifier::external_body]
pub(crate) fn texts_from_iter(items: Vec<(String, String)>) -> (map: IndexMap<String, String>)
    requires
        keys(owned_texts(items@)).no_duplicates(),
    ensures
        texts(map) == owned_texts(items@),
{
    items.into_iter().collect()
}

} // verus!
