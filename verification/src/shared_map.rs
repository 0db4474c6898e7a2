//! The concurrent maps that hold what a process has already looked up.
//!
//! A map is used through exclusive borrows here, so that its contents are a plain value between
//! two calls. One map leads from a text to the handle of a loaded item, the other from a text to
//! a text.

use vstd::prelude::*;

verus! {

#[verifier::external_type_specification]
#[verifier::external_body]
#[verifier::reject_recursive_types(K)]
#[verifier::reject_recursive_types(V)]
#[verifier::reject_recursive_types(S)]
pub struct ExDashMap<K, V, S>(dashmap::DashMap<K, V, S>);

#[verifier::external_type_specification]
#[verifier::external_body]
pub struct ExFxBuildHasher(rustc_hash::FxBuildHasher);

/// What a map of handles holds.
pub uninterp spec fn handle_entries(
    map: dashmap::DashMap<String, usize, rustc_hash::FxBuildHasher>,
) -> Map<Seq<char>, usize>;

/// What a map of texts holds.
pub uninterp spec fn text_entries(
    map: dashmap::DashMap<String, String, rustc_hash::FxBuildHasher>,
) -> Map<Seq<char>, Seq<char>>;

pub open spec fn no_handles() -> Map<Seq<char>, usize> {
    Map::empty()
}

pub open spec fn no_texts() -> Map<Seq<char>, Seq<char>> {
    Map::empty()
}

/// `DashMap::default` makes a map without entries.
#[verifier::external_body]
pub(crate) fn new_handles() -> (map: dashmap::DashMap<String, usize, rustc_hash::FxBuildHasher>)
    ensures
        handle_entries(map) == no_handles(),
{
    dashmap::DashMap::default()
}

/// `DashMap::get` finds the value of a key that has an entry, and nothing for any other.
#[verifier::external_body]
pub(crate) fn handle_of(
    map: &dashmap::DashMap<String, usize, rustc_hash::FxBuildHasher>,
    key: &str,
) -> (handle: Option<usize>)
    ensures
        handle == if handle_entries(*map).contains_key(key@) {
            Some(handle_entries(*map)[key@])
        } else {
            None
        },
{
    map.get(key).map(|entry| *entry.value())
}

/// `DashMap::insert` gives a key its value, in place of an earlier one.
#[verifier::external_body]
pub(crate) fn insert_handle(
    map: &mut dashmap::DashMap<String, usize, rustc_hash::FxBuildHasher>,
    key: &str,
    handle: usize,
)
    ensures
        handle_entries(*final(map)) == handle_entries(*old(map)).insert(key@, handle),
{
    map.insert(key.to_string(), handle);
}

/// `Entry::or_insert` leaves an entry that is there and makes one that is not; either way it
/// gives the value of the entry.
#[verifier::external_body]
pub(crate) fn keep_handle(
    map: &mut dashmap::DashMap<String, usize, rustc_hash::FxBuildHasher>,
    key: &str,
    handle: usize,
) -> (kept: usize)
    ensures
        handle_entries(*final(map)) == if handle_entries(*old(map)).contains_key(key@) {
            handle_entries(*old(map))
        } else {
            handle_entries(*old(map)).insert(key@, handle)
        },
        kept == if handle_entries(*old(map)).contains_key(key@) {
            handle_entries(*old(map))[key@]
        } else {
            handle
        },
{
    *map.entry(key.to_string()).or_insert(handle)
}

/// `DashMap::clear` removes every entry.
#[verifier::external_body]
pub(crate) fn clear_handles(map: &mut dashmap::DashMap<String, usize, rustc_hash::FxBuildHasher>)
    ensures
        handle_entries(*final(map)) == no_handles(),
{
    map.clear();
}

/// `DashMap::len` counts the entries.
#[verifier::external_body]
pub(crate) fn count_handles(
    map: &dashmap::DashMap<String, usize, rustc_hash::FxBuildHasher>,
) -> (count: usize)
    ensures
        count == handle_entries(*map).len(),
{
    map.len()
}

/// `DashMap::default` makes a map without entries.
#[verifier::external_body]
pub(crate) fn new_texts() -> (map: dashmap::DashMap<String, String, rustc_hash::FxBuildHasher>)
    ensures
        text_entries(map) == no_texts(),
{
    dashmap::DashMap::default()
}

/// `DashMap::get` finds the value of a key that has an entry, and nothing for any other.
#[verifier::external_body]
pub(crate) fn text_of(
    map: &dashmap::DashMap<String, String, rustc_hash::FxBuildHasher>,
    key: &str,
) -> (value: Option<String>)
    ensures
        value is Some == text_entries(*map).contains_key(key@),
        value matches Some(found) ==> found@ == text_entries(*map)[key@],
{
    map.get(key).map(|entry| entry.value().clone())
}

/// `DashMap::insert` gives a key its value, in place of an earlier one.
#[verifier::external_body]
pub(crate) fn insert_text(
    map: &mut dashmap::DashMap<String, String, rustc_hash::FxBuildHasher>,
    key: &str,
    value: &str,
)
    ensures
        text_entries(*final(map)) == text_entries(*old(map)).insert(key@, value@),
{
    map.insert(key.to_string(), value.to_string());
}

/// `DashMap::remove` removes the entry of a key, where there is one.
#[verifier::external_body]
pub(crate) fn remove_text(
    map: &mut dashmap::DashMap<String, String, rustc_hash::FxBuildHasher>,
    key: &str,
)
    ensures
        text_entries(*final(map)) == text_entries(*old(map)).remove(key@),
{
    map.remove(key);
}

/// `DashMap::clear` removes every entry.
#[verifier::external_body]
pub(crate) fn clear_texts(map: &mut dashmap::DashMap<String, String, rustc_hash::FxBuildHasher>)
    ensures
        text_entries(*final(map)) == no_texts(),
{
    map.clear();
}

} // verus!
