//! The insertion-ordered maps that hold a workspace's crates, a crate's
//! files, a function's variables and the states of its locals, and what each
//! of their operations that the library uses does to the entries they hold.

use crate::dataflow::{StateSet, entry_of};
use crate::models::{Crate, File, MirVariable, first_index};
use foldhash::quality::RandomState as FoldHasher;
use indexmap::IndexMap;
use vstd::prelude::*;

verus! {

#[verifier::external_type_specification]
#[verifier::external_body]
#[verifier::reject_recursive_types(K)]
#[verifier::reject_recursive_types(V)]
#[verifier::reject_recursive_types(S)]
pub struct ExIndexMap<K, V, S>(IndexMap<K, V, S>);

#[verifier::external_type_specification]
#[verifier::external_body]
pub struct ExFoldHasher(FoldHasher);

/// `IndexMap::clone`: a map holding clones of the entries. What the clones
/// hold is not stated: the entries' own `clone` decides it.
pub assume_specification<K, V, S>[ <IndexMap<K, V, S> as Clone>::clone ](m: &IndexMap<K, V, S>) -> (r:
    IndexMap<K, V, S>) where K: Clone, V: Clone, S: Clone
;

/// The views of the keys of `s`.
pub open spec fn string_keys<V>(s: Seq<(String, V)>) -> Seq<Seq<char>> {
    s.map_values(|e: (String, V)| e.0@)
}

/// The position of the entry of `s` whose key reads `k`, the first where
/// there could be more.
pub open spec fn key_index<V>(s: Seq<(String, V)>, k: Seq<char>) -> Option<int> {
    first_index(string_keys(s), k)
}

/// `s` after inserting `(k, v)` into a map that holds `s`: the entry with
/// key `k` keeps its key and place and takes the value `v`; where there is
/// none, the pair comes last.
pub open spec fn inserted<V>(s: Seq<(String, V)>, k: String, v: V) -> Seq<(String, V)> {
    match key_index(s, k@) {
        Some(i) => s.update(i, (s[i].0, v)),
        None => s.push((k, v)),
    }
}

/// What `insert` hands back: the value that the key had, if any.
pub open spec fn replaced<V>(s: Seq<(String, V)>, k: Seq<char>) -> Option<V> {
    match key_index(s, k) {
        Some(i) => Some(s[i].1),
        None => None,
    }
}

/// The entries, in order, of a map from file paths to files.
pub uninterp spec fn files_in(m: IndexMap<String, File, FoldHasher>) -> Seq<(String, File)>;

/// The entries, in order, of a map from crate names to crates.
pub uninterp spec fn crates_in(m: IndexMap<String, Crate, FoldHasher>) -> Seq<(String, Crate)>;

/// The entries, in order, of a map from variable indices to variables.
pub uninterp spec fn variables_in(m: IndexMap<u32, MirVariable>) -> Seq<(u32, MirVariable)>;

/// `IndexMap::default`: a map with no entries.
#[verifier::external_body]
pub(crate) fn files_new() -> (r: IndexMap<String, File, FoldHasher>)
    ensures
        files_in(r) == Seq::<(String, File)>::empty(),
{
    IndexMap::default()
}

/// `IndexMap::len`: the number of entries.
#[verifier::external_body]
pub(crate) fn files_len(m: &IndexMap<String, File, FoldHasher>) -> (r: usize)
    ensures
        r == files_in(*m).len(),
{
    m.len()
}

/// `IndexMap::get_index`: the entry at position `i`, where there is one.
#[verifier::external_body]
pub(crate) fn files_get_index<'a>(m: &'a IndexMap<String, File, FoldHasher>, i: usize) -> (r: Option<
    (&'a String, &'a File),
>)
    ensures
        match r {
            Some((k, v)) => i < files_in(*m).len() && *k == files_in(*m)[i as int].0 && *v == files_in(
                *m,
            )[i as int].1,
            None => i >= files_in(*m).len(),
        },
{
    m.get_index(i)
}

/// `IndexMap::get_index_of`: the position of the entry whose key reads
/// `key`.
#[verifier::external_body]
pub(crate) fn files_index_of(m: &IndexMap<String, File, FoldHasher>, key: &str) -> (r: Option<usize>)
    ensures
        match r {
            Some(i) => key_index(files_in(*m), key@) == Some(i as int),
            None => key_index(files_in(*m), key@) is None,
        },
{
    m.get_index_of(key)
}

/// `IndexMap::insert`: the entry for `key` takes `value` in its place, or
/// the pair is appended; the value it had comes back.
#[verifier::external_body]
pub(crate) fn files_insert(m: &mut IndexMap<String, File, FoldHasher>, key: String, value: File) -> (r:
    Option<File>)
    ensures
        files_in(*final(m)) == inserted(files_in(*old(m)), key, value),
        r == replaced(files_in(*old(m)), key@),
{
    m.insert(key, value)
}

/// `IndexMap::into_iter`, collected: the entries in order.
#[verifier::external_body]
pub(crate) fn files_into_vec(m: IndexMap<String, File, FoldHasher>) -> (r: Vec<(String, File)>)
    ensures
        r@ == files_in(m),
{
    m.into_iter().collect()
}

/// `IndexMap::default`: a map with no entries.
#[verifier::external_body]
pub(crate) fn crates_new() -> (r: IndexMap<String, Crate, FoldHasher>)
    ensures
        crates_in(r) == Seq::<(String, Crate)>::empty(),
{
    IndexMap::default()
}

/// `IndexMap::get_index_of`: the position of the entry whose key reads
/// `key`.
#[verifier::external_body]
pub(crate) fn crates_index_of(m: &IndexMap<String, Crate, FoldHasher>, key: &str) -> (r: Option<usize>)
    ensures
        match r {
            Some(i) => key_index(crates_in(*m), key@) == Some(i as int),
            None => key_index(crates_in(*m), key@) is None,
        },
{
    m.get_index_of(key)
}

/// `IndexMap::insert`: the entry for `key` takes `value` in its place, or
/// the pair is appended; the value it had comes back.
#[verifier::external_body]
pub(crate) fn crates_insert(m: &mut IndexMap<String, Crate, FoldHasher>, key: String, value: Crate) -> (r:
    Option<Crate>)
    ensures
        crates_in(*final(m)) == inserted(crates_in(*old(m)), key, value),
        r == replaced(crates_in(*old(m)), key@),
{
    m.insert(key, value)
}

/// `IndexMap::into_iter`, collected: the entries in order.
#[verifier::external_body]
pub(crate) fn crates_into_vec(m: IndexMap<String, Crate, FoldHasher>) -> (r: Vec<(String, Crate)>)
    ensures
        r@ == crates_in(m),
{
    m.into_iter().collect()
}

/// Some entry of `s` has key `k`.
pub open spec fn has_key(s: Seq<(u32, MirVariable)>, k: u32) -> bool {
    exists|j: int| 0 <= j < s.len() && (#[trigger] s[j]).0 == k
}

/// `IndexMap::with_capacity`: a map with no entries.
#[verifier::external_body]
pub(crate) fn variables_with_capacity(capacity: usize) -> (r: IndexMap<u32, MirVariable>)
    ensures
        variables_in(r) == Seq::<(u32, MirVariable)>::empty(),
{
    IndexMap::with_capacity(capacity)
}

/// `IndexMap::entry` with `or_insert`: where no entry has key `key`,
/// `(key, value)` is appended; otherwise nothing changes.
#[verifier::external_body]
pub(crate) fn variables_insert_absent(m: &mut IndexMap<u32, MirVariable>, key: u32, value: MirVariable)
    ensures
        variables_in(*final(m)) == if has_key(variables_in(*old(m)), key) {
            variables_in(*old(m))
        } else {
            variables_in(*old(m)).push((key, value))
        },
{
    m.entry(key).or_insert(value);
}

/// `IndexMap::values`, copied: the values in order.
#[verifier::external_body]
pub(crate) fn variables_values(m: &IndexMap<u32, MirVariable>) -> (r: Vec<MirVariable>)
    ensures
        r@ == variables_in(*m).map_values(|e: (u32, MirVariable)| e.1),
{
    m.values().copied().collect()
}

/// `IndexMap::into_values`, collected: the values in order.
#[verifier::external_body]
pub(crate) fn variables_into_values(m: IndexMap<u32, MirVariable>) -> (r: Vec<MirVariable>)
    ensures
        r@ == variables_in(m).map_values(|e: (u32, MirVariable)| e.1),
{
    m.into_values().collect()
}

/// The entries, in order, of a map from locals to their states.
pub uninterp spec fn states_in(m: IndexMap<u32, StateSet>) -> Seq<(u32, StateSet)>;

/// `IndexMap::new`: a map with no entries.
#[verifier::external_body]
pub(crate) fn states_new() -> (r: IndexMap<u32, StateSet>)
    ensures
        states_in(r) == Seq::<(u32, StateSet)>::empty(),
{
    IndexMap::new()
}

/// `IndexMap::len`: the number of entries.
#[verifier::external_body]
pub(crate) fn states_len(m: &IndexMap<u32, StateSet>) -> (r: usize)
    ensures
        r == states_in(*m).len(),
{
    m.len()
}

/// `IndexMap::get_index`: the entry at position `i`, where there is one.
#[verifier::external_body]
pub(crate) fn states_get_index<'a>(m: &'a IndexMap<u32, StateSet>, i: usize) -> (r: Option<
    (&'a u32, &'a StateSet),
>)
    ensures
        match r {
            Some((k, v)) => i < states_in(*m).len() && *k == states_in(*m)[i as int].0 && *v
                == states_in(*m)[i as int].1,
            None => i >= states_in(*m).len(),
        },
{
    m.get_index(i)
}

/// `IndexMap::get_index_of`: the position of the entry for `key`.
#[verifier::external_body]
pub(crate) fn states_index_of(m: &IndexMap<u32, StateSet>, key: u32) -> (r: Option<usize>)
    ensures
        match r {
            Some(i) => entry_of(states_in(*m), key) == Some(i as int),
            None => entry_of(states_in(*m), key) is None,
        },
{
    m.get_index_of(&key)
}

/// `IndexMap::insert`: the entry for `key` takes `value` in its place, or
/// the pair is appended; the value it had comes back.
#[verifier::external_body]
pub(crate) fn states_insert(m: &mut IndexMap<u32, StateSet>, key: u32, value: StateSet) -> (r: Option<
    StateSet,
>)
    ensures
        states_in(*final(m)) == match entry_of(states_in(*old(m)), key) {
            Some(i) => states_in(*old(m)).update(i, (key, value)),
            None => states_in(*old(m)).push((key, value)),
        },
        r == match entry_of(states_in(*old(m)), key) {
            Some(i) => Some(states_in(*old(m))[i].1),
            None => None,
        },
{
    m.insert(key, value)
}

/// Indexing `IndexMap` by position, for writing: the entry at position `i`
/// keeps its key and takes `value`.
#[verifier::external_body]
pub(crate) fn states_set_value(m: &mut IndexMap<u32, StateSet>, i: usize, value: StateSet)
    requires
        i < states_in(*old(m)).len(),
    ensures
        states_in(*final(m)) == states_in(*old(m)).update(i as int, (states_in(*old(m))[i as int].0, value)),
{
    m[i] = value;
}

} // verus!
