//! The result of kind inference: a map from permission variables to kinds
//! that remembers the order in which its keys first came in.
//!
//! The entries are held in an index map of the `indexmap` crate, keyed by
//! the number of the variable. What its methods do to the entries is
//! taken on trust, in the contracts of the small functions that call them;
//! that no key occurs twice is proved from those contracts.

use crate::ty::{PermKind, PermVar};
use indexmap::IndexMap;
use rustc_hash::FxHasher;
use std::hash::BuildHasherDefault;
use vstd::prelude::*;

verus! {

/// The keys of a sequence of entries.
pub open spec fn entry_keys(entries: Seq<(PermVar, PermKind)>) -> Seq<PermVar> {
    entries.map_values(|e: (PermVar, PermKind)| e.0)
}

/// The map that a sequence of entries with distinct keys stands for.
pub open spec fn entries_map(entries: Seq<(PermVar, PermKind)>) -> Map<PermVar, PermKind> {
    Map::new(
        |v: PermVar| entry_keys(entries).contains(v),
        |v: PermVar| entries[entry_keys(entries).index_of(v)].1,
    )
}

/// Where `v` stands among distinct keys is where `index_of` finds it.
pub proof fn lemma_key_position(entries: Seq<(PermVar, PermKind)>, i: int)
    requires
        entry_keys(entries).no_duplicates(),
        0 <= i < entries.len(),
    ensures
        entry_keys(entries).contains(entries[i].0),
        entry_keys(entries).index_of(entries[i].0) == i,
        entries_map(entries).contains_key(entries[i].0),
        entries_map(entries)[entries[i].0] == entries[i].1,
{
    let keys = entry_keys(entries);
    assert(keys[i] == entries[i].0);
    keys.index_of_first_ensures(entries[i].0);
    let k = keys.index_of(entries[i].0);
    assert(keys[k] == keys[i]);
}

/// The index map of an outside crate, which keeps its entries in the order
/// in which their keys first came in.
#[verifier::external_type_specification]
#[verifier::external_body]
#[verifier::reject_recursive_types(K)]
#[verifier::reject_recursive_types(V)]
#[verifier::reject_recursive_types(S)]
pub struct ExIndexMap<K, V, S>(IndexMap<K, V, S>);

/// The builder of hashers that are made by `Default`.
#[verifier::external_type_specification]
#[verifier::external_body]
#[verifier::reject_recursive_types(H)]
pub struct ExBuildHasherDefault<H>(BuildHasherDefault<H>);

/// The hasher that the index map is used with.
#[verifier::external_type_specification]
#[verifier::external_body]
pub struct ExFxHasher(FxHasher);

/// The entries of an index map, in its order: the keys and values of its
/// field `entries`.
pub uninterp spec fn stored_kinds(map: IndexMap<u32, PermKind, BuildHasherDefault<FxHasher>>) -> Seq<
    (u32, PermKind),
>;

/// `IndexMap::default`: the map that comes back has no entries.
#[verifier::external_body]
fn kinds_empty() -> (map: IndexMap<u32, PermKind, BuildHasherDefault<FxHasher>>)
    ensures
        stored_kinds(map).len() == 0,
{
    IndexMap::default()
}

/// `IndexMap::len`: the number of entries.
#[verifier::external_body]
fn kinds_len(map: &IndexMap<u32, PermKind, BuildHasherDefault<FxHasher>>) -> (n: usize)
    ensures
        n == stored_kinds(*map).len(),
{
    map.len()
}

/// `IndexMap::get_index`: the entry at position `i` of the order, or
/// nothing where the map has fewer entries.
#[verifier::external_body]
fn kinds_at(map: &IndexMap<u32, PermKind, BuildHasherDefault<FxHasher>>, i: usize) -> (found:
    Option<(u32, PermKind)>)
    ensures
        i < stored_kinds(*map).len() ==> found == Some(stored_kinds(*map)[i as int]),
        i >= stored_kinds(*map).len() ==> found is None,
{
    map.get_index(i).map(|e: (&u32, &PermKind)| (*e.0, *e.1))
}

/// `IndexMap::get`: the value of an entry with the key `key`, or nothing
/// where no entry has that key.
#[verifier::external_body]
fn kinds_get(map: &IndexMap<u32, PermKind, BuildHasherDefault<FxHasher>>, key: u32) -> (found:
    Option<PermKind>)
    ensures
        found matches Some(kind) ==> stored_kinds(*map).contains((key, kind)),
        found is None ==> forall|i: int|
            0 <= i < stored_kinds(*map).len() ==> (#[trigger] stored_kinds(*map)[i]).0 != key,
{
    map.get(&key).copied()
}

/// `IndexMap::insert`: where an entry has the key `key`, it keeps its place
/// and gets the value `kind`, and its old value comes back; where none
/// has, the new entry goes to the end and nothing comes back.
#[verifier::external_body]
fn kinds_insert(
    map: &mut IndexMap<u32, PermKind, BuildHasherDefault<FxHasher>>,
    key: u32,
    kind: PermKind,
) -> (previous: Option<PermKind>)
    ensures
        previous matches Some(was) ==> exists|i: int|
            0 <= i < stored_kinds(*old(map)).len() && #[trigger] stored_kinds(*old(map))[i] == (
                key,
                was,
            ) && stored_kinds(*final(map)) == stored_kinds(*old(map)).update(i, (key, kind)),
        previous is None ==> stored_kinds(*final(map)) == stored_kinds(*old(map)).push((key, kind)),
        previous is None ==> forall|i: int|
            0 <= i < stored_kinds(*old(map)).len() ==> (#[trigger] stored_kinds(*old(map))[i]).0
                != key,
{
    map.insert(key, kind)
}

/// An insertion-ordered map from permission variables to their kinds.
pub struct KindMap {
    map: IndexMap<u32, PermKind, BuildHasherDefault<FxHasher>>,
}

impl View for KindMap {
    type V = Map<PermVar, PermKind>;

    open spec fn view(&self) -> Map<PermVar, PermKind> {
        entries_map(self.entries())
    }
}

/// The entry of the map that a stored entry stands for.
pub open spec fn keyed(e: (u32, PermKind)) -> (PermVar, PermKind) {
    (PermVar { index: e.0 }, e.1)
}

impl KindMap {
    /// The entries in the order in which their keys were first inserted.
    pub closed spec fn entries(&self) -> Seq<(PermVar, PermKind)> {
        stored_kinds(self.map).map_values(|e: (u32, PermKind)| keyed(e))
    }

    /// No key occurs twice.
    pub open spec fn wf(&self) -> bool {
        entry_keys(self.entries()).no_duplicates()
    }

    /// The map without entries.
    pub fn new() -> (map: KindMap)
        ensures
            map.wf(),
            map.entries() == Seq::<(PermVar, PermKind)>::empty(),
            map@ == Map::<PermVar, PermKind>::empty(),
    {
        let map = KindMap { map: kinds_empty() };
        proof {
            assert(map.entries() =~= Seq::<(PermVar, PermKind)>::empty());
            assert(entry_keys(map.entries()) =~= Seq::<PermVar>::empty());
            assert(map@ =~= Map::<PermVar, PermKind>::empty());
        }
        map
    }

    /// The number of entries.
    pub fn len(&self) -> (n: usize)
        ensures
            n == self.entries().len(),
    {
        kinds_len(&self.map)
    }

    /// The entry at position `i` in insertion order.
    pub fn entry(&self, i: usize) -> (e: (PermVar, PermKind))
        requires
            i < self.entries().len(),
        ensures
            e == self.entries()[i as int],
    {
        match kinds_at(&self.map, i) {
            Some(e) => (PermVar { index: e.0 }, e.1),
            None => (PermVar { index: 0 }, PermKind::Share),
        }
    }

    /// The kind recorded for `key`, if any.
    pub fn get(&self, key: PermVar) -> (kind: Option<PermKind>)
        requires
            self.wf(),
        ensures
            kind == (if self@.contains_key(key) {
                Some(self@[key])
            } else {
                None
            }),
    {
        let found = kinds_get(&self.map, key.index);
        proof {
            let stored = stored_kinds(self.map);
            let keys = entry_keys(self.entries());
            match found {
                Some(kind) => {
                    let i = choose|i: int| 0 <= i < stored.len() && stored[i] == (key.index, kind);
                    assert(self.entries()[i] == (key, kind));
                    lemma_key_position(self.entries(), i);
                },
                None => {
                    assert forall|j: int| 0 <= j < keys.len() implies keys[j] != key by {
                        assert(keys[j] == keyed(stored[j]).0);
                    }
                },
            }
        }
        found
    }

    /// Records `kind` for `key`. A key that the map holds already keeps its
    /// place and gets the new kind; a new key goes to the end.
    pub fn insert(&mut self, key: PermVar, kind: PermKind)
        requires
            old(self).wf(),
        ensures
            final(self).wf(),
            final(self)@ == old(self)@.insert(key, kind),
            old(self)@.contains_key(key) ==> final(self).entries() == old(self).entries().update(
                entry_keys(old(self).entries()).index_of(key),
                (key, kind),
            ),
            !old(self)@.contains_key(key) ==> final(self).entries() == old(self).entries().push(
                (key, kind),
            ),
    {
        let ghost before = self.entries();
        let ghost stored = stored_kinds(self.map);
        let previous = kinds_insert(&mut self.map, key.index, kind);
        proof {
            let after = self.entries();
            match previous {
                Some(was) => {
                    let i = choose|i: int|
                        0 <= i < stored.len() && #[trigger] stored[i] == (key.index, was)
                            && stored_kinds(self.map) == stored.update(i, (key.index, kind));
                    assert(before[i] == (key, was));
                    lemma_key_position(before, i);
                    assert(after =~= before.update(i, (key, kind)));
                    assert(entry_keys(after) =~= entry_keys(before));
                    assert forall|v: PermVar| entry_keys(after).contains(v) implies #[trigger]
                        entries_map(after)[v] == entries_map(before).insert(key, kind)[v] by {
                        let k = entry_keys(after).index_of(v);
                        entry_keys(after).index_of_first_ensures(v);
                        if v == key {
                            assert(entry_keys(before)[k] == entry_keys(before)[i]);
                        } else {
                            assert(entry_keys(before)[k] == v);
                        }
                    }
                    assert(entries_map(after) =~= entries_map(before).insert(key, kind));
                },
                None => {
                    let n = before.len() as int;
                    assert(after =~= before.push((key, kind)));
                    assert(entry_keys(after) =~= entry_keys(before).push(key));
                    assert forall|j: int| 0 <= j < n implies entry_keys(before)[j] != key by {
                        assert(entry_keys(before)[j] == keyed(stored[j]).0);
                    }
                    assert forall|a: int, b: int|
                        0 <= a < entry_keys(after).len() && 0 <= b < entry_keys(after).len() && a
                            != b implies entry_keys(after)[a] != entry_keys(after)[b] by {
                        if a < n {
                            assert(entry_keys(before).contains(entry_keys(before)[a]));
                        }
                        if b < n {
                            assert(entry_keys(before).contains(entry_keys(before)[b]));
                        }
                    }
                    assert(entry_keys(after)[n] == key);
                    assert forall|v: PermVar| entry_keys(after).contains(v) implies #[trigger]
                        entries_map(after)[v] == entries_map(before).insert(key, kind)[v] by {
                        let k = entry_keys(after).index_of(v);
                        entry_keys(after).index_of_first_ensures(v);
                        if v == key {
                            assert(entry_keys(after)[k] == entry_keys(after)[n]);
                        } else {
                            assert(k < n);
                            assert(entry_keys(before)[k] == v);
                            entry_keys(before).index_of_first_ensures(v);
                            let kb = entry_keys(before).index_of(v);
                            assert(entry_keys(after)[kb] == entry_keys(after)[k]);
                        }
                    }
                    assert forall|v: PermVar|
                        entry_keys(after).contains(v) <==> (v == key || entry_keys(
                            before,
                        ).contains(v)) by {
                        if entry_keys(before).contains(v) {
                            let kb = entry_keys(before).index_of(v);
                            entry_keys(before).index_of_first_ensures(v);
                            assert(entry_keys(after)[kb] == v);
                        }
                    }
                    assert(entries_map(after) =~= entries_map(before).insert(key, kind));
                },
            }
        }
    }
}

} // verus!
