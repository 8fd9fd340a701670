//! The concurrent maps that hold the index and the open documents.

use vstd::prelude::*;
use dashmap::DashMap;
use crate::collect::{strs, Copied};
use crate::index::model::{
    NsMeta, NsMetaView, Occurrence, OccurrenceView, Symbol, SymbolView,
};

verus! {

/// `dashmap::DashMap`, a map that several threads may share.
#[verifier::external_type_specification]
#[verifier::external_body]
#[verifier::reject_recursive_types(K)]
#[verifier::reject_recursive_types(V)]
#[verifier::reject_recursive_types(S)]
pub struct ExDashMap<K, V, S>(dashmap::DashMap<K, V, S>);

/// What a map of symbols holds.
pub uninterp spec fn symbols_held(m: DashMap<String, Symbol>) -> Map<Seq<char>, SymbolView>;

/// What a map of namespaces holds.
pub uninterp spec fn namespaces_held(m: DashMap<String, NsMeta>) -> Map<Seq<char>, NsMetaView>;

/// What a map of lists of names holds.
pub uninterp spec fn lists_held(m: DashMap<String, Vec<String>>) -> Map<Seq<char>, Seq<Seq<char>>>;

/// What a map of names holds.
pub uninterp spec fn names_held(m: DashMap<String, String>) -> Map<Seq<char>, Seq<char>>;

/// What a map of usages holds.
pub uninterp spec fn usages_held(m: DashMap<String, Vec<Occurrence>>) -> Map<
    Seq<char>,
    Seq<OccurrenceView>,
>;

/// What a map of integers holds.
pub uninterp spec fn counts_held(m: DashMap<String, u64>) -> Map<Seq<char>, u64>;

/// What a map of versions holds.
pub uninterp spec fn versions_held(m: DashMap<String, i32>) -> Map<Seq<char>, i32>;

/// A type whose values the maps hold.
pub(crate) trait Held: Copied {
    /// What a map of such values holds.
    spec fn held(m: DashMap<String, Self>) -> Map<Seq<char>, Self::V>;
}

impl Held for Symbol {
    open spec fn held(m: DashMap<String, Symbol>) -> Map<Seq<char>, SymbolView> {
        symbols_held(m)
    }
}

impl Held for NsMeta {
    open spec fn held(m: DashMap<String, NsMeta>) -> Map<Seq<char>, NsMetaView> {
        namespaces_held(m)
    }
}

impl Held for Vec<String> {
    open spec fn held(m: DashMap<String, Vec<String>>) -> Map<Seq<char>, Seq<Seq<char>>> {
        lists_held(m)
    }
}

impl Held for String {
    open spec fn held(m: DashMap<String, String>) -> Map<Seq<char>, Seq<char>> {
        names_held(m)
    }
}

impl Held for Vec<Occurrence> {
    open spec fn held(m: DashMap<String, Vec<Occurrence>>) -> Map<Seq<char>, Seq<OccurrenceView>> {
        usages_held(m)
    }
}

impl Held for u64 {
    open spec fn held(m: DashMap<String, u64>) -> Map<Seq<char>, u64> {
        counts_held(m)
    }
}

impl Held for i32 {
    open spec fn held(m: DashMap<String, i32>) -> Map<Seq<char>, i32> {
        versions_held(m)
    }
}

/// The maps of an index.
pub struct IndexMaps {
    pub symbols: DashMap<String, Symbol>,
    pub namespaces: DashMap<String, NsMeta>,
    pub ns_symbols: DashMap<String, Vec<String>>,
    pub file_to_ns: DashMap<String, String>,
    pub occurrences: DashMap<String, Vec<Occurrence>>,
}

/// `dashmap::DashMap::new`: each map is empty.
#[verifier::external_body]
pub(crate) fn new_index_maps() -> (r: IndexMaps)
    ensures
        (symbols_held(r.symbols) == Map::<Seq<char>, SymbolView>::empty()),
        (namespaces_held(r.namespaces) == Map::<Seq<char>, NsMetaView>::empty()),
        (lists_held(r.ns_symbols) == Map::<Seq<char>, Seq<Seq<char>>>::empty()),
        (names_held(r.file_to_ns) == Map::<Seq<char>, Seq<char>>::empty()),
        (usages_held(r.occurrences) == Map::<Seq<char>, Seq<OccurrenceView>>::empty()),
{
    IndexMaps {
        symbols: DashMap::new(),
        namespaces: DashMap::new(),
        ns_symbols: DashMap::new(),
        file_to_ns: DashMap::new(),
        occurrences: DashMap::new(),
    }
}

/// `dashmap::DashMap::new`, of counters and versions: both maps are empty.
#[verifier::external_body]
pub(crate) fn new_counters() -> (r: (DashMap<String, u64>, DashMap<String, i32>))
    ensures
        (counts_held(r.0) == Map::<Seq<char>, u64>::empty()),
        (versions_held(r.1) == Map::<Seq<char>, i32>::empty()),
{
    (DashMap::new(), DashMap::new())
}

/// `dashmap::DashMap::get`: what the map holds for the key, written out a second time,
/// if it holds the key.
#[verifier::external_body]
pub(crate) fn map_get<T: Held>(m: &DashMap<String, T>, k: &str) -> (r: Option<T>)
    ensures
        r is Some <==> T::held(*m).dom().contains(k@),
        r matches Some(v) ==> v.deep_view() == T::held(*m)[k@],
{
    m.get(k).map(|r| r.copied())
}

/// `dashmap::DashMap::contains_key`: whether the map holds the key.
#[verifier::external_body]
pub(crate) fn map_contains<T: Held>(m: &DashMap<String, T>, k: &str) -> (r: bool)
    ensures
        r == T::held(*m).dom().contains(k@),
{
    m.contains_key(k)
}

/// `dashmap::DashMap::insert`: the key has the value, whatever it had before, and
/// no other key changes.
#[verifier::external_body]
pub(crate) fn map_insert<T: Held>(m: &mut DashMap<String, T>, k: String, v: T)
    ensures
        T::held(*final(m)) == T::held(*old(m)).insert(k@, v.deep_view()),
{
    m.insert(k, v);
}

/// `dashmap::DashMap::remove`: the key is gone, and what it had is returned.
#[verifier::external_body]
pub(crate) fn map_remove<T: Held>(m: &mut DashMap<String, T>, k: &str) -> (r: Option<T>)
    ensures
        T::held(*final(m)) == T::held(*old(m)).remove(k@),
        r is Some <==> T::held(*old(m)).dom().contains(k@),
        r matches Some(v) ==> v.deep_view() == T::held(*old(m))[k@],
{
    m.remove(k).map(|(_, v)| v)
}

/// `dashmap::DashMap::iter`: each key of the map once, in no order that is told.
#[verifier::external_body]
pub(crate) fn map_keys<T: Held>(m: &DashMap<String, T>) -> (r: Vec<String>)
    ensures
        strs(r@).no_duplicates(),
        forall|k: Seq<char>| strs(r@).contains(k) <==> T::held(*m).dom().contains(k),
{
    m.iter().map(|e| e.key().clone()).collect()
}

/// The first `n` keys of `keys`.
pub open spec fn key_set(keys: Seq<Seq<char>>, n: int) -> Set<Seq<char>> {
    Set::new(|k: Seq<char>| exists|i: int| 0 <= i < n && i < keys.len() && keys[i] == k)
}

/// Takes every key of `keys` out of the map.
pub(crate) fn map_remove_all<T: Held>(m: &mut DashMap<String, T>, keys: &Vec<String>)
    ensures
        T::held(*final(m)) == T::held(*old(m)).remove_keys(
            Set::new(|k: Seq<char>| strs(keys@).contains(k)),
        ),
{
    let ghost before = T::held(*m);
    let ghost ks = strs(keys@);
    let mut i: usize = 0;
    assert(before =~= before.remove_keys(key_set(ks, 0)));
    while i < keys.len()
        invariant
            i <= keys@.len(),
            ks == strs(keys@),
            T::held(*m) == before.remove_keys(key_set(ks, i as int)),
        decreases keys@.len() - i,
    {
        let _ = map_remove(m, keys[i].as_str());
        assert(ks[i as int] == keys@[i as int]@);
        assert(key_set(ks, i as int + 1) =~= key_set(ks, i as int).insert(ks[i as int]));
        assert(T::held(*m) =~= before.remove_keys(key_set(ks, i as int + 1)));
        i += 1;
    }
    assert(key_set(ks, ks.len() as int) =~= Set::new(|k: Seq<char>| ks.contains(k)));
}

/// Puts everything that `src` holds into `dst`, over what it had.
pub(crate) fn map_merge<T: Held>(dst: &mut DashMap<String, T>, src: &DashMap<String, T>)
    ensures
        T::held(*final(dst)) == T::held(*old(dst)).union_prefer_right(T::held(*src)),
{
    let ghost before = T::held(*dst);
    let ghost from = T::held(*src);
    let keys = map_keys(src);
    let ghost ks = strs(keys@);
    let mut i: usize = 0;
    assert(before =~= before.union_prefer_right(from.restrict(key_set(ks, 0))));
    while i < keys.len()
        invariant
            i <= keys@.len(),
            ks == strs(keys@),
            from == T::held(*src),
            forall|k: Seq<char>| ks.contains(k) <==> from.dom().contains(k),
            T::held(*dst) == before.union_prefer_right(from.restrict(key_set(ks, i as int))),
        decreases keys@.len() - i,
    {
        assert(ks[i as int] == keys@[i as int]@);
        assert(ks.contains(ks[i as int]));
        if let Some(v) = map_get(src, keys[i].as_str()) {
            map_insert(dst, keys[i].clone(), v);
        }
        assert(key_set(ks, i as int + 1) =~= key_set(ks, i as int).insert(ks[i as int]));
        assert(T::held(*dst) =~= before.union_prefer_right(
            from.restrict(key_set(ks, i as int + 1)),
        ));
        i += 1;
    }
    assert forall|k: Seq<char>| from.dom().contains(k) implies key_set(
        ks,
        ks.len() as int,
    ).contains(k) by {
        assert(ks.contains(k));
    }
    assert(from.restrict(key_set(ks, ks.len() as int)) =~= from);
}

}
