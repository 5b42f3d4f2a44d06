//! `ahash` collections: the outside types, names for their contents, and the calls that the
//! library makes on them.

use ahash::{AHashMap, AHashSet};
use vstd::prelude::*;

verus! {

#[verifier::external_type_specification]
#[verifier::external_body]
pub struct ExRandomState(ahash::RandomState);

#[verifier::external_type_specification]
#[verifier::external_body]
#[verifier::reject_recursive_types(K)]
#[verifier::reject_recursive_types(V)]
#[verifier::reject_recursive_types(S)]
pub struct ExAHashMap<K, V, S>(ahash::AHashMap<K, V, S>);

#[verifier::external_type_specification]
#[verifier::external_body]
#[verifier::reject_recursive_types(T)]
#[verifier::reject_recursive_types(S)]
pub struct ExAHashSet<T, S>(ahash::AHashSet<T, S>);

/// What a map from 32-bit keys to 32-bit values holds.
pub uninterp spec fn words(m: AHashMap<u32, u32>) -> Map<u32, u32>;

/// What a map from (instance, chunk) to (scale bits, pass) holds.
pub uninterp spec fn wants(m: AHashMap<(u8, u32), (u32, u32)>) -> Map<(u8, u32), (u32, u32)>;

/// What a set of pairs holds.
pub uninterp spec fn pairs(s: AHashSet<(u32, u32)>) -> Set<(u32, u32)>;

/// The sequence lists exactly the pairs of the map, no key twice.
pub open spec fn lists<K, V>(s: Seq<(K, V)>, m: Map<K, V>) -> bool {
    &&& forall|i: int|
        0 <= i < s.len() ==> m.contains_key((#[trigger] s[i]).0) && m[s[i].0] == s[i].1
    &&& forall|k: K| #[trigger]
        m.contains_key(k) ==> exists|i: int| 0 <= i < s.len() && (#[trigger] s[i]).0 == k
    &&& forall|i: int, j: int|
        0 <= i < j < s.len() ==> (#[trigger] s[i]).0 != (#[trigger] s[j]).0
}

/// `AHashMap::new`: an empty map.
#[verifier::external_body]
pub(crate) fn words_new() -> (r: AHashMap<u32, u32>)
    ensures
        words(r) == (Map::<u32, u32>::empty()),
{
    AHashMap::new()
}

/// `AHashMap::get`: the value under the key, if there is one.
#[verifier::external_body]
pub(crate) fn words_get(m: &AHashMap<u32, u32>, k: u32) -> (r: Option<u32>)
    ensures
        r == (if words(*m).contains_key(k) {
            Some(words(*m)[k])
        } else {
            None
        }),
{
    m.get(&k).copied()
}

/// `AHashMap::insert`: the key gets the value, whatever it had before.
#[verifier::external_body]
pub(crate) fn words_insert(m: &mut AHashMap<u32, u32>, k: u32, v: u32)
    ensures
        words(*final(m)) == words(*old(m)).insert(k, v),
{
    m.insert(k, v);
}

/// `AHashMap::remove`: the key is gone, the others stay.
#[verifier::external_body]
pub(crate) fn words_remove(m: &mut AHashMap<u32, u32>, k: u32)
    ensures
        words(*final(m)) == words(*old(m)).remove(k),
{
    m.remove(&k);
}

/// `HashMap::iter`, which `AHashMap` derefs to: every pair once. The order depends on the
/// hasher's seed, and nothing is said of it.
#[verifier::external_body]
pub(crate) fn words_entries(m: &AHashMap<u32, u32>) -> (r: Vec<(u32, u32)>)
    ensures
        lists(r@, words(*m)),
{
    m.iter().map(|(k, v)| (*k, *v)).collect()
}

/// `AHashMap::new`: an empty map.
#[verifier::external_body]
pub(crate) fn wants_new() -> (r: AHashMap<(u8, u32), (u32, u32)>)
    ensures
        wants(r) == (Map::<(u8, u32), (u32, u32)>::empty()),
{
    AHashMap::new()
}

/// `AHashMap::get`: the value under the key, if there is one.
#[verifier::external_body]
pub(crate) fn wants_get(m: &AHashMap<(u8, u32), (u32, u32)>, k: (u8, u32)) -> (r: Option<
    (u32, u32),
>)
    ensures
        r == (if wants(*m).contains_key(k) {
            Some(wants(*m)[k])
        } else {
            None
        }),
{
    m.get(&k).copied()
}

/// `AHashMap::insert`: the key gets the value, whatever it had before.
#[verifier::external_body]
pub(crate) fn wants_insert(
    m: &mut AHashMap<(u8, u32), (u32, u32)>,
    k: (u8, u32),
    v: (u32, u32),
)
    ensures
        wants(*final(m)) == wants(*old(m)).insert(k, v),
{
    m.insert(k, v);
}

/// `AHashMap::remove`: the key is gone, the others stay.
#[verifier::external_body]
pub(crate) fn wants_remove(m: &mut AHashMap<(u8, u32), (u32, u32)>, k: (u8, u32))
    ensures
        wants(*final(m)) == wants(*old(m)).remove(k),
{
    m.remove(&k);
}

/// `HashMap::clear`, which `AHashMap` derefs to: nothing is left.
#[verifier::external_body]
pub(crate) fn wants_clear(m: &mut AHashMap<(u8, u32), (u32, u32)>)
    ensures
        wants(*final(m)) == (Map::<(u8, u32), (u32, u32)>::empty()),
{
    m.clear();
}

/// `HashMap::iter`, which `AHashMap` derefs to: every pair once. The order depends on the
/// hasher's seed, and nothing is said of it.
#[verifier::external_body]
pub(crate) fn wants_entries(m: &AHashMap<(u8, u32), (u32, u32)>) -> (r: Vec<
    ((u8, u32), (u32, u32)),
>)
    ensures
        lists(r@, wants(*m)),
{
    m.iter().map(|(k, v)| (*k, *v)).collect()
}

/// `AHashSet::new`: an empty set.
#[verifier::external_body]
pub(crate) fn pairs_new() -> (r: AHashSet<(u32, u32)>)
    ensures
        pairs(r) == (Set::<(u32, u32)>::empty()),
{
    AHashSet::new()
}

/// `HashSet::insert`, which `AHashSet` derefs to: the item is in, and the result says whether
/// it is new.
#[verifier::external_body]
pub(crate) fn pairs_insert(s: &mut AHashSet<(u32, u32)>, k: (u32, u32)) -> (r: bool)
    ensures
        pairs(*final(s)) == pairs(*old(s)).insert(k),
        r == !pairs(*old(s)).contains(k),
{
    s.insert(k)
}

/// `HashSet::clear`, which `AHashSet` derefs to: nothing is left.
#[verifier::external_body]
pub(crate) fn pairs_clear(s: &mut AHashSet<(u32, u32)>)
    ensures
        pairs(*final(s)) == (Set::<(u32, u32)>::empty()),
{
    s.clear();
}

} // verus!
