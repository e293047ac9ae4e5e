use vstd::prelude::*;
use patricia_tree::{PatriciaMap, PatriciaSet};

verus! {

/// Directory path to the ordinal of an input entry.
pub type DirMap = PatriciaMap<u64>;

#[verifier::external_type_specification]
#[verifier::external_body]
#[verifier::reject_recursive_types(K)]
#[verifier::reject_recursive_types(V)]
pub struct ExGenericPatriciaMap<K, V>(patricia_tree::GenericPatriciaMap<K, V>);

#[verifier::external_type_specification]
#[verifier::external_body]
#[verifier::reject_recursive_types(T)]
pub struct ExGenericPatriciaSet<T>(patricia_tree::GenericPatriciaSet<T>);

/// What a directory map holds: directory path to the ordinal of the input
/// entry that last described it.
pub uninterp spec fn dir_map_contents(m: DirMap) -> Map<Seq<u8>, u64>;

/// What a set of directory paths holds.
pub uninterp spec fn dir_set_contents(s: PatriciaSet) -> Set<Seq<u8>>;

/// The map with no directory.
pub open spec fn empty_dir_map() -> Map<Seq<u8>, u64> {
    Map::empty()
}

/// The entries of `m` whose key is one of the first `n` prefixes of `key`
/// (the prefixes of length `0 .. n`), shortest key first.
pub open spec fn prefix_hits(m: Map<Seq<u8>, u64>, key: Seq<u8>, n: nat) -> Seq<(Seq<u8>, u64)>
    decreases n,
{
    if n == 0 {
        Seq::empty()
    } else {
        let prev = prefix_hits(m, key, (n - 1) as nat);
        let k = key.subrange(0, n - 1);
        if m.contains_key(k) {
            prev.push((k, m[k]))
        } else {
            prev
        }
    }
}

/// The entries of `m` whose key is a prefix of `key` (`key` itself
/// included), shortest key first.
pub open spec fn common_prefixes_of(m: Map<Seq<u8>, u64>, key: Seq<u8>) -> Seq<(Seq<u8>, u64)> {
    prefix_hits(m, key, key.len() + 1)
}

/// Relies on `PatriciaMap::new`: a new map is empty.
#[verifier::external_body]
pub(crate) fn dir_map_new() -> (r: DirMap)
    ensures
        dir_map_contents(r) == empty_dir_map(),
{
    PatriciaMap::new()
}

/// Relies on `PatriciaMap::insert`: the key now maps to the value, any
/// earlier value of it replaced, the other keys untouched.
#[verifier::external_body]
pub(crate) fn dir_map_insert(m: &mut DirMap, key: &[u8], value: u64)
    ensures
        dir_map_contents(*final(m)) == dir_map_contents(*old(m)).insert(key@, value),
{
    m.insert(key, value);
}

/// Relies on `PatriciaMap::common_prefixes`: every entry whose key is a
/// prefix of `key`, in the order of increasing key length.
#[verifier::external_body]
pub(crate) fn dir_map_common_prefixes(m: &DirMap, key: &[u8]) -> (r: Vec<(Vec<u8>, u64)>)
    ensures
        r.deep_view() == common_prefixes_of(dir_map_contents(*m), key@),
{
    m.common_prefixes(key).map(|(k, v)| (k.to_vec(), *v)).collect()
}

/// Relies on `PatriciaSet::new`: a new set is empty.
#[verifier::external_body]
pub(crate) fn dir_set_new() -> (r: PatriciaSet)
    ensures
        dir_set_contents(r) == Set::<Seq<u8>>::empty(),
{
    PatriciaSet::new()
}

/// Relies on `PatriciaSet::contains`: whether the path is in the set.
#[verifier::external_body]
pub(crate) fn dir_set_contains(s: &PatriciaSet, key: &[u8]) -> (r: bool)
    ensures
        r == dir_set_contents(*s).contains(key@),
{
    s.contains(key)
}

/// Relies on `PatriciaSet::insert`: the path is added, the others kept.
#[verifier::external_body]
pub(crate) fn dir_set_insert(s: &mut PatriciaSet, key: &[u8])
    ensures
        dir_set_contents(*final(s)) == dir_set_contents(*old(s)).insert(key@),
{
    s.insert(key);
}

} // verus!
