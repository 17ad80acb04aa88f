//! The two multimaps that the grouping stages fill: one keyed by file size,
//! one keyed by file size and digest. Both hold positions.
//!
//! Nothing here is proved. Each function states what the `multimap` crate's
//! source shows of the one method that it calls.

use multimap::MultiMap;
use vstd::prelude::*;

verus! {

/// `multimap::MultiMap`, a hash map from keys to vectors of values. Verus
/// sees nothing inside it; what it holds is named below.
#[verifier::external_type_specification]
#[verifier::external_body]
#[verifier::reject_recursive_types(K)]
#[verifier::reject_recursive_types(V)]
#[verifier::reject_recursive_types(S)]
pub struct ExMultiMap<K, V, S>(MultiMap<K, V, S>);

/// What a size-keyed multimap holds: for each key that is present, the values
/// inserted under it, oldest first.
pub uninterp spec fn size_buckets(map: MultiMap<u64, usize>) -> Map<u64, Seq<usize>>;

/// What a digest-keyed multimap holds: for each key that is present (a size and
/// the characters of a digest), the values inserted under it, oldest first.
pub uninterp spec fn digest_buckets(map: MultiMap<(u64, String), usize>) -> Map<
    (u64, Seq<char>),
    Seq<usize>,
>;

/// `MultiMap::new`: a multimap without keys.
#[verifier::external_body]
pub(crate) fn size_map_new() -> (fresh: MultiMap<u64, usize>)
    ensures
        forall|key: u64| !size_buckets(fresh).contains_key(key),
{
    MultiMap::new()
}

/// `MultiMap::insert`: `value` is pushed onto the vector of `key`; a key that
/// was absent gets a vector holding `value` alone. Other keys are untouched.
#[verifier::external_body]
pub(crate) fn size_map_insert(map: &mut MultiMap<u64, usize>, key: u64, value: usize)
    ensures
        size_buckets(*final(map)) == size_buckets(*old(map)).insert(
            key,
            if size_buckets(*old(map)).contains_key(key) {
                size_buckets(*old(map))[key].push(value)
            } else {
                seq![value]
            },
        ),
{
    map.insert(key, value)
}

/// `MultiMap::get_vec`: the vector of `key`, or `None` where the key is absent.
#[verifier::external_body]
pub(crate) fn size_map_get_vec<'a>(map: &'a MultiMap<u64, usize>, key: u64) -> (found: Option<
    &'a Vec<usize>,
>)
    ensures
        found.is_some() == size_buckets(*map).contains_key(key),
        found.is_some() ==> found.unwrap()@ == size_buckets(*map)[key],
{
    map.get_vec(&key)
}

/// `MultiMap::new`: a multimap without keys.
#[verifier::external_body]
pub(crate) fn digest_map_new() -> (fresh: MultiMap<(u64, String), usize>)
    ensures
        forall|key: (u64, Seq<char>)| !digest_buckets(fresh).contains_key(key),
{
    MultiMap::new()
}

/// `MultiMap::insert`: `value` is pushed onto the vector of `key`; a key that
/// was absent gets a vector holding `value` alone. Other keys are untouched.
#[verifier::external_body]
pub(crate) fn digest_map_insert(
    map: &mut MultiMap<(u64, String), usize>,
    key: (u64, String),
    value: usize,
)
    ensures
        digest_buckets(*final(map)) == digest_buckets(*old(map)).insert(
            (key.0, key.1@),
            if digest_buckets(*old(map)).contains_key((key.0, key.1@)) {
                digest_buckets(*old(map))[(key.0, key.1@)].push(value)
            } else {
                seq![value]
            },
        ),
{
    map.insert(key, value)
}

/// `MultiMap::get_vec`: the vector of `key`, or `None` where the key is absent.
#[verifier::external_body]
pub(crate) fn digest_map_get_vec<'a>(
    map: &'a MultiMap<(u64, String), usize>,
    key: &(u64, String),
) -> (found: Option<&'a Vec<usize>>)
    ensures
        found.is_some() == digest_buckets(*map).contains_key((key.0, key.1@)),
        found.is_some() ==> found.unwrap()@ == digest_buckets(*map)[(key.0, key.1@)],
{
    map.get_vec(key)
}

} // verus!
