//! The second stage: the entries that survived the size filter are grouped by
//! size and digest, and the pairs within each group are listed for comparison.

use crate::grouping::{
    as_ints, first_keys, grouping, lemma_first_keys, lemma_positions_of, positions_of, relabel,
    Bucket,
};
use crate::pairs::{all_pairs, as_int_pairs, pairs_from, pairs_upto, pairs_within};
use crate::multimaps::{digest_buckets, digest_map_get_vec, digest_map_insert, digest_map_new};
use multimap::MultiMap;
use vstd::prelude::*;

verus! {

/// An entry whose content has been digested: its position in the list of
/// entries, its size, and its digest in upper-case hexadecimal.
#[derive(Debug, PartialEq, Eq)]
pub struct HashedEntry {
    pub index: usize,
    pub size: u64,
    pub digest: String,
}

impl HashedEntry {
    /// The record of the entry at `index`, of `size` bytes, with `digest`.
    pub fn new(index: usize, size: u64, digest: String) -> (hashed: HashedEntry)
        ensures
            hashed.index == index,
            hashed.size == size,
            hashed.digest == digest,
    {
        HashedEntry { index, size, digest }
    }
}

/// The entries that share one size and one digest, as positions in the list
/// of entries.
#[derive(Debug, PartialEq, Eq)]
pub struct DigestGroup {
    pub size: u64,
    pub digest: String,
    pub members: Vec<usize>,
}

impl View for DigestGroup {
    type V = Bucket<(u64, Seq<char>)>;

    open spec fn view(&self) -> Bucket<(u64, Seq<char>)> {
        Bucket { key: (self.size, self.digest@), members: as_ints(self.members@) }
    }
}

/// The buckets that a list of digest groups stands for.
pub open spec fn digest_groups_view(groups: Seq<DigestGroup>) -> Seq<Bucket<(u64, Seq<char>)>> {
    Seq::new(groups.len(), |a: int| groups[a]@)
}

/// The key of each record: its size and the characters of its digest. Records
/// of different sizes never share a key, whatever their digests.
pub open spec fn digest_keys(hashed: Seq<HashedEntry>) -> Seq<(u64, Seq<char>)> {
    Seq::new(hashed.len(), |p: int| (hashed[p].size, hashed[p].digest@))
}

/// The entry that each record speaks of.
pub open spec fn hashed_indices(hashed: Seq<HashedEntry>) -> Seq<int> {
    Seq::new(hashed.len(), |p: int| hashed[p].index as int)
}

/// The keys of `order` as the model has them.
spec fn key_views(order: Seq<(u64, String)>) -> Seq<(u64, Seq<char>)> {
    Seq::new(order.len(), |a: int| (order[a].0, order[a].1@))
}

/// The entries that the records at `positions` speak of.
fn entries_at(hashed: &Vec<HashedEntry>, positions: &Vec<usize>) -> (members: Vec<usize>)
    requires
        forall|m: int| 0 <= m < positions@.len() ==> positions@[m] < hashed@.len(),
    ensures
        as_ints(members@) == Seq::new(
            positions@.len(),
            |m: int| hashed_indices(hashed@)[as_ints(positions@)[m]],
        ),
{
    let mut members: Vec<usize> = Vec::new();
    let mut m: usize = 0;
    while m < positions.len()
        invariant
            m <= positions@.len(),
            forall|n: int| 0 <= n < positions@.len() ==> positions@[n] < hashed@.len(),
            members@.len() == m,
            forall|n: int| 0 <= n < m ==> members@[n] == hashed@[positions@[n] as int].index,
        decreases positions.len() - m,
    {
        members.push(hashed[positions[m]].index);
        m += 1;
    }
    members
}

/// Groups the digested entries by size and digest. The groups come in the
/// order in which their key first appears in `hashed`; the members of a group
/// are the entries of its records, in the order of the records.
pub fn group_by_digest(hashed: &Vec<HashedEntry>) -> (groups: Vec<DigestGroup>)
    ensures
        digest_groups_view(groups@) == relabel(
            grouping(digest_keys(hashed@)),
            hashed_indices(hashed@),
        ),
{
    let ghost keys = digest_keys(hashed@);
    let mut map: MultiMap<(u64, String), usize> = digest_map_new();
    let mut order: Vec<(u64, String)> = Vec::new();
    let mut p: usize = 0;
    while p < hashed.len()
        invariant
            p <= hashed.len(),
            keys == digest_keys(hashed@),
            key_views(order@) == first_keys(keys.take(p as int)),
            forall|k: (u64, Seq<char>)| #[trigger]
                digest_buckets(map).contains_key(k) <==> keys.take(p as int).contains(k),
            forall|k: (u64, Seq<char>)| #[trigger]
                digest_buckets(map).contains_key(k) ==> as_ints(digest_buckets(map)[k])
                    == positions_of(keys.take(p as int), k),
        decreases hashed.len() - p,
    {
        let size: u64 = hashed[p].size;
        let key: (u64, String) = (size, hashed[p].digest.clone());
        let ghost spot = (size, key.1@);
        let ghost before = keys.take(p as int);
        let ghost after = keys.take(p + 1);
        let ghost held = digest_buckets(map);
        proof {
            assert(after.drop_last() == before);
            assert(after.last() == spot);
            lemma_positions_of(before, spot);
        }
        if digest_map_get_vec(&map, &key).is_none() {
            let ghost listed = order@;
            order.push((size, hashed[p].digest.clone()));
            proof {
                assert(key_views(order@) == key_views(listed).push(spot));
                let old_positions = positions_of(before, spot);
                if old_positions.len() > 0 {
                    assert(old_positions.contains(old_positions[0]));
                }
            }
        }
        digest_map_insert(&mut map, key, p);
        proof {
            assert forall|k: (u64, Seq<char>)| #[trigger]
                digest_buckets(map).contains_key(k) <==> after.contains(k) by {
                if after.contains(k) {
                    let j = choose|j: int| 0 <= j < after.len() && after[j] == k;
                    if j < p {
                        assert(before[j] == k);
                    }
                }
                if held.contains_key(k) {
                    let j = choose|j: int| 0 <= j < before.len() && before[j] == k;
                    assert(after[j] == k);
                }
                if k == spot {
                    assert(after[p as int] == k);
                }
            }
            assert forall|k: (u64, Seq<char>)| #[trigger]
                digest_buckets(map).contains_key(k) implies as_ints(digest_buckets(map)[k])
                == positions_of(after, k) by {
                if k == spot {
                    if held.contains_key(k) {
                        assert(as_ints(held[k].push(p)) == as_ints(held[k]).push(p as int));
                    } else {
                        assert(as_ints(seq![p]) == Seq::<int>::empty().push(p as int));
                    }
                }
            }
        }
        p += 1;
    }
    proof {
        assert(keys.take(hashed.len() as int) == keys);
        lemma_first_keys(keys);
    }
    let ghost model = relabel(grouping(keys), hashed_indices(hashed@));
    let mut groups: Vec<DigestGroup> = Vec::new();
    let mut a: usize = 0;
    while a < order.len()
        invariant
            a <= order.len(),
            keys == digest_keys(hashed@),
            model == relabel(grouping(keys), hashed_indices(hashed@)),
            key_views(order@) == first_keys(keys),
            forall|k: (u64, Seq<char>)| #[trigger]
                digest_buckets(map).contains_key(k) <==> keys.contains(k),
            forall|k: (u64, Seq<char>)| #[trigger]
                digest_buckets(map).contains_key(k) ==> as_ints(digest_buckets(map)[k])
                    == positions_of(keys, k),
            forall|k: (u64, Seq<char>)| #[trigger]
                first_keys(keys).contains(k) <==> keys.contains(k),
            groups@.len() == a,
            forall|b: int| 0 <= b < a ==> (#[trigger] groups@[b])@ == model[b],
        decreases order.len() - a,
    {
        let key = &order[a];
        let ghost spot = (key.0, key.1@);
        proof {
            assert(key_views(order@)[a as int] == spot);
            assert(first_keys(keys).contains(spot));
            lemma_positions_of(keys, spot);
        }
        match digest_map_get_vec(&map, key) {
            Some(positions) => {
                proof {
                    assert forall|m: int| 0 <= m < positions@.len() implies positions@[m]
                        < hashed@.len() by {
                        assert(as_ints(positions@)[m] == positions@[m]);
                        assert(positions_of(keys, spot).contains(as_ints(positions@)[m]));
                    }
                }
                let members = entries_at(hashed, positions);
                groups.push(DigestGroup { size: key.0, digest: key.1.clone(), members });
                proof {
                    assert(as_ints(members@) == model[a as int].members);
                }
            },
            None => {
                proof {
                    assert(false);
                }
            },
        }
        a += 1;
    }
    assert(digest_groups_view(groups@) == model);
    groups
}

/// The pairs that have to be compared: within each group every two members,
/// the earlier first; group after group. A group of one yields nothing.
pub fn candidate_pairs(groups: &Vec<DigestGroup>) -> (pairs: Vec<(usize, usize)>)
    ensures
        as_int_pairs(pairs@) == all_pairs(digest_groups_view(groups@)),
{
    let ghost buckets = digest_groups_view(groups@);
    let mut pairs: Vec<(usize, usize)> = Vec::new();
    let mut a: usize = 0;
    while a < groups.len()
        invariant
            a <= groups.len(),
            buckets == digest_groups_view(groups@),
            as_int_pairs(pairs@) == all_pairs(buckets.take(a as int)),
        decreases groups.len() - a,
    {
        let members = &groups[a].members;
        let ghost ints = as_ints(members@);
        let ghost base = as_int_pairs(pairs@);
        proof {
            assert(buckets.take(a + 1).drop_last() == buckets.take(a as int));
            assert(buckets.take(a + 1).last().members == ints);
        }
        let count: usize = members.len();
        if count > 1 {
            let mut i: usize = 0;
            while i < count
                invariant
                    i <= count,
                    count == members@.len(),
                    ints == as_ints(members@),
                    as_int_pairs(pairs@) == base + pairs_upto(ints, i as int),
                decreases count - i,
            {
                let ghost row = as_int_pairs(pairs@);
                let mut j: usize = i + 1;
                while j < count
                    invariant
                        i < j <= count,
                        count == members@.len(),
                        ints == as_ints(members@),
                        as_int_pairs(pairs@) == row + pairs_from(ints, i as int).take(j - i - 1),
                    decreases count - j,
                {
                    let ghost prior = pairs@;
                    pairs.push((members[i], members[j]));
                    proof {
                        let next = (ints[i as int], ints[j as int]);
                        assert(as_int_pairs(prior.push((members@[i as int], members@[j as int])))
                            == as_int_pairs(prior).push(next));
                        assert(pairs_from(ints, i as int).take(j - i) == pairs_from(
                            ints,
                            i as int,
                        ).take(j - i - 1).push(next));
                        assert((row + pairs_from(ints, i as int).take(j - i - 1)).push(next) == row
                            + pairs_from(ints, i as int).take(j - i - 1).push(next));
                    }
                    j += 1;
                }
                proof {
                    assert(pairs_from(ints, i as int).take(count - i - 1) == pairs_from(
                        ints,
                        i as int,
                    ));
                    assert((base + pairs_upto(ints, i as int)) + pairs_from(ints, i as int) == base
                        + (pairs_upto(ints, i as int) + pairs_from(ints, i as int)));
                }
                i += 1;
            }
        } else {
            proof {
                assert(pairs_upto(ints, 0) == Seq::<(int, int)>::empty());
                if count == 1 {
                    assert(pairs_from(ints, 0) == Seq::<(int, int)>::empty());
                    assert(pairs_upto(ints, 1) == pairs_upto(ints, 0) + pairs_from(ints, 0));
                }
                assert(pairs_within(ints) == Seq::<(int, int)>::empty());
            }
        }
        a += 1;
    }
    assert(buckets.take(groups.len() as int) == buckets);
    pairs
}

} // verus!
