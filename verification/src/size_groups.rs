//! The first stage: entries are grouped by their length in bytes. Only groups
//! of two or more entries can hold duplicates and are handed on.

use crate::entry::{sizes_of, FileEntry};
use crate::grouping::{
    as_ints, first_keys, grouping, lemma_first_keys, lemma_positions_of, positions_of, survivors,
    Bucket,
};
use crate::multimaps::{size_buckets, size_map_get_vec, size_map_insert, size_map_new};
use multimap::MultiMap;
use vstd::prelude::*;

verus! {

/// The entries that share one size, as positions in the list of entries,
/// ascending.
#[derive(Debug, PartialEq, Eq)]
pub struct SizeGroup {
    pub size: u64,
    pub members: Vec<usize>,
}

impl View for SizeGroup {
    type V = Bucket<u64>;

    open spec fn view(&self) -> Bucket<u64> {
        Bucket { key: self.size, members: as_ints(self.members@) }
    }
}

/// The buckets that a list of size groups stands for.
pub open spec fn size_groups_view(groups: Seq<SizeGroup>) -> Seq<Bucket<u64>> {
    Seq::new(groups.len(), |a: int| groups[a]@)
}

/// A copy of `source`.
pub(crate) fn copy_positions(source: &Vec<usize>) -> (copy: Vec<usize>)
    ensures
        copy@ == source@,
{
    let mut copy: Vec<usize> = Vec::new();
    let mut i: usize = 0;
    while i < source.len()
        invariant
            i <= source.len(),
            copy@ == source@.take(i as int),
        decreases source.len() - i,
    {
        copy.push(source[i]);
        assert(source@.take(i + 1) == source@.take(i as int).push(source@[i as int]));
        i += 1;
    }
    assert(source@.take(source.len() as int) == source@);
    copy
}

/// Groups `entries` by size. The groups come in the order in which their sizes
/// first appear in `entries`; the members of a group are the positions of the
/// entries of that size, ascending.
pub fn group_by_size(entries: &Vec<FileEntry>) -> (groups: Vec<SizeGroup>)
    ensures
        size_groups_view(groups@) == grouping(sizes_of(entries@)),
{
    let mut sizes: Vec<u64> = Vec::new();
    let mut i: usize = 0;
    while i < entries.len()
        invariant
            i <= entries.len(),
            sizes@ == sizes_of(entries@).take(i as int),
        decreases entries.len() - i,
    {
        sizes.push(entries[i].size);
        assert(sizes_of(entries@).take(i + 1) == sizes_of(entries@).take(i as int).push(
            entries@[i as int].size,
        ));
        i += 1;
    }
    assert(sizes_of(entries@).take(entries.len() as int) == sizes_of(entries@));
    group_sizes(&sizes)
}

/// Groups the positions of `sizes` by the size that stands there.
pub(crate) fn group_sizes(sizes: &Vec<u64>) -> (groups: Vec<SizeGroup>)
    ensures
        size_groups_view(groups@) == grouping(sizes@),
{
    let ghost keys = sizes@;
    let mut map: MultiMap<u64, usize> = size_map_new();
    let mut order: Vec<u64> = Vec::new();
    let mut i: usize = 0;
    while i < sizes.len()
        invariant
            i <= sizes.len(),
            keys == sizes@,
            order@ == first_keys(keys.take(i as int)),
            forall|k: u64| #[trigger]
                size_buckets(map).contains_key(k) <==> keys.take(i as int).contains(k),
            forall|k: u64| #[trigger]
                size_buckets(map).contains_key(k) ==> as_ints(size_buckets(map)[k]) == positions_of(
                    keys.take(i as int),
                    k,
                ),
        decreases sizes.len() - i,
    {
        let size: u64 = sizes[i];
        let ghost before = keys.take(i as int);
        let ghost after = keys.take(i + 1);
        let ghost held = size_buckets(map);
        proof {
            assert(after.drop_last() == before);
            assert(after.last() == size);
            lemma_positions_of(before, size);
        }
        if size_map_get_vec(&map, size).is_none() {
            order.push(size);
            proof {
                let old_positions = positions_of(before, size);
                if old_positions.len() > 0 {
                    assert(old_positions.contains(old_positions[0]));
                }
            }
        }
        size_map_insert(&mut map, size, i);
        proof {
            assert forall|k: u64| #[trigger]
                size_buckets(map).contains_key(k) <==> after.contains(k) by {
                if after.contains(k) {
                    let j = choose|j: int| 0 <= j < after.len() && after[j] == k;
                    if j < i {
                        assert(before[j] == k);
                    }
                }
                if held.contains_key(k) {
                    let j = choose|j: int| 0 <= j < before.len() && before[j] == k;
                    assert(after[j] == k);
                }
                if k == size {
                    assert(after[i as int] == k);
                }
            }
            assert forall|k: u64| #[trigger]
                size_buckets(map).contains_key(k) implies as_ints(size_buckets(map)[k])
                == positions_of(after, k) by {
                if k == size {
                    if held.contains_key(k) {
                        assert(as_ints(held[k].push(i)) == as_ints(held[k]).push(i as int));
                    } else {
                        assert(as_ints(seq![i]) == Seq::<int>::empty().push(i as int));
                    }
                }
            }
        }
        i += 1;
    }
    proof {
        assert(keys.take(sizes.len() as int) == keys);
        lemma_first_keys(keys);
    }
    let mut groups: Vec<SizeGroup> = Vec::new();
    let mut a: usize = 0;
    while a < order.len()
        invariant
            a <= order.len(),
            order@ == first_keys(keys),
            forall|k: u64| #[trigger] size_buckets(map).contains_key(k) <==> keys.contains(k),
            forall|k: u64| #[trigger]
                size_buckets(map).contains_key(k) ==> as_ints(size_buckets(map)[k]) == positions_of(
                    keys,
                    k,
                ),
            forall|k: u64| #[trigger] first_keys(keys).contains(k) <==> keys.contains(k),
            groups@.len() == a,
            forall|b: int| 0 <= b < a ==> (#[trigger] groups@[b])@ == grouping(keys)[b],
        decreases order.len() - a,
    {
        let size: u64 = order[a];
        proof {
            assert(first_keys(keys).contains(order@[a as int]));
        }
        match size_map_get_vec(&map, size) {
            Some(members) => {
                groups.push(SizeGroup { size, members: copy_positions(members) });
            },
            None => {
                proof {
                    assert(false);
                }
            },
        }
        a += 1;
    }
    assert(size_groups_view(groups@) == grouping(keys));
    groups
}

/// The entries that have to be digested: the members of every group of two or
/// more, group after group, in the order in which they are to be read.
pub fn hash_candidates(groups: &Vec<SizeGroup>) -> (candidates: Vec<usize>)
    ensures
        as_ints(candidates@) == survivors(size_groups_view(groups@)),
{
    let ghost buckets = size_groups_view(groups@);
    let mut candidates: Vec<usize> = Vec::new();
    let mut a: usize = 0;
    while a < groups.len()
        invariant
            a <= groups.len(),
            buckets == size_groups_view(groups@),
            as_ints(candidates@) == survivors(buckets.take(a as int)),
        decreases groups.len() - a,
    {
        let members = &groups[a].members;
        proof {
            assert(buckets.take(a + 1).drop_last() == buckets.take(a as int));
            assert(buckets.take(a + 1).last() == groups@[a as int]@);
        }
        if members.len() > 1 {
            let ghost base = candidates@;
            let mut m: usize = 0;
            while m < members.len()
                invariant
                    m <= members.len(),
                    as_ints(candidates@) == as_ints(base) + as_ints(members@).take(m as int),
                decreases members.len() - m,
            {
                let ghost prior = candidates@;
                candidates.push(members[m]);
                proof {
                    let next = members@[m as int] as int;
                    assert(as_ints(prior.push(members@[m as int])) == as_ints(prior).push(next));
                    assert(as_ints(members@).take(m + 1) == as_ints(members@).take(m as int).push(
                        next,
                    ));
                    assert((as_ints(base) + as_ints(members@).take(m as int)).push(next) == as_ints(
                        base,
                    ) + as_ints(members@).take(m as int).push(next));
                }
                m += 1;
            }
            assert(as_ints(members@).take(members.len() as int) == as_ints(members@));
        }
        a += 1;
    }
    assert(buckets.take(groups.len() as int) == buckets);
    candidates
}

} // verus!
