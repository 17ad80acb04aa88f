//! The pairs that a list of buckets yields: within each bucket every two
//! members, the earlier first, bucket after bucket.

use crate::grouping::{
    first_keys, grouping, is_bucket_of, lemma_first_keys, lemma_grouping, lemma_positions_of,
    positions_of, relabel, Bucket,
};
use vstd::prelude::*;

verus! {

/// The pairs that member `i` forms with each later member, nearest first.
pub open spec fn pairs_from(members: Seq<int>, i: int) -> Seq<(int, int)> {
    Seq::new((members.len() - i - 1) as nat, |d: int| (members[i], members[i + 1 + d]))
}

/// The pairs whose first member is among the first `n` members.
pub open spec fn pairs_upto(members: Seq<int>, n: int) -> Seq<(int, int)>
    decreases n,
{
    if n <= 0 {
        Seq::empty()
    } else {
        pairs_upto(members, n - 1) + pairs_from(members, n - 1)
    }
}

/// Every pair of two members, the earlier member first: the pairs of the
/// first member, then those of the second, and so on.
pub open spec fn pairs_within(members: Seq<int>) -> Seq<(int, int)> {
    pairs_upto(members, members.len() as int)
}

/// The pairs within each bucket, bucket after bucket.
pub open spec fn all_pairs<K>(buckets: Seq<Bucket<K>>) -> Seq<(int, int)>
    decreases buckets.len(),
{
    if buckets.len() == 0 {
        Seq::empty()
    } else {
        all_pairs(buckets.drop_last()) + pairs_within(buckets.last().members)
    }
}

/// The pairs of `s` as pairs of mathematical integers.
pub open spec fn as_int_pairs(s: Seq<(usize, usize)>) -> Seq<(int, int)> {
    Seq::new(s.len(), |i: int| (s[i].0 as int, s[i].1 as int))
}

/// Whether `pair` is made of two members of which the first stands among the
/// first `n` and before the second.
pub open spec fn paired_before(members: Seq<int>, n: int, pair: (int, int)) -> bool {
    exists|i: int, j: int|
        0 <= i < n && i < j < members.len() && #[trigger] members[i] == pair.0
            && #[trigger] members[j] == pair.1
}

/// Whether `pair` is made of two members, the earlier first.
pub open spec fn paired_in(members: Seq<int>, pair: (int, int)) -> bool {
    paired_before(members, members.len() as int, pair)
}

/// Whether `pair` is made of two members of one of the buckets, the earlier
/// first.
pub open spec fn paired_in_some<K>(buckets: Seq<Bucket<K>>, pair: (int, int)) -> bool {
    exists|a: int| 0 <= a < buckets.len() && paired_in(#[trigger] buckets[a].members, pair)
}

/// Whether `pair` is made of the labels of two positions of one key, the
/// earlier position first.
pub open spec fn linked<K>(keys: Seq<K>, labels: Seq<int>, pair: (int, int)) -> bool {
    exists|p: int, q: int|
        0 <= p < q < keys.len() && keys[p] == keys[q] && #[trigger] labels[p] == pair.0
            && #[trigger] labels[q] == pair.1
}

/// Whether no member stands twice in `buckets`, neither within a bucket nor in
/// two of them.
pub open spec fn disjoint_buckets<K>(buckets: Seq<Bucket<K>>) -> bool {
    &&& forall|a: int| 0 <= a < buckets.len() ==> (#[trigger] buckets[a]).members.no_duplicates()
    &&& forall|a: int, b: int, i: int, j: int|
        0 <= a < b < buckets.len() && 0 <= i < buckets[a].members.len() && 0 <= j
            < buckets[b].members.len() ==> #[trigger] buckets[a].members[i]
            != #[trigger] buckets[b].members[j]
}

/// `pairs_upto(members, n)` holds exactly the pairs whose first member is among
/// the first `n`.
pub proof fn lemma_pairs_upto(members: Seq<int>, n: int)
    requires
        0 <= n <= members.len(),
    ensures
        forall|pair: (int, int)| #[trigger]
            pairs_upto(members, n).contains(pair) <==> paired_before(members, n, pair),
    decreases n,
{
    let here = pairs_upto(members, n);
    if n == 0 {
        assert forall|pair: (int, int)| #[trigger]
            here.contains(pair) <==> paired_before(members, n, pair) by {}
    } else {
        let earlier = pairs_upto(members, n - 1);
        let row = pairs_from(members, n - 1);
        lemma_pairs_upto(members, n - 1);
        assert(here == earlier + row);
        assert forall|pair: (int, int)| #[trigger]
            here.contains(pair) <==> paired_before(members, n, pair) by {
            if here.contains(pair) {
                let k = choose|k: int| 0 <= k < here.len() && here[k] == pair;
                if k < earlier.len() {
                    assert(earlier[k] == pair);
                    assert(earlier.contains(pair));
                    assert(paired_before(members, n - 1, pair));
                    let (i, j) = choose|i: int, j: int|
                        0 <= i < n - 1 && i < j < members.len() && #[trigger] members[i] == pair.0
                            && #[trigger] members[j] == pair.1;
                    assert(0 <= i < n && i < j < members.len() && members[i] == pair.0 && members[j]
                        == pair.1);
                } else {
                    let d = k - earlier.len();
                    assert(row[d] == pair);
                    assert(members[n - 1] == pair.0 && members[n + d] == pair.1);
                }
                assert(paired_before(members, n, pair));
            }
            if paired_before(members, n, pair) {
                let (i, j) = choose|i: int, j: int|
                    0 <= i < n && i < j < members.len() && #[trigger] members[i] == pair.0
                        && #[trigger] members[j] == pair.1;
                if i < n - 1 {
                    assert(paired_before(members, n - 1, pair));
                    assert(earlier.contains(pair));
                    let k = choose|k: int| 0 <= k < earlier.len() && earlier[k] == pair;
                    assert(here[k] == pair);
                } else {
                    let d = j - n;
                    assert(row[d] == pair);
                    assert(here[earlier.len() + d] == pair);
                }
            }
        }
    }
}

/// `all_pairs(buckets)` holds exactly the pairs of two members of one bucket,
/// the earlier first.
pub proof fn lemma_all_pairs<K>(buckets: Seq<Bucket<K>>)
    ensures
        forall|pair: (int, int)| #[trigger]
            all_pairs(buckets).contains(pair) <==> paired_in_some(buckets, pair),
    decreases buckets.len(),
{
    let here = all_pairs(buckets);
    if buckets.len() == 0 {
        assert forall|pair: (int, int)| #[trigger]
            here.contains(pair) <==> paired_in_some(buckets, pair) by {}
    } else {
        let front = buckets.drop_last();
        let earlier = all_pairs(front);
        let members = buckets.last().members;
        let row = pairs_within(members);
        let n = buckets.len() - 1;
        lemma_all_pairs(front);
        lemma_pairs_upto(members, members.len() as int);
        assert forall|pair: (int, int)| #[trigger]
            here.contains(pair) <==> paired_in_some(buckets, pair) by {
            if here.contains(pair) {
                let k = choose|k: int| 0 <= k < here.len() && here[k] == pair;
                if k < earlier.len() {
                    assert(earlier[k] == pair);
                    assert(earlier.contains(pair));
                    assert(paired_in_some(front, pair));
                    let a = choose|a: int|
                        0 <= a < front.len() && paired_in(#[trigger] front[a].members, pair);
                    assert(paired_in(buckets[a].members, pair));
                } else {
                    assert(row[k - earlier.len()] == pair);
                    assert(row.contains(pair));
                    assert(paired_in(buckets[n].members, pair));
                }
            }
            if paired_in_some(buckets, pair) {
                let a = choose|a: int|
                    0 <= a < buckets.len() && paired_in(#[trigger] buckets[a].members, pair);
                if a < n {
                    assert(paired_in(front[a].members, pair));
                    assert(paired_in_some(front, pair));
                    assert(earlier.contains(pair));
                    let k = choose|k: int| 0 <= k < earlier.len() && earlier[k] == pair;
                    assert(here[k] == pair);
                } else {
                    assert(row.contains(pair));
                    let k = choose|k: int| 0 <= k < row.len() && row[k] == pair;
                    assert(here[earlier.len() + k] == pair);
                }
            }
        }
    }
}

/// The pairs within the relabelled buckets of `keys` are exactly the pairs of
/// labels of two positions that share a key, the earlier position first.
pub proof fn lemma_relabelled_pairs<K>(keys: Seq<K>, labels: Seq<int>)
    requires
        labels.len() == keys.len(),
    ensures
        forall|pair: (int, int)| #[trigger]
            all_pairs(relabel(grouping(keys), labels)).contains(pair) <==> linked(
                keys,
                labels,
                pair,
            ),
{
    let heads = first_keys(keys);
    let plain = grouping(keys);
    let buckets = relabel(plain, labels);
    lemma_all_pairs(buckets);
    lemma_first_keys(keys);
    assert forall|pair: (int, int)| #[trigger]
        all_pairs(buckets).contains(pair) <==> linked(keys, labels, pair) by {
        if all_pairs(buckets).contains(pair) {
            assert(paired_in_some(buckets, pair));
            let a = choose|a: int|
                0 <= a < buckets.len() && paired_in(#[trigger] buckets[a].members, pair);
            let members = buckets[a].members;
            let (i, j) = choose|i: int, j: int|
                0 <= i < members.len() && i < j < members.len() && #[trigger] members[i] == pair.0
                    && #[trigger] members[j] == pair.1;
            let spots = positions_of(keys, heads[a]);
            lemma_positions_of(keys, heads[a]);
            assert(plain[a].members == spots);
            assert(spots.contains(spots[i]));
            assert(spots.contains(spots[j]));
            assert(members[i] == labels[spots[i]]);
            assert(members[j] == labels[spots[j]]);
            assert(0 <= spots[i] < spots[j] < keys.len() && keys[spots[i]] == keys[spots[j]]
                && labels[spots[i]] == pair.0 && labels[spots[j]] == pair.1);
        }
        if linked(keys, labels, pair) {
            let (p, q) = choose|p: int, q: int|
                0 <= p < q < keys.len() && keys[p] == keys[q] && #[trigger] labels[p] == pair.0
                    && #[trigger] labels[q] == pair.1;
            let key = keys[p];
            assert(keys.contains(key));
            assert(heads.contains(key));
            let a = choose|a: int| 0 <= a < heads.len() && heads[a] == key;
            let spots = positions_of(keys, key);
            lemma_positions_of(keys, key);
            assert(spots.contains(p));
            assert(spots.contains(q));
            let i = choose|i: int| 0 <= i < spots.len() && spots[i] == p;
            let j = choose|j: int| 0 <= j < spots.len() && spots[j] == q;
            if j < i {
                assert(spots[j] < spots[i]);
            }
            assert(plain[a].members == spots);
            let members = buckets[a].members;
            assert(members[i] == labels[spots[i]]);
            assert(members[j] == labels[spots[j]]);
            assert(0 <= i < members.len() && i < j < members.len() && members[i] == pair.0
                && members[j] == pair.1);
            assert(paired_in(buckets[a].members, pair));
            assert(paired_in_some(buckets, pair));
        }
    }
}

/// Members that are all different form pairs that are all different.
pub proof fn lemma_pairs_upto_distinct(members: Seq<int>, n: int)
    requires
        members.no_duplicates(),
        0 <= n <= members.len(),
    ensures
        pairs_upto(members, n).no_duplicates(),
    decreases n,
{
    if n > 0 {
        let here = pairs_upto(members, n);
        let earlier = pairs_upto(members, n - 1);
        let row = pairs_from(members, n - 1);
        lemma_pairs_upto_distinct(members, n - 1);
        lemma_pairs_upto(members, n - 1);
        assert(here == earlier + row);
        assert forall|k: int, l: int|
            0 <= k < here.len() && 0 <= l < here.len() && k != l implies here[k] != here[l] by {
            if k < earlier.len() && l < earlier.len() {
            } else if k >= earlier.len() && l >= earlier.len() {
                assert(here[k] == row[k - earlier.len()]);
                assert(here[l] == row[l - earlier.len()]);
            } else {
                let (old, new) = if k < earlier.len() {
                    (k, l)
                } else {
                    (l, k)
                };
                assert(here[old] == earlier[old]);
                assert(here[new] == row[new - earlier.len()]);
                assert(earlier.contains(earlier[old]));
                assert(paired_before(members, n - 1, earlier[old]));
            }
        }
    }
}

/// Buckets in which no member stands twice yield pairs that are all different.
pub proof fn lemma_all_pairs_distinct<K>(buckets: Seq<Bucket<K>>)
    requires
        disjoint_buckets(buckets),
    ensures
        all_pairs(buckets).no_duplicates(),
    decreases buckets.len(),
{
    if buckets.len() > 0 {
        let here = all_pairs(buckets);
        let front = buckets.drop_last();
        let earlier = all_pairs(front);
        let n = buckets.len() - 1;
        let members = buckets[n].members;
        let row = pairs_within(members);
        assert(disjoint_buckets(front)) by {
            assert forall|a: int| 0 <= a < front.len() implies (#[trigger] front[a]).members
                .no_duplicates() by {
                assert(front[a] == buckets[a]);
            }
            assert forall|a: int, b: int, i: int, j: int|
                0 <= a < b < front.len() && 0 <= i < front[a].members.len() && 0 <= j
                    < front[b].members.len() implies #[trigger] front[a].members[i]
                != #[trigger] front[b].members[j] by {
                assert(front[a] == buckets[a]);
                assert(front[b] == buckets[b]);
            }
        }
        lemma_all_pairs_distinct(front);
        lemma_all_pairs(front);
        lemma_pairs_upto_distinct(members, members.len() as int);
        lemma_pairs_upto(members, members.len() as int);
        assert(here == earlier + row);
        assert forall|k: int, l: int|
            0 <= k < here.len() && 0 <= l < here.len() && k != l implies here[k] != here[l] by {
            if k < earlier.len() && l < earlier.len() {
            } else if k >= earlier.len() && l >= earlier.len() {
                assert(here[k] == row[k - earlier.len()]);
                assert(here[l] == row[l - earlier.len()]);
            } else {
                let (old, new) = if k < earlier.len() {
                    (k, l)
                } else {
                    (l, k)
                };
                let old_pair = earlier[old];
                let new_pair = row[new - earlier.len()];
                assert(here[old] == old_pair);
                assert(here[new] == new_pair);
                assert(earlier.contains(old_pair));
                assert(row.contains(new_pair));
                assert(paired_in_some(front, old_pair));
                assert(paired_in(members, new_pair));
                let a = choose|a: int|
                    0 <= a < front.len() && paired_in(#[trigger] front[a].members, old_pair);
                assert(front[a] == buckets[a]);
                let (i, j) = choose|i: int, j: int|
                    0 <= i < front[a].members.len() && i < j < front[a].members.len()
                        && #[trigger] front[a].members[i] == old_pair.0
                        && #[trigger] front[a].members[j] == old_pair.1;
                let (i2, j2) = choose|i2: int, j2: int|
                    0 <= i2 < members.len() && i2 < j2 < members.len() && #[trigger] members[i2]
                        == new_pair.0 && #[trigger] members[j2] == new_pair.1;
                assert(buckets[a].members[i] != buckets[n].members[i2]);
            }
        }
    }
}

/// Labels that are all different keep the buckets of `keys` free of members
/// that stand twice.
pub proof fn lemma_relabel_disjoint<K>(keys: Seq<K>, labels: Seq<int>)
    requires
        labels.len() == keys.len(),
        labels.no_duplicates(),
    ensures
        disjoint_buckets(relabel(grouping(keys), labels)),
{
    let plain = grouping(keys);
    let buckets = relabel(plain, labels);
    lemma_grouping(keys);
    assert forall|a: int| 0 <= a < buckets.len() implies (#[trigger] buckets[a]).members
        .no_duplicates() by {
        let spots = plain[a].members;
        assert(is_bucket_of(plain[a], keys));
        assert forall|i: int, j: int|
            0 <= i < buckets[a].members.len() && 0 <= j < buckets[a].members.len() && i
                != j implies buckets[a].members[i] != buckets[a].members[j] by {
            assert(spots.contains(spots[i]));
            assert(spots.contains(spots[j]));
            if i < j {
                assert(spots[i] < spots[j]);
            } else {
                assert(spots[j] < spots[i]);
            }
        }
    }
    assert forall|a: int, b: int, i: int, j: int|
        0 <= a < b < buckets.len() && 0 <= i < buckets[a].members.len() && 0 <= j
            < buckets[b].members.len() implies #[trigger] buckets[a].members[i]
        != #[trigger] buckets[b].members[j] by {
        assert(is_bucket_of(plain[a], keys));
        assert(is_bucket_of(plain[b], keys));
        assert(plain[a].key != plain[b].key);
        assert(plain[a].members.contains(plain[a].members[i]));
        assert(plain[b].members.contains(plain[b].members[j]));
    }
}

} // verus!
