//! The mathematical model of grouping: a sequence of keys is split into
//! buckets, one per distinct key, each holding the positions at which its key
//! stands. Buckets are ordered by the first appearance of their key, positions
//! within a bucket ascend.

use vstd::prelude::*;

verus! {

/// One group of positions that share a key.
pub struct Bucket<K> {
    pub key: K,
    pub members: Seq<int>,
}

/// The positions at which `key` stands in `keys`, ascending.
pub open spec fn positions_of<K>(keys: Seq<K>, key: K) -> Seq<int>
    decreases keys.len(),
{
    if keys.len() == 0 {
        Seq::empty()
    } else {
        let earlier = positions_of(keys.drop_last(), key);
        if keys.last() == key {
            earlier.push(keys.len() - 1)
        } else {
            earlier
        }
    }
}

/// The distinct keys of `keys`, in order of first appearance.
pub open spec fn first_keys<K>(keys: Seq<K>) -> Seq<K>
    decreases keys.len(),
{
    if keys.len() == 0 {
        Seq::empty()
    } else {
        let earlier = first_keys(keys.drop_last());
        if keys.drop_last().contains(keys.last()) {
            earlier
        } else {
            earlier.push(keys.last())
        }
    }
}

/// The buckets of `keys`: one per distinct key, in order of first appearance.
pub open spec fn grouping<K>(keys: Seq<K>) -> Seq<Bucket<K>> {
    Seq::new(
        first_keys(keys).len(),
        |a: int|
            Bucket {
                key: first_keys(keys)[a],
                members: positions_of(keys, first_keys(keys)[a]),
            },
    )
}

/// The members of the buckets that hold two or more, bucket after bucket.
pub open spec fn survivors<K>(buckets: Seq<Bucket<K>>) -> Seq<int>
    decreases buckets.len(),
{
    if buckets.len() == 0 {
        Seq::empty()
    } else {
        let earlier = survivors(buckets.drop_last());
        if buckets.last().members.len() >= 2 {
            earlier + buckets.last().members
        } else {
            earlier
        }
    }
}

/// The buckets with every member replaced by its label: member `m` becomes
/// `labels[m]`.
pub open spec fn relabel<K>(buckets: Seq<Bucket<K>>, labels: Seq<int>) -> Seq<Bucket<K>> {
    Seq::new(
        buckets.len(),
        |a: int|
            Bucket {
                key: buckets[a].key,
                members: Seq::new(buckets[a].members.len(), |m: int| labels[buckets[a].members[m]]),
            },
    )
}

/// A sequence of integers that strictly ascends.
pub open spec fn ascending(s: Seq<int>) -> bool {
    forall|a: int, b: int| 0 <= a < b < s.len() ==> s[a] < s[b]
}

/// Whether `bucket` is the bucket of its key in `keys`: not empty, ascending,
/// and holding exactly the positions at which its key stands.
pub open spec fn is_bucket_of<K>(bucket: Bucket<K>, keys: Seq<K>) -> bool {
    &&& bucket.members.len() >= 1
    &&& ascending(bucket.members)
    &&& forall|i: int| #[trigger]
        bucket.members.contains(i) <==> (0 <= i < keys.len() && keys[i] == bucket.key)
}

/// The positions of `s` as mathematical integers.
pub open spec fn as_ints(s: Seq<usize>) -> Seq<int> {
    Seq::new(s.len(), |i: int| s[i] as int)
}

/// `positions_of(keys, key)` ascends and holds exactly the positions of `key`.
pub proof fn lemma_positions_of<K>(keys: Seq<K>, key: K)
    ensures
        ascending(positions_of(keys, key)),
        forall|i: int|
            #![trigger positions_of(keys, key).contains(i)]
            positions_of(keys, key).contains(i) <==> (0 <= i < keys.len() && keys[i] == key),
    decreases keys.len(),
{
    let here = positions_of(keys, key);
    if keys.len() == 0 {
        assert forall|i: int| here.contains(i) <==> (0 <= i < keys.len() && keys[i] == key) by {}
    } else {
        let front = keys.drop_last();
        let earlier = positions_of(front, key);
        lemma_positions_of(front, key);
        let n = keys.len() - 1;
        assert forall|j: int| 0 <= j < earlier.len() implies 0 <= #[trigger] earlier[j] < n by {
            assert(earlier.contains(earlier[j]));
        }
        assert forall|i: int| here.contains(i) <==> (0 <= i < keys.len() && keys[i] == key) by {
            if here.contains(i) {
                let j = choose|j: int| 0 <= j < here.len() && here[j] == i;
                if j < earlier.len() {
                    assert(earlier[j] == i);
                    assert(earlier.contains(i));
                    assert(front[i] == keys[i]);
                }
            }
            if 0 <= i < keys.len() && keys[i] == key {
                if i < n {
                    assert(front[i] == keys[i]);
                    assert(earlier.contains(i));
                    let j = choose|j: int| 0 <= j < earlier.len() && earlier[j] == i;
                    assert(here[j] == i);
                } else {
                    assert(here[earlier.len() as int] == i);
                }
            }
        }
    }
}

/// `first_keys(keys)` names every key of `keys`, each once.
pub proof fn lemma_first_keys<K>(keys: Seq<K>)
    ensures
        first_keys(keys).no_duplicates(),
        forall|k: K|
            #![trigger first_keys(keys).contains(k)]
            #![trigger keys.contains(k)]
            first_keys(keys).contains(k) <==> keys.contains(k),
    decreases keys.len(),
{
    let here = first_keys(keys);
    if keys.len() == 0 {
        assert forall|k: K| here.contains(k) <==> keys.contains(k) by {}
    } else {
        let front = keys.drop_last();
        let earlier = first_keys(front);
        lemma_first_keys(front);
        let n = keys.len() - 1;
        assert forall|k: K| here.contains(k) <==> keys.contains(k) by {
            if here.contains(k) {
                let j = choose|j: int| 0 <= j < here.len() && here[j] == k;
                if j < earlier.len() {
                    assert(earlier[j] == k);
                    assert(earlier.contains(k));
                    assert(front.contains(k));
                    let i = choose|i: int| 0 <= i < front.len() && front[i] == k;
                    assert(keys[i] == k);
                } else {
                    assert(keys[n] == k);
                }
            }
            if keys.contains(k) {
                let i = choose|i: int| 0 <= i < keys.len() && keys[i] == k;
                if i < n {
                    assert(front[i] == k);
                    assert(front.contains(k));
                    let j = choose|j: int| 0 <= j < earlier.len() && earlier[j] == k;
                    assert(here[j] == k);
                } else if front.contains(k) {
                    let j = choose|j: int| 0 <= j < earlier.len() && earlier[j] == k;
                    assert(here[j] == k);
                } else {
                    assert(here[earlier.len() as int] == k);
                }
            }
        }
        assert forall|a: int, b: int|
            0 <= a < here.len() && 0 <= b < here.len() && a != b implies here[a] != here[b] by {
            if !front.contains(keys.last()) {
                if a == earlier.len() {
                    assert(earlier.contains(earlier[b]));
                }
                if b == earlier.len() {
                    assert(earlier.contains(earlier[a]));
                }
            }
        }
    }
}

/// Every distinct key stands somewhere, and a key that appears first earlier
/// comes earlier among the distinct keys.
pub proof fn lemma_first_keys_order<K>(keys: Seq<K>)
    ensures
        forall|a: int|
            0 <= a < first_keys(keys).len() ==> positions_of(
                keys,
                #[trigger] first_keys(keys)[a],
            ).len() >= 1,
        forall|a: int, b: int|
            0 <= a < b < first_keys(keys).len() ==> positions_of(
                keys,
                #[trigger] first_keys(keys)[a],
            )[0] < positions_of(keys, #[trigger] first_keys(keys)[b])[0],
    decreases keys.len(),
{
    let heads = first_keys(keys);
    if keys.len() > 0 {
        let front = keys.drop_last();
        let newest = keys.last();
        let n = keys.len() - 1;
        let earlier = first_keys(front);
        lemma_first_keys_order(front);
        lemma_first_keys(front);
        lemma_positions_of(front, newest);
        if !front.contains(newest) {
            let none = positions_of(front, newest);
            if none.len() > 0 {
                assert(none.contains(none[0]));
            }
            assert(positions_of(keys, newest) == seq![n]);
        }
        assert forall|a: int| 0 <= a < earlier.len() implies positions_of(
            keys,
            #[trigger] earlier[a],
        )[0] == positions_of(front, earlier[a])[0] && positions_of(keys, earlier[a]).len() >= 1
            && positions_of(front, earlier[a])[0] < n by {
            let spots = positions_of(front, earlier[a]);
            lemma_positions_of(front, earlier[a]);
            assert(spots.contains(spots[0]));
        }
        assert forall|a: int| 0 <= a < heads.len() implies positions_of(
            keys,
            #[trigger] heads[a],
        ).len() >= 1 by {
            if a < earlier.len() {
                assert(heads[a] == earlier[a]);
            }
        }
        assert forall|a: int, b: int| 0 <= a < b < heads.len() implies positions_of(
            keys,
            #[trigger] heads[a],
        )[0] < positions_of(keys, #[trigger] heads[b])[0] by {
            assert(heads[a] == earlier[a]);
            if b < earlier.len() {
                assert(heads[b] == earlier[b]);
            }
        }
    }
}

/// What the buckets of `keys` are. Each is the bucket of its key; no two have
/// the same key; every position has its bucket; and the buckets stand in the
/// order of the first position of their key.
pub proof fn lemma_grouping<K>(keys: Seq<K>)
    ensures
        forall|a: int|
            0 <= a < grouping(keys).len() ==> is_bucket_of(#[trigger] grouping(keys)[a], keys),
        forall|a: int, b: int|
            0 <= a < b < grouping(keys).len() ==> (#[trigger] grouping(keys)[a]).key
                != (#[trigger] grouping(keys)[b]).key && grouping(keys)[a].members[0]
                < grouping(keys)[b].members[0],
        forall|i: int|
            #![trigger keys[i]]
            0 <= i < keys.len() ==> exists|a: int|
                0 <= a < grouping(keys).len() && (#[trigger] grouping(keys)[a]).key == keys[i],
{
    let heads = first_keys(keys);
    lemma_first_keys(keys);
    lemma_first_keys_order(keys);
    assert forall|a: int| 0 <= a < grouping(keys).len() implies is_bucket_of(
        #[trigger] grouping(keys)[a],
        keys,
    ) by {
        lemma_positions_of(keys, heads[a]);
    }
    assert forall|i: int|
        #![trigger keys[i]]
        0 <= i < keys.len() implies exists|a: int|
        0 <= a < grouping(keys).len() && (#[trigger] grouping(keys)[a]).key == keys[i] by {
        assert(keys.contains(keys[i]));
        assert(heads.contains(keys[i]));
        let a = choose|a: int| 0 <= a < heads.len() && heads[a] == keys[i];
        assert(grouping(keys)[a].key == keys[i]);
    }
}

/// What the buckets of `keys` hand on: exactly the positions whose key stands
/// at two or more positions, and those of one key in ascending order.
pub proof fn lemma_survivors<K>(keys: Seq<K>)
    ensures
        forall|x: int| #[trigger]
            survivors(grouping(keys)).contains(x) <==> (0 <= x < keys.len() && positions_of(
                keys,
                keys[x],
            ).len() >= 2),
        forall|p: int, q: int|
            #![trigger survivors(grouping(keys))[p], survivors(grouping(keys))[q]]
            0 <= p < q < survivors(grouping(keys)).len() && keys[survivors(grouping(keys))[p]]
                == keys[survivors(grouping(keys))[q]] ==> survivors(grouping(keys))[p] < survivors(
                grouping(keys),
            )[q],
{
    let heads = first_keys(keys);
    let n = heads.len() as int;
    lemma_survivors_upto(keys, n);
    lemma_first_keys(keys);
    assert(grouping(keys).take(n) == grouping(keys));
    assert(heads.take(n) == heads);
    let here = survivors(grouping(keys));
    assert forall|x: int| #[trigger]
        here.contains(x) <==> (0 <= x < keys.len() && positions_of(keys, keys[x]).len() >= 2) by {
        if here.contains(x) {
            let p = choose|p: int| 0 <= p < here.len() && here[p] == x;
            assert(here[p] == x);
        }
        if 0 <= x < keys.len() && positions_of(keys, keys[x]).len() >= 2 {
            assert(keys.contains(keys[x]));
            assert(heads.contains(keys[x]));
        }
    }
}

/// What the first `n` buckets of `keys` hand on: positions of `keys` whose key
/// stands twice or more; every such position whose key is among the first `n`
/// distinct keys; positions of one key in ascending order.
proof fn lemma_survivors_upto<K>(keys: Seq<K>, n: int)
    requires
        0 <= n <= first_keys(keys).len(),
    ensures
        forall|p: int|
            0 <= p < survivors(grouping(keys).take(n)).len() ==> {
                let x = #[trigger] survivors(grouping(keys).take(n))[p];
                &&& 0 <= x < keys.len()
                &&& first_keys(keys).take(n).contains(keys[x])
                &&& positions_of(keys, keys[x]).len() >= 2
            },
        forall|p: int, q: int|
            #![trigger survivors(grouping(keys).take(n))[p], survivors(grouping(keys).take(n))[q]]
            0 <= p < q < survivors(grouping(keys).take(n)).len() && keys[survivors(
                grouping(keys).take(n),
            )[p]] == keys[survivors(grouping(keys).take(n))[q]] ==> survivors(
                grouping(keys).take(n),
            )[p] < survivors(grouping(keys).take(n))[q],
        forall|x: int|
            0 <= x < keys.len() && first_keys(keys).take(n).contains(#[trigger] keys[x])
                && positions_of(keys, keys[x]).len() >= 2 ==> survivors(
                grouping(keys).take(n),
            ).contains(x),
    decreases n,
{
    let heads = first_keys(keys);
    let longer = heads.take(n);
    let shorter = heads.take(n - 1);
    let here = survivors(grouping(keys).take(n));
    if n > 0 {
        let front = grouping(keys).take(n - 1);
        let earlier = survivors(front);
        let key = heads[n - 1];
        let members = positions_of(keys, key);
        lemma_survivors_upto(keys, n - 1);
        lemma_positions_of(keys, key);
        lemma_first_keys(keys);
        assert(grouping(keys).take(n).drop_last() == front);
        assert(grouping(keys).take(n).last().members == members);
        assert(longer == shorter.push(key));
        assert forall|k: K| shorter.contains(k) implies longer.contains(k) && k
            != key by {
            let a = choose|a: int| 0 <= a < shorter.len() && shorter[a] == k;
            assert(longer[a] == k);
            assert(heads[a] == k);
        }
        assert(longer[n - 1] == key);
        if members.len() >= 2 {
            assert(here == earlier + members);
            assert forall|p: int| 0 <= p < here.len() implies {
                let x = #[trigger] here[p];
                &&& 0 <= x < keys.len()
                &&& longer.contains(keys[x])
                &&& positions_of(keys, keys[x]).len() >= 2
            } by {
                if p < earlier.len() {
                    assert(here[p] == earlier[p]);
                } else {
                    assert(here[p] == members[p - earlier.len()]);
                    assert(members.contains(here[p]));
                }
            }
            assert forall|p: int, q: int|
                0 <= p < q < here.len() && keys[here[p]] == keys[here[q]] implies here[p]
                < here[q] by {
                if q < earlier.len() {
                    assert(here[p] == earlier[p] && here[q] == earlier[q]);
                } else if p < earlier.len() {
                    assert(here[p] == earlier[p]);
                    assert(here[q] == members[q - earlier.len()]);
                    assert(members.contains(here[q]));
                    assert(shorter.contains(keys[earlier[p]]));
                } else {
                    assert(here[p] == members[p - earlier.len()]);
                    assert(here[q] == members[q - earlier.len()]);
                }
            }
            assert forall|x: int|
                0 <= x < keys.len() && longer.contains(#[trigger] keys[x]) && positions_of(
                    keys,
                    keys[x],
                ).len() >= 2 implies here.contains(x) by {
                if keys[x] == key {
                    assert(members.contains(x));
                    let m = choose|m: int| 0 <= m < members.len() && members[m] == x;
                    assert(here[earlier.len() + m] == x);
                } else {
                    let a = choose|a: int| 0 <= a < longer.len() && longer[a] == keys[x];
                    assert(shorter[a] == keys[x]);
                    assert(shorter.contains(keys[x]));
                    assert(earlier.contains(x));
                    let m = choose|m: int| 0 <= m < earlier.len() && earlier[m] == x;
                    assert(here[m] == x);
                }
            }
        } else {
            assert(here == earlier);
            assert forall|x: int|
                0 <= x < keys.len() && longer.contains(#[trigger] keys[x]) && positions_of(
                    keys,
                    keys[x],
                ).len() >= 2 implies here.contains(x) by {
                if keys[x] != key {
                    let a = choose|a: int| 0 <= a < longer.len() && longer[a] == keys[x];
                    assert(shorter[a] == keys[x]);
                    assert(shorter.contains(keys[x]));
                }
            }
        }
    } else {
        assert(grouping(keys).take(0).len() == 0);
    }
}

} // verus!
