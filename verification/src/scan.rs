//! The whole pipeline on files held in memory: size groups, digests, digest
//! groups, and the comparison of what is left.

use crate::compare::compare_files;
use crate::digest::{hex_upper, sha256, sha256_digest, MAX_INPUT_LEN};
use crate::digest_groups::{
    candidate_pairs, digest_keys, group_by_digest, hashed_indices, HashedEntry,
};
use crate::entry::FileEntry;
use crate::grouping::{as_ints, grouping, lemma_survivors, relabel, survivors};
use crate::pairs::{all_pairs, as_int_pairs, lemma_relabelled_pairs, linked};
use crate::size_groups::{group_sizes, hash_candidates};
use vstd::prelude::*;

verus! {

/// A file as a run sees it: the entry that the traversal made of it, and its
/// bytes, or `None` where it can no longer be read.
#[derive(Debug, PartialEq, Eq)]
pub struct StoredFile {
    pub entry: FileEntry,
    pub content: Option<Vec<u8>>,
}

/// Two files whose bytes were found to be the same, as positions in the list
/// of files, the earlier first.
#[derive(Debug, Clone, Copy, PartialEq, Eq, Structural)]
pub struct ConfirmedPair {
    pub first: usize,
    pub second: usize,
}

/// The failure that ends a run: the file at `index` could not be read, or is
/// too long to be digested.
#[derive(Debug, Clone, Copy, PartialEq, Eq, Structural)]
pub struct ScanError {
    pub index: usize,
}

/// The pairs of `confirmed` as pairs of mathematical integers.
pub open spec fn confirmed_view(confirmed: Seq<ConfirmedPair>) -> Seq<(int, int)> {
    Seq::new(confirmed.len(), |k: int| (confirmed[k].first as int, confirmed[k].second as int))
}

/// The recorded sizes of `files`, position by position.
pub open spec fn stored_sizes(files: Seq<StoredFile>) -> Seq<u64> {
    Seq::new(files.len(), |i: int| files[i].entry.size)
}

/// Whether there is a file at position `i` that can be read.
pub open spec fn readable(files: Seq<StoredFile>, i: int) -> bool {
    0 <= i < files.len() && files[i].content is Some
}

/// Whether `file` can be read and is short enough to be digested.
pub open spec fn digestible(file: StoredFile) -> bool {
    file.content is Some && file.content->0@.len() <= MAX_INPUT_LEN
}

/// Whether both files of `pair` can be read and hold the same bytes.
pub open spec fn same_content(files: Seq<StoredFile>, pair: (int, int)) -> bool {
    &&& readable(files, pair.0)
    &&& readable(files, pair.1)
    &&& files[pair.0].content->0@ == files[pair.1].content->0@
}

/// The test that the comparison stage applies to a pair.
pub open spec fn content_filter(files: Seq<StoredFile>) -> spec_fn((int, int)) -> bool {
    |pair: (int, int)| same_content(files, pair)
}

/// The digest of the bytes of `file` in upper-case hexadecimal.
pub open spec fn digest_text(file: StoredFile) -> Seq<char> {
    hex_upper(sha256(file.content->0@))
}

/// The files that are digested, in the order in which they are read: those
/// whose size is shared, size group after size group.
pub open spec fn scan_candidates(files: Seq<StoredFile>) -> Seq<int> {
    survivors(grouping(stored_sizes(files)))
}

/// The keys under which the digested files are grouped.
pub open spec fn scan_keys(files: Seq<StoredFile>) -> Seq<(u64, Seq<char>)> {
    Seq::new(
        scan_candidates(files).len(),
        |p: int|
            (
                files[scan_candidates(files)[p]].entry.size,
                digest_text(files[scan_candidates(files)[p]]),
            ),
    )
}

/// The pairs of files that are compared byte by byte, in that order.
pub open spec fn scan_pairs(files: Seq<StoredFile>) -> Seq<(int, int)> {
    all_pairs(relabel(grouping(scan_keys(files)), scan_candidates(files)))
}

/// The pairs that a run reports: of those compared, the ones that hold the
/// same bytes.
pub open spec fn duplicate_pairs(files: Seq<StoredFile>) -> Seq<(int, int)> {
    scan_pairs(files).filter(content_filter(files))
}

/// Whether the pair at `k` is the first of `pairs` that names a file which
/// cannot be read.
pub open spec fn first_unreadable(files: Seq<StoredFile>, pairs: Seq<(int, int)>, k: int) -> bool {
    &&& 0 <= k < pairs.len()
    &&& !(readable(files, pairs[k].0) && readable(files, pairs[k].1))
    &&& forall|m: int|
        0 <= m < k ==> readable(files, (#[trigger] pairs[m]).0) && readable(files, pairs[m].1)
}

/// The file of `pair` on which the comparison fails: the first if it cannot be
/// read, else the second.
pub open spec fn unreadable_member(files: Seq<StoredFile>, pair: (int, int)) -> int {
    if readable(files, pair.0) {
        pair.1
    } else {
        pair.0
    }
}

/// Whether `outcome` is what comparing `pairs` yields: the pairs that hold the
/// same bytes, in order; or, where a pair names a file that cannot be read, the
/// failure on that file of the first such pair.
pub open spec fn confirm_outcome(
    files: Seq<StoredFile>,
    pairs: Seq<(int, int)>,
    outcome: Result<Vec<ConfirmedPair>, ScanError>,
) -> bool {
    match outcome {
        Ok(confirmed) => {
            &&& forall|k: int|
                0 <= k < pairs.len() ==> readable(files, (#[trigger] pairs[k]).0) && readable(
                    files,
                    pairs[k].1,
                )
            &&& confirmed_view(confirmed@) == pairs.filter(content_filter(files))
        },
        Err(error) => exists|k: int|
            #![trigger pairs[k]]
            first_unreadable(files, pairs, k) && error.index == unreadable_member(files, pairs[k]),
    }
}

/// Compares the files of each pair and keeps the pairs that hold the same
/// bytes. A pair that names a file which cannot be read ends the comparison
/// with the failure on that file.
pub fn confirm_pairs(files: &Vec<StoredFile>, pairs: &Vec<(usize, usize)>) -> (outcome: Result<
    Vec<ConfirmedPair>,
    ScanError,
>)
    ensures
        confirm_outcome(files@, as_int_pairs(pairs@), outcome),
{
    let ghost listed = as_int_pairs(pairs@);
    let mut confirmed: Vec<ConfirmedPair> = Vec::new();
    let mut k: usize = 0;
    proof {
        reveal(Seq::filter);
        assert(listed.take(0).filter(content_filter(files@)) == Seq::<(int, int)>::empty());
    }
    while k < pairs.len()
        invariant
            k <= pairs.len(),
            listed == as_int_pairs(pairs@),
            forall|m: int|
                0 <= m < k ==> readable(files@, (#[trigger] listed[m]).0) && readable(
                    files@,
                    listed[m].1,
                ),
            confirmed_view(confirmed@) == listed.take(k as int).filter(content_filter(files@)),
        decreases pairs.len() - k,
    {
        let first: usize = pairs[k].0;
        let second: usize = pairs[k].1;
        proof {
            reveal(Seq::filter);
            assert(listed[k as int] == (first as int, second as int));
            assert(listed.take(k + 1).drop_last() == listed.take(k as int));
            assert(listed.take(k + 1).last() == listed[k as int]);
        }
        if first >= files.len() {
            return Err(ScanError { index: first });
        }
        match &files[first].content {
            None => {
                return Err(ScanError { index: first });
            },
            Some(content_1) => {
                if second >= files.len() {
                    return Err(ScanError { index: second });
                }
                match &files[second].content {
                    None => {
                        return Err(ScanError { index: second });
                    },
                    Some(content_2) => {
                        if compare_files(content_1.as_slice(), content_2.as_slice()) {
                            let ghost kept = confirmed@;
                            confirmed.push(ConfirmedPair { first, second });
                            assert(confirmed_view(confirmed@) == confirmed_view(kept).push(
                                listed[k as int],
                            ));
                        }
                    },
                }
            },
        }
        k += 1;
    }
    assert(listed.take(pairs.len() as int) == listed);
    Ok(confirmed)
}

/// Whether the candidate at `p` is the first, in reading order, that cannot be
/// digested.
pub open spec fn first_failure(files: Seq<StoredFile>, p: int) -> bool {
    &&& 0 <= p < scan_candidates(files).len()
    &&& !digestible(files[scan_candidates(files)[p]])
    &&& forall|q: int| 0 <= q < p ==> digestible(files[#[trigger] scan_candidates(files)[q]])
}

/// Whether `outcome` is what a run on `files` yields: the duplicate pairs in
/// the order of their comparison; or, where a file that has to be digested
/// cannot be, the failure on the first such file.
pub open spec fn scan_outcome(
    files: Seq<StoredFile>,
    outcome: Result<Vec<ConfirmedPair>, ScanError>,
) -> bool {
    match outcome {
        Ok(confirmed) => {
            &&& forall|p: int|
                0 <= p < scan_candidates(files).len() ==> digestible(
                    files[#[trigger] scan_candidates(files)[p]],
                )
            &&& confirmed_view(confirmed@) == duplicate_pairs(files)
        },
        Err(error) => exists|p: int|
            #![trigger scan_candidates(files)[p]]
            first_failure(files, p) && error.index == scan_candidates(files)[p],
    }
}

/// The recorded sizes of `files`.
fn sizes_of_stored(files: &Vec<StoredFile>) -> (sizes: Vec<u64>)
    ensures
        sizes@ == stored_sizes(files@),
{
    let mut sizes: Vec<u64> = Vec::new();
    let mut i: usize = 0;
    while i < files.len()
        invariant
            i <= files.len(),
            sizes@ == stored_sizes(files@).take(i as int),
        decreases files.len() - i,
    {
        sizes.push(files[i].entry.size);
        assert(stored_sizes(files@).take(i + 1) == stored_sizes(files@).take(i as int).push(
            files@[i as int].entry.size,
        ));
        i += 1;
    }
    assert(stored_sizes(files@).take(files.len() as int) == stored_sizes(files@));
    sizes
}

/// Finds the duplicates among `files`. Files are grouped by recorded size;
/// those that share a size are digested and grouped by digest; within each
/// such group every two files are compared byte by byte, and the pairs that
/// are the same are returned. A file that has to be digested and cannot be
/// ends the run.
pub fn find_duplicates(files: &Vec<StoredFile>) -> (outcome: Result<Vec<ConfirmedPair>, ScanError>)
    ensures
        scan_outcome(files@, outcome),
{
    let sizes = sizes_of_stored(files);
    let groups = group_sizes(&sizes);
    let candidates = hash_candidates(&groups);
    let ghost chosen = scan_candidates(files@);
    proof {
        lemma_survivors(stored_sizes(files@));
        assert(as_ints(candidates@) == chosen);
        assert forall|q: int| 0 <= q < candidates@.len() implies candidates@[q] < files@.len() by {
            assert(chosen[q] == candidates@[q]);
            assert(chosen.contains(chosen[q]));
        }
    }
    let mut hashed: Vec<HashedEntry> = Vec::new();
    let mut p: usize = 0;
    while p < candidates.len()
        invariant
            p <= candidates.len(),
            chosen == scan_candidates(files@),
            as_ints(candidates@) == chosen,
            forall|q: int| 0 <= q < candidates@.len() ==> candidates@[q] < files@.len(),
            hashed@.len() == p,
            forall|q: int| 0 <= q < p ==> digestible(files@[#[trigger] chosen[q]]),
            forall|q: int|
                0 <= q < p ==> {
                    &&& (#[trigger] hashed@[q]).index == chosen[q]
                    &&& hashed@[q].size == files@[chosen[q]].entry.size
                    &&& hashed@[q].digest@ == digest_text(files@[chosen[q]])
                },
        decreases candidates.len() - p,
    {
        let index: usize = candidates[p];
        assert(chosen[p as int] == index);
        let file = &files[index];
        match &file.content {
            None => {
                assert(first_failure(files@, p as int));
                return Err(ScanError { index });
            },
            Some(bytes) => {
                match sha256_digest(bytes.as_slice()) {
                    None => {
                        assert(first_failure(files@, p as int));
                        return Err(ScanError { index });
                    },
                    Some(digest) => {
                        hashed.push(HashedEntry::new(index, file.entry.size, digest.hex()));
                    },
                }
            },
        }
        p += 1;
    }
    let digest_groups = group_by_digest(&hashed);
    let pairs = candidate_pairs(&digest_groups);
    proof {
        assert(digest_keys(hashed@) == scan_keys(files@));
        assert(hashed_indices(hashed@) == chosen);
        assert(as_int_pairs(pairs@) == scan_pairs(files@));
        lemma_relabelled_pairs(scan_keys(files@), chosen);
        let listed = as_int_pairs(pairs@);
        assert forall|k: int| 0 <= k < listed.len() implies readable(files@, (#[trigger] listed[k]).0)
            && readable(files@, listed[k].1) by {
            let pair = listed[k];
            assert(listed.contains(pair));
            assert(linked(scan_keys(files@), chosen, pair));
            let (x, y) = choose|x: int, y: int|
                0 <= x < y < scan_keys(files@).len() && scan_keys(files@)[x] == scan_keys(files@)[y]
                    && #[trigger] chosen[x] == pair.0 && #[trigger] chosen[y] == pair.1;
            assert(digestible(files@[chosen[x]]));
            assert(digestible(files@[chosen[y]]));
            assert(candidates@[x] < files@.len());
            assert(candidates@[y] < files@.len());
        }
    }
    let outcome = confirm_pairs(files, &pairs);
    proof {
        let listed = as_int_pairs(pairs@);
        if outcome is Err {
            let k = choose|k: int|
                #![trigger listed[k]]
                first_unreadable(files@, listed, k) && outcome->Err_0.index == unreadable_member(
                    files@,
                    listed[k],
                );
            assert(readable(files@, listed[k].0) && readable(files@, listed[k].1));
        }
    }
    outcome
}

} // verus!
