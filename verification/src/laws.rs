//! What holds of every run, proved from the definitions of the stages.

use crate::digest::{lemma_hex_upper_injective, sha256};
use crate::grouping::{grouping, lemma_positions_of, lemma_survivors, positions_of, relabel};
use crate::pairs::{
    lemma_all_pairs_distinct, lemma_relabel_disjoint, lemma_relabelled_pairs, linked,
};
use crate::scan::{
    confirm_outcome, confirmed_view, content_filter, digest_text, duplicate_pairs, first_failure,
    same_content, scan_candidates, scan_keys, scan_outcome, scan_pairs, stored_sizes,
    ConfirmedPair, ScanError, StoredFile,
};
use vstd::prelude::*;

verus! {

/// The files that are digested are exactly those whose recorded size is also
/// the recorded size of another file. A file of a size of its own is never
/// opened.
pub proof fn lemma_candidates_share_size(files: Seq<StoredFile>)
    ensures
        forall|x: int| #[trigger]
            scan_candidates(files).contains(x) <==> (0 <= x < files.len() && exists|y: int|
                0 <= y < files.len() && y != x && #[trigger] files[y].entry.size
                    == files[x].entry.size),
{
    let sizes = stored_sizes(files);
    lemma_survivors(sizes);
    assert forall|x: int| #[trigger]
        scan_candidates(files).contains(x) <==> (0 <= x < files.len() && exists|y: int|
            0 <= y < files.len() && y != x && #[trigger] files[y].entry.size
                == files[x].entry.size) by {
        if 0 <= x < files.len() {
            let spots = positions_of(sizes, sizes[x]);
            lemma_positions_of(sizes, sizes[x]);
            assert(spots.contains(x));
            if spots.len() >= 2 {
                let other = if spots[0] == x {
                    spots[1]
                } else {
                    spots[0]
                };
                assert(spots.contains(spots[0]));
                assert(spots.contains(spots[1]));
                assert(sizes[other] == sizes[x]);
                assert(files[other].entry.size == files[x].entry.size);
            }
            if exists|y: int|
                0 <= y < files.len() && y != x && #[trigger] files[y].entry.size
                    == files[x].entry.size {
                let y = choose|y: int|
                    0 <= y < files.len() && y != x && #[trigger] files[y].entry.size
                        == files[x].entry.size;
                assert(sizes[y] == sizes[x]);
                assert(spots.contains(y));
                let i = choose|i: int| 0 <= i < spots.len() && spots[i] == x;
                let j = choose|j: int| 0 <= j < spots.len() && spots[j] == y;
                assert(i != j);
            }
        }
    }
}

/// Two files are compared byte by byte exactly when the earlier stands first
/// in the pair, their recorded sizes are the same and their digests are the
/// same. So a file is never compared with one of another size: an empty file
/// never with one that holds bytes.
pub proof fn lemma_compared_pairs(files: Seq<StoredFile>)
    ensures
        forall|pair: (int, int)| #[trigger]
            scan_pairs(files).contains(pair) <==> {
                &&& 0 <= pair.0 < pair.1 < files.len()
                &&& files[pair.0].entry.size == files[pair.1].entry.size
                &&& digest_text(files[pair.0]) == digest_text(files[pair.1])
            },
{
    let sizes = stored_sizes(files);
    let chosen = scan_candidates(files);
    let keys = scan_keys(files);
    lemma_survivors(sizes);
    lemma_relabelled_pairs(keys, chosen);
    assert forall|pair: (int, int)| #[trigger]
        scan_pairs(files).contains(pair) <==> {
            &&& 0 <= pair.0 < pair.1 < files.len()
            &&& files[pair.0].entry.size == files[pair.1].entry.size
            &&& digest_text(files[pair.0]) == digest_text(files[pair.1])
        } by {
        if scan_pairs(files).contains(pair) {
            assert(linked(keys, chosen, pair));
            let (p, q) = choose|p: int, q: int|
                0 <= p < q < keys.len() && keys[p] == keys[q] && #[trigger] chosen[p] == pair.0
                    && #[trigger] chosen[q] == pair.1;
            assert(chosen.contains(chosen[p]));
            assert(chosen.contains(chosen[q]));
            assert(keys[p] == (files[chosen[p]].entry.size, digest_text(files[chosen[p]])));
            assert(keys[q] == (files[chosen[q]].entry.size, digest_text(files[chosen[q]])));
            assert(sizes[chosen[p]] == sizes[chosen[q]]);
        }
        if 0 <= pair.0 < pair.1 < files.len() && files[pair.0].entry.size
            == files[pair.1].entry.size && digest_text(files[pair.0]) == digest_text(
            files[pair.1],
        ) {
            let x = pair.0;
            let y = pair.1;
            let spots = positions_of(sizes, sizes[x]);
            lemma_positions_of(sizes, sizes[x]);
            assert(sizes[y] == sizes[x]);
            assert(spots.contains(x));
            assert(spots.contains(y));
            let i = choose|i: int| 0 <= i < spots.len() && spots[i] == x;
            let j = choose|j: int| 0 <= j < spots.len() && spots[j] == y;
            assert(i != j);
            assert(chosen.contains(x));
            assert(chosen.contains(y));
            let p = choose|p: int| 0 <= p < chosen.len() && chosen[p] == x;
            let q = choose|q: int| 0 <= q < chosen.len() && chosen[q] == y;
            if q < p {
                assert(sizes[chosen[q]] == sizes[chosen[p]]);
                assert(chosen[q] < chosen[p]);
            }
            assert(keys[p] == keys[q]);
            assert(0 <= p < q < keys.len() && keys[p] == keys[q] && chosen[p] == pair.0 && chosen[q]
                == pair.1);
            assert(linked(keys, chosen, pair));
        }
    }
}

/// A pair is reported exactly when its files are two different files of the
/// list, the earlier first, that have the same recorded size and hold the same
/// bytes.
pub proof fn lemma_duplicate_pairs(files: Seq<StoredFile>)
    ensures
        forall|pair: (int, int)| #[trigger]
            duplicate_pairs(files).contains(pair) <==> {
                &&& 0 <= pair.0 < pair.1 < files.len()
                &&& files[pair.0].entry.size == files[pair.1].entry.size
                &&& same_content(files, pair)
            },
{
    let compared = scan_pairs(files);
    let test = content_filter(files);
    lemma_compared_pairs(files);
    assert forall|pair: (int, int)| #[trigger]
        duplicate_pairs(files).contains(pair) <==> {
            &&& 0 <= pair.0 < pair.1 < files.len()
            &&& files[pair.0].entry.size == files[pair.1].entry.size
            &&& same_content(files, pair)
        } by {
        if duplicate_pairs(files).contains(pair) {
            compared.lemma_filter_contains_rev(test, pair);
            let k = choose|k: int|
                0 <= k < compared.filter(test).len() && compared.filter(test)[k] == pair;
            compared.lemma_filter_pred(test, k);
            assert(test(pair));
        }
        if 0 <= pair.0 < pair.1 < files.len() && files[pair.0].entry.size
            == files[pair.1].entry.size && same_content(files, pair) {
            assert(compared.contains(pair));
            let k = choose|k: int| 0 <= k < compared.len() && compared[k] == pair;
            assert(test(compared[k]));
            compared.lemma_filter_contains(test, k);
        }
    }
}

/// Where no two files have the same recorded size, no file is digested and no
/// pair is reported.
pub proof fn lemma_distinct_sizes_report_nothing(files: Seq<StoredFile>)
    requires
        forall|x: int, y: int|
            0 <= x < y < files.len() ==> #[trigger] files[x].entry.size
                != #[trigger] files[y].entry.size,
    ensures
        scan_candidates(files).len() == 0,
        scan_pairs(files).len() == 0,
        duplicate_pairs(files).len() == 0,
        forall|outcome: Result<Vec<ConfirmedPair>, ScanError>| #[trigger]
            scan_outcome(files, outcome) ==> outcome is Ok && outcome->Ok_0@.len() == 0,
{
    lemma_candidates_share_size(files);
    lemma_compared_pairs(files);
    lemma_duplicate_pairs(files);
    let chosen = scan_candidates(files);
    if chosen.len() > 0 {
        let x = chosen[0];
        assert(chosen.contains(x));
        let y = choose|y: int|
            0 <= y < files.len() && y != x && #[trigger] files[y].entry.size
                == files[x].entry.size;
        if x < y {
            assert(files[x].entry.size != files[y].entry.size);
        } else {
            assert(files[y].entry.size != files[x].entry.size);
        }
    }
    if scan_pairs(files).len() > 0 {
        assert(scan_pairs(files).contains(scan_pairs(files)[0]));
    }
    if duplicate_pairs(files).len() > 0 {
        assert(duplicate_pairs(files).contains(duplicate_pairs(files)[0]));
    }
    assert forall|outcome: Result<Vec<ConfirmedPair>, ScanError>| #[trigger]
        scan_outcome(files, outcome) implies outcome is Ok && outcome->Ok_0@.len() == 0 by {
        if outcome is Ok {
            assert(confirmed_view(outcome->Ok_0@).len() == outcome->Ok_0@.len());
        }
    }
}

/// Whatever pairs are handed to the comparison, and so whatever digests put
/// them there, the pairs that it confirms hold the same bytes.
pub proof fn lemma_confirmed_pairs_identical(
    files: Seq<StoredFile>,
    pairs: Seq<(int, int)>,
    outcome: Result<Vec<ConfirmedPair>, ScanError>,
    k: int,
)
    requires
        confirm_outcome(files, pairs, outcome),
        outcome is Ok,
        0 <= k < outcome->Ok_0@.len(),
    ensures
        same_content(files, (outcome->Ok_0@[k].first as int, outcome->Ok_0@[k].second as int)),
        pairs.contains((outcome->Ok_0@[k].first as int, outcome->Ok_0@[k].second as int)),
{
    let kept = pairs.filter(content_filter(files));
    let pair = confirmed_view(outcome->Ok_0@)[k];
    assert(kept[k] == pair);
    pairs.lemma_filter_pred(content_filter(files), k);
    assert(kept.contains(pair));
    pairs.lemma_filter_contains_rev(content_filter(files), pair);
}

/// Every reported pair names two files that hold the same bytes: the same
/// number of them, and the same byte at each place.
pub proof fn lemma_reported_pairs_identical(files: Seq<StoredFile>, k: int)
    requires
        0 <= k < duplicate_pairs(files).len(),
    ensures
        ({
            let pair = duplicate_pairs(files)[k];
            &&& 0 <= pair.0 < pair.1 < files.len()
            &&& files[pair.0].content is Some
            &&& files[pair.1].content is Some
            &&& files[pair.0].content->0@.len() == files[pair.1].content->0@.len()
            &&& forall|i: int|
                0 <= i < files[pair.0].content->0@.len() ==> files[pair.0].content->0@[i]
                    == files[pair.1].content->0@[i]
        }),
{
    lemma_duplicate_pairs(files);
    assert(duplicate_pairs(files).contains(duplicate_pairs(files)[k]));
}

/// Two files that hold the same bytes and have the same recorded size are
/// reported, the earlier first, whatever else the list holds.
pub proof fn lemma_identical_files_reported(files: Seq<StoredFile>, x: int, y: int)
    requires
        0 <= x < y < files.len(),
        files[x].entry.size == files[y].entry.size,
        files[x].content is Some,
        files[y].content is Some,
        files[x].content->0@ == files[y].content->0@,
    ensures
        duplicate_pairs(files).contains((x, y)),
{
    lemma_duplicate_pairs(files);
    assert(same_content(files, (x, y)));
}

/// A run is a function of the files: two outcomes of runs on the same files
/// are the same pairs in the same order, or the same failure.
pub proof fn lemma_scan_outcome_unique(
    files: Seq<StoredFile>,
    first: Result<Vec<ConfirmedPair>, ScanError>,
    second: Result<Vec<ConfirmedPair>, ScanError>,
)
    requires
        scan_outcome(files, first),
        scan_outcome(files, second),
    ensures
        first is Ok <==> second is Ok,
        first is Ok ==> first->Ok_0@ == second->Ok_0@,
        first is Err ==> first->Err_0 == second->Err_0,
{
    let chosen = scan_candidates(files);
    if first is Err {
        let p = choose|p: int|
            #![trigger chosen[p]]
            first_failure(files, p) && first->Err_0.index == chosen[p];
        if second is Err {
            let q = choose|q: int|
                #![trigger chosen[q]]
                first_failure(files, q) && second->Err_0.index == chosen[q];
            if p < q {
                assert(digestible_at(files, p));
            }
            if q < p {
                assert(digestible_at(files, q));
            }
        } else {
            assert(digestible_at(files, p));
        }
    } else if second is Err {
        let q = choose|q: int|
            #![trigger chosen[q]]
            first_failure(files, q) && second->Err_0.index == chosen[q];
        assert(digestible_at(files, q));
    } else {
        let a = first->Ok_0@;
        let b = second->Ok_0@;
        assert(confirmed_view(a) == confirmed_view(b));
        assert(a.len() == b.len());
        assert forall|k: int| 0 <= k < a.len() implies a[k] == b[k] by {
            assert(confirmed_view(a)[k] == confirmed_view(b)[k]);
        }
        assert(a =~= b);
    }
}

/// Whether the candidate at `p` can be digested.
spec fn digestible_at(files: Seq<StoredFile>, p: int) -> bool {
    crate::scan::digestible(files[scan_candidates(files)[p]])
}


/// No file is digested twice, no pair is compared twice, and no pair is
/// reported twice.
pub proof fn lemma_nothing_twice(files: Seq<StoredFile>)
    ensures
        scan_candidates(files).no_duplicates(),
        scan_pairs(files).no_duplicates(),
        duplicate_pairs(files).no_duplicates(),
{
    let sizes = stored_sizes(files);
    let chosen = scan_candidates(files);
    lemma_survivors(sizes);
    assert forall|p: int, q: int|
        0 <= p < chosen.len() && 0 <= q < chosen.len() && p != q implies chosen[p] != chosen[q] by {
        if sizes[chosen[p]] == sizes[chosen[q]] {
            if p < q {
                assert(chosen[p] < chosen[q]);
            } else {
                assert(chosen[q] < chosen[p]);
            }
        }
    }
    lemma_relabel_disjoint(scan_keys(files), chosen);
    lemma_all_pairs_distinct(relabel(grouping(scan_keys(files)), chosen));
    lemma_filter_distinct(scan_pairs(files), content_filter(files));
}

/// What is kept of a sequence without repetitions has none.
proof fn lemma_filter_distinct(pairs: Seq<(int, int)>, test: spec_fn((int, int)) -> bool)
    requires
        pairs.no_duplicates(),
    ensures
        pairs.filter(test).no_duplicates(),
    decreases pairs.len(),
{
    reveal(Seq::filter);
    if pairs.len() > 0 {
        let front = pairs.drop_last();
        lemma_filter_distinct(front, test);
        if test(pairs.last()) {
            let kept = front.filter(test);
            let grown = kept.push(pairs.last());
            if kept.contains(pairs.last()) {
                front.lemma_filter_contains_rev(test, pairs.last());
                let k = choose|k: int| 0 <= k < front.len() && front[k] == pairs.last();
                assert(pairs[k] == pairs[pairs.len() - 1]);
            }
            assert forall|k: int, l: int|
                0 <= k < grown.len() && 0 <= l < grown.len() && k != l implies grown[k]
                != grown[l] by {
                if k < kept.len() {
                    assert(kept.contains(kept[k]));
                }
                if l < kept.len() {
                    assert(kept.contains(kept[l]));
                }
            }
        }
    }
}

/// Two files have the same digest text exactly when they have the same
/// digest.
pub proof fn lemma_same_text_same_digest(first: StoredFile, second: StoredFile)
    ensures
        digest_text(first) == digest_text(second) <==> sha256(first.content->0@) == sha256(
            second.content->0@,
        ),
{
    if digest_text(first) == digest_text(second) {
        lemma_hex_upper_injective(sha256(first.content->0@), sha256(second.content->0@));
    }
}

} // verus!
