//! The last stage: two files are the same when their bytes are. They are read
//! in lockstep, a chunk of each at a time, and the first difference settles it.

use crate::digest::BLOCK_SIZE;
use vstd::prelude::*;
use vstd::slice::slice_subrange;

verus! {

/// What a pair of chunks, read at the same offset of two files, tells.
#[derive(Debug, Clone, Copy, PartialEq, Eq, Structural)]
pub enum ChunkVerdict {
    /// The files differ: the chunks differ in length or in some byte.
    Differ,
    /// Both chunks are empty: both files have ended, and nothing differed.
    Ended,
    /// The chunks are equal and not empty: the next pair has to be read.
    Continue,
}

/// The verdict on two chunks.
pub open spec fn chunk_verdict(chunk_1: Seq<u8>, chunk_2: Seq<u8>) -> ChunkVerdict {
    if chunk_1.len() != chunk_2.len() {
        ChunkVerdict::Differ
    } else if chunk_1.len() == 0 {
        ChunkVerdict::Ended
    } else if chunk_1 == chunk_2 {
        ChunkVerdict::Continue
    } else {
        ChunkVerdict::Differ
    }
}

/// Whether two chunks of one length hold the same bytes.
fn same_bytes(chunk_1: &[u8], chunk_2: &[u8]) -> (same: bool)
    requires
        chunk_1@.len() == chunk_2@.len(),
    ensures
        same == (chunk_1@ == chunk_2@),
{
    let mut i: usize = 0;
    while i < chunk_1.len()
        invariant
            i <= chunk_1@.len(),
            chunk_1@.len() == chunk_2@.len(),
            chunk_1@.take(i as int) == chunk_2@.take(i as int),
        decreases chunk_1.len() - i,
    {
        if chunk_1[i] != chunk_2[i] {
            return false;
        }
        assert(chunk_1@.take(i + 1) == chunk_1@.take(i as int).push(chunk_1@[i as int]));
        assert(chunk_2@.take(i + 1) == chunk_2@.take(i as int).push(chunk_2@[i as int]));
        i += 1;
    }
    assert(chunk_1@.take(chunk_1@.len() as int) == chunk_1@);
    assert(chunk_2@.take(chunk_2@.len() as int) == chunk_2@);
    true
}

/// Judges one pair of chunks. The caller reads a chunk of each file, hands
/// both over, and reads on while the verdict is `Continue`.
pub fn compare_chunks(chunk_1: &[u8], chunk_2: &[u8]) -> (verdict: ChunkVerdict)
    ensures
        verdict == chunk_verdict(chunk_1@, chunk_2@),
{
    if chunk_1.len() != chunk_2.len() {
        ChunkVerdict::Differ
    } else if chunk_1.len() == 0 {
        ChunkVerdict::Ended
    } else if same_bytes(chunk_1, chunk_2) {
        ChunkVerdict::Continue
    } else {
        ChunkVerdict::Differ
    }
}

/// The chunk of at most `BLOCK_SIZE` bytes that a read at `offset` yields.
fn chunk_at(content: &[u8], offset: usize) -> (chunk: &[u8])
    requires
        offset <= content@.len(),
    ensures
        chunk@ == content@.subrange(
            offset as int,
            if content@.len() - offset > BLOCK_SIZE {
                offset + BLOCK_SIZE
            } else {
                content@.len() as int
            },
        ),
        offset + chunk@.len() <= content@.len() <= usize::MAX,
{
    let end: usize = if content.len() - offset > BLOCK_SIZE {
        offset + BLOCK_SIZE
    } else {
        content.len()
    };
    slice_subrange(content, offset, end)
}

/// Whether two files hold the same bytes. The contents are walked in
/// lockstep, `BLOCK_SIZE` bytes of each at a time.
pub fn compare_files(content_1: &[u8], content_2: &[u8]) -> (same: bool)
    ensures
        same == (content_1@ == content_2@),
{
    let mut offset: usize = 0;
    loop
        invariant
            offset <= content_1@.len(),
            offset <= content_2@.len(),
            content_1@.take(offset as int) == content_2@.take(offset as int),
        decreases content_1@.len() - offset,
    {
        let chunk_1 = chunk_at(content_1, offset);
        let chunk_2 = chunk_at(content_2, offset);
        match compare_chunks(chunk_1, chunk_2) {
            ChunkVerdict::Differ => {
                proof {
                    if content_1@ == content_2@ {
                        assert(chunk_1@ == chunk_2@);
                    }
                }
                return false;
            },
            ChunkVerdict::Ended => {
                assert(content_1@.take(offset as int) == content_1@);
                assert(content_2@.take(offset as int) == content_2@);
                return true;
            },
            ChunkVerdict::Continue => {
                let ghost next = offset + chunk_1@.len();
                assert(content_1@.take(next) == content_1@.take(offset as int) + chunk_1@);
                assert(content_2@.take(next) == content_2@.take(offset as int) + chunk_2@);
                offset = offset + chunk_1.len();
            },
        }
    }
}

/// The comparison does not depend on the order of its arguments: a pair of
/// chunks gets the same verdict either way round, and so does a pair of files.
pub proof fn lemma_comparison_symmetric(first: Seq<u8>, second: Seq<u8>)
    ensures
        chunk_verdict(first, second) == chunk_verdict(second, first),
        (first == second) == (second == first),
{
}

} // verus!
