//! SHA-256 digests of file contents, computed by the `ring` crate block by
//! block, and their upper-case hexadecimal form, written by `data_encoding`.

use data_encoding::HEXUPPER;
use ring::digest::{Context, SHA256};
use vstd::prelude::*;
use vstd::slice::slice_subrange;

verus! {

/// `ring::digest::Context`, the state of a digest that is computed in steps.
/// Verus sees nothing inside it; what it has been given is named below.
#[verifier::external_type_specification]
#[verifier::external_body]
pub struct ExContext(Context);

/// The SHA-256 digest of `data`, as FIPS 180-4 defines it.
pub uninterp spec fn sha256(data: Seq<u8>) -> Seq<u8>;

/// The bytes that a digest context has been given since it was made, in order.
pub uninterp spec fn context_input(context: Context) -> Seq<u8>;

/// Whether a digest context was made for SHA-256.
pub uninterp spec fn context_is_sha256(context: Context) -> bool;

/// The longest input, in bytes, that can be digested: its length in bits has
/// to fit in 64 bits.
pub const MAX_INPUT_LEN: u64 = 0x1fff_ffff_ffff_ffff;

/// The number of bytes handed to the digest at a time.
pub const BLOCK_SIZE: usize = 8192;

/// The length of a SHA-256 digest in bytes.
pub const DIGEST_LEN: usize = 32;

/// `ring::digest::Context::new` with `SHA256`: a context for SHA-256 that has
/// been given nothing yet.
#[verifier::external_body]
fn context_new() -> (context: Context)
    ensures
        context_is_sha256(context),
        context_input(context).len() == 0,
{
    Context::new(&SHA256)
}

/// `ring::digest::Context::update`: the context has been given `data` after
/// what it had been given before, and is for the algorithm that it was made
/// for.
#[verifier::external_body]
fn context_update(context: &mut Context, data: &[u8])
    ensures
        context_input(*final(context)) == context_input(*old(context)) + data@,
        context_is_sha256(*final(context)) == context_is_sha256(*old(context)),
{
    context.update(data)
}

/// `ring::digest::Context::finish` on a context for SHA-256: the SHA-256
/// digest of all that the context has been given, 32 bytes long. `finish`
/// panics on an input whose length in bits does not fit in 64 bits, so such a
/// context is not accepted.
#[verifier::external_body]
fn context_finish(context: Context) -> (digest: Vec<u8>)
    requires
        context_is_sha256(context),
        context_input(context).len() <= MAX_INPUT_LEN,
    ensures
        digest@ == sha256(context_input(context)),
        digest@.len() == DIGEST_LEN,
{
    context.finish().as_ref().to_vec()
}

/// `data_encoding::HEXUPPER.encode`: two characters for each byte, the upper
/// four bits first, written with the digits `0`-`9` and `A`-`F`. `encode`
/// refuses an input longer than `usize::MAX / 512` bytes by panicking.
#[verifier::external_body]
fn encode_hex_upper(bytes: &[u8]) -> (text: String)
    requires
        bytes@.len() <= usize::MAX / 512,
    ensures
        text@ == hex_upper(bytes@),
{
    HEXUPPER.encode(bytes)
}

/// The sixteen digits of upper-case hexadecimal, by value.
pub open spec fn hex_digits() -> Seq<char> {
    seq!['0', '1', '2', '3', '4', '5', '6', '7', '8', '9', 'A', 'B', 'C', 'D', 'E', 'F']
}

/// The upper-case hexadecimal form of `bytes`: for each byte the digit of its
/// upper four bits, then the digit of its lower four.
pub open spec fn hex_upper(bytes: Seq<u8>) -> Seq<char> {
    Seq::new(
        2 * bytes.len(),
        |i: int|
            if i % 2 == 0 {
                hex_digits()[bytes[i / 2] as int / 16]
            } else {
                hex_digits()[bytes[i / 2] as int % 16]
            },
    )
}

/// Byte sequences with the same hexadecimal form are the same: grouping by
/// the text of a digest is grouping by the digest.
pub proof fn lemma_hex_upper_injective(first: Seq<u8>, second: Seq<u8>)
    requires
        hex_upper(first) == hex_upper(second),
    ensures
        first == second,
{
    assert(hex_upper(first).len() == 2 * first.len());
    assert(hex_upper(second).len() == 2 * second.len());
    assert(first.len() == second.len());
    assert forall|i: int| 0 <= i < first.len() implies first[i] == second[i] by {
        let a = first[i] as int;
        let b = second[i] as int;
        assert(hex_upper(first)[2 * i] == hex_digits()[a / 16]);
        assert(hex_upper(second)[2 * i] == hex_digits()[b / 16]);
        assert(hex_upper(first)[2 * i + 1] == hex_digits()[a % 16]);
        assert(hex_upper(second)[2 * i + 1] == hex_digits()[b % 16]);
        lemma_hex_digits_distinct(a / 16, b / 16);
        lemma_hex_digits_distinct(a % 16, b % 16);
    }
    assert(first =~= second);
}

/// No two of the sixteen digits are the same character.
proof fn lemma_hex_digits_distinct(a: int, b: int)
    requires
        0 <= a < 16,
        0 <= b < 16,
        hex_digits()[a] == hex_digits()[b],
    ensures
        a == b,
{
}

/// A SHA-256 digest: 32 bytes.
#[derive(Debug, PartialEq, Eq)]
pub struct Digest {
    bytes: Vec<u8>,
}

impl View for Digest {
    type V = Seq<u8>;

    closed spec fn view(&self) -> Seq<u8> {
        self.bytes@
    }
}

impl Digest {
    #[verifier::type_invariant]
    spec fn well_formed(self) -> bool {
        self.bytes@.len() == DIGEST_LEN
    }

    /// The bytes of the digest.
    pub fn bytes(&self) -> (bytes: &Vec<u8>)
        ensures
            bytes@ == self@,
            bytes@.len() == DIGEST_LEN,
    {
        proof {
            use_type_invariant(self);
        }
        &self.bytes
    }

    /// The digest in upper-case hexadecimal, the key under which files are
    /// grouped.
    pub fn hex(&self) -> (text: String)
        ensures
            text@ == hex_upper(self@),
    {
        proof {
            use_type_invariant(self);
        }
        encode_hex_upper(self.bytes.as_slice())
    }
}

/// A digest in the making: it takes the bytes of a file chunk by chunk.
pub struct DigestStream {
    context: Context,
    taken: u64,
}

impl View for DigestStream {
    type V = Seq<u8>;

    /// The bytes taken so far.
    closed spec fn view(&self) -> Seq<u8> {
        context_input(self.context)
    }
}

impl DigestStream {
    /// The context is one for SHA-256, and the count of bytes taken is kept
    /// beside it, up to `u64::MAX`.
    pub closed spec fn wf(&self) -> bool {
        &&& context_is_sha256(self.context)
        &&& self.taken == if context_input(self.context).len() <= u64::MAX {
            context_input(self.context).len() as int
        } else {
            u64::MAX as int
        }
    }

    /// A stream that has taken nothing.
    pub fn new() -> (stream: DigestStream)
        ensures
            stream.wf(),
            stream@.len() == 0,
    {
        DigestStream { context: context_new(), taken: 0 }
    }

    /// Takes `chunk` after what was taken before. The result tells whether the
    /// chunk held anything: an empty chunk is how a reader reports its end.
    pub fn absorb(&mut self, chunk: &[u8]) -> (more: bool)
        requires
            old(self).wf(),
        ensures
            final(self).wf(),
            final(self)@ == old(self)@ + chunk@,
            more == (chunk@.len() > 0),
    {
        context_update(&mut self.context, chunk);
        let room: u64 = u64::MAX - self.taken;
        if chunk.len() as u64 > room {
            self.taken = u64::MAX;
        } else {
            self.taken = self.taken + chunk.len() as u64;
        }
        chunk.len() > 0
    }

    /// The digest of all that was taken, or `None` where that is more than
    /// `MAX_INPUT_LEN` bytes, for which SHA-256 is not defined.
    pub fn finish(self) -> (digest: Option<Digest>)
        requires
            self.wf(),
        ensures
            digest.is_some() == (self@.len() <= MAX_INPUT_LEN),
            digest.is_some() ==> digest.unwrap()@ == sha256(self@),
    {
        if self.taken <= MAX_INPUT_LEN {
            Some(Digest { bytes: context_finish(self.context) })
        } else {
            None
        }
    }
}

/// The SHA-256 digest of `data`, which is handed to the digest in blocks of
/// `BLOCK_SIZE` bytes; `None` where `data` is longer than `MAX_INPUT_LEN`.
pub fn sha256_digest(data: &[u8]) -> (digest: Option<Digest>)
    ensures
        digest.is_some() == (data@.len() <= MAX_INPUT_LEN),
        digest.is_some() ==> digest.unwrap()@ == sha256(data@),
{
    let mut stream = DigestStream::new();
    let mut offset: usize = 0;
    assert(stream@ == data@.take(0));
    loop
        invariant_except_break
            offset <= data.len(),
            stream.wf(),
            stream@ == data@.take(offset as int),
        ensures
            stream.wf(),
            stream@ == data@,
        decreases data.len() - offset,
    {
        let end: usize = if data.len() - offset > BLOCK_SIZE {
            offset + BLOCK_SIZE
        } else {
            data.len()
        };
        let chunk = slice_subrange(data, offset, end);
        assert(data@.take(offset as int) + data@.subrange(offset as int, end as int) == data@.take(
            end as int,
        ));
        if !stream.absorb(chunk) {
            assert(data@.take(data.len() as int) == data@);
            break ;
        }
        offset = end;
    }
    stream.finish()
}

} // verus!
