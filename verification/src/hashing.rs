//! Content digests: 128-bit xxHash3, and their text form.
use vstd::prelude::*;

use crate::numerals::{hex, law_hex_has_width, law_hex_is_injective, pow16, push_hex};
use xxhash_rust::xxh3::Xxh3;

verus! {

/// The streaming xxHash3 state of the `xxhash_rust` crate.
#[verifier::external_type_specification]
#[verifier::external_body]
pub struct ExXxh3(Xxh3);

/// The bytes that a streaming hasher has been given so far, in order.
pub uninterp spec fn xxh3_fed(hasher: Xxh3) -> Seq<u8>;

/// The 128-bit xxHash3 of `data`, with the default seed and secret.
pub uninterp spec fn xxh3_128(data: Seq<u8>) -> u128;

/// `Xxh3::new` makes a hasher with the default seed and secret that has been
/// given nothing yet.
#[verifier::external_body]
fn xxh3_new() -> (hasher: Xxh3)
    ensures
        xxh3_fed(hasher) == Seq::<u8>::empty(),
{
    Xxh3::new()
}

/// `Xxh3::update` takes `data` in behind what the hasher has already taken.
#[verifier::external_body]
fn xxh3_update(hasher: &mut Xxh3, data: &[u8])
    ensures
        xxh3_fed(*final(hasher)) == xxh3_fed(*old(hasher)) + data@,
{
    hasher.update(data);
}

/// `Xxh3::digest128` is the 128-bit hash of all bytes taken in, however they
/// were split between the calls that brought them.
#[verifier::external_body]
fn xxh3_digest128(hasher: &Xxh3) -> (digest: u128)
    ensures
        digest == xxh3_128(xxh3_fed(*hasher)),
{
    hasher.digest128()
}

/// Hashes a byte string held in memory.
pub fn hash_bytes(data: &[u8]) -> (digest: u128)
    ensures
        digest == xxh3_128(data@),
{
    let mut hasher = xxh3_new();
    xxh3_update(&mut hasher, data);
    proof {
        assert(Seq::<u8>::empty() + data@ =~= data@);
    }
    xxh3_digest128(&hasher)
}

/// Hashes a file as it is read, one buffer at a time.
///
/// Its view is what has been read so far.
pub struct FileHasher {
    hasher: Xxh3,
}

impl View for FileHasher {
    type V = Seq<u8>;

    closed spec fn view(&self) -> Seq<u8> {
        xxh3_fed(self.hasher)
    }
}

impl FileHasher {
    /// A hasher for a file of which nothing has been read.
    pub fn new() -> (hasher: FileHasher)
        ensures
            hasher@ == Seq::<u8>::empty(),
    {
        FileHasher { hasher: xxh3_new() }
    }

    /// Takes in the next piece of the file.
    pub fn update(&mut self, piece: &[u8])
        ensures
            final(self)@ == old(self)@ + piece@,
    {
        xxh3_update(&mut self.hasher, piece);
    }

    /// The digest of what has been read.
    pub fn digest(&self) -> (digest: u128)
        ensures
            digest == xxh3_128(self@),
    {
        xxh3_digest128(&self.hasher)
    }
}

/// What a hasher holds that has taken in `pieces` one after the other.
pub open spec fn fed_by(pieces: Seq<Seq<u8>>) -> Seq<u8>
    decreases pieces.len(),
{
    if pieces.len() == 0 {
        Seq::empty()
    } else {
        fed_by(pieces.drop_last()) + pieces.last()
    }
}

/// A file read piece by piece gets the digest of its whole contents, wherever
/// the pieces end.
pub proof fn law_digest_ignores_piece_boundaries(pieces: Seq<Seq<u8>>, contents: Seq<u8>)
    requires
        pieces.flatten() == contents,
    ensures
        xxh3_128(fed_by(pieces)) == xxh3_128(contents),
{
    lemma_fed_is_concatenation(pieces);
}

proof fn lemma_fed_is_concatenation(pieces: Seq<Seq<u8>>)
    ensures
        fed_by(pieces) == pieces.flatten(),
    decreases pieces.len(),
{
    pieces.lemma_flatten_and_flatten_alt_are_equivalent();
    if pieces.len() > 0 {
        lemma_fed_is_concatenation(pieces.drop_last());
        pieces.drop_last().lemma_flatten_and_flatten_alt_are_equivalent();
    }
}

/// How many hexadecimal digits a digest is written in.
pub const DIGEST_WIDTH: u32 = 32;

/// Writes a digest as 32 lowercase hexadecimal digits, the highest first.
pub fn format_digest(v: u128) -> (text: String)
    ensures
        text@ == hex(v as int, 32),
{
    let mut text = String::new();
    push_hex(&mut text, v, DIGEST_WIDTH);
    proof {
        assert(Seq::<char>::empty() + hex(v as int, 32) =~= hex(v as int, 32));
    }
    text
}

/// A digest is always written in 32 characters, and two digests are written
/// alike only if they are the same.
pub proof fn law_formatted_digests_identify(v: u128, w: u128)
    ensures
        hex(v as int, 32).len() == 32,
        hex(v as int, 32) == hex(w as int, 32) ==> v == w,
{
    law_hex_has_width(v as int, 32);
    reveal_with_fuel(pow16, 33);
    assert(pow16(32) == u128::MAX + 1);
    if hex(v as int, 32) == hex(w as int, 32) {
        law_hex_is_injective(v as int, w as int, 32);
    }
}

} // verus!
