//! Blocks of a file: where they lie, and their digests.
use vstd::arithmetic::div_mod::{lemma_fundamental_div_mod, lemma_fundamental_div_mod_converse};
use vstd::prelude::*;

use crate::numerals::hex_bytes;

verus! {

/// Block size where none is configured: 5 MiB.
pub const DEFAULT_BLOCK_SIZE: u32 = 5 * 1024 * 1024;

/// Smallest file that is worth a block-level transfer: 100 MiB.
pub const DEFAULT_DELTA_MIN_SIZE: u64 = 100 * 1024 * 1024;

/// How many blocks of `block_size` bytes it takes to cover `size` bytes.
pub open spec fn block_count(size: int, block_size: int) -> int {
    (size + block_size - 1) / block_size
}

/// How many bytes of a file of `size` bytes block `index` holds.
pub open spec fn block_len(size: int, index: int, block_size: int) -> int {
    if size <= index * block_size {
        0
    } else if size - index * block_size < block_size {
        size - index * block_size
    } else {
        block_size
    }
}

/// The bytes of block `index` of `contents`.
pub open spec fn block_of(contents: Seq<u8>, index: int, block_size: int) -> Seq<u8> {
    Seq::new(
        block_len(contents.len() as int, index, block_size) as nat,
        |j: int| contents[index * block_size + j],
    )
}

/// A block starts inside the file exactly if its index is below the block count.
pub proof fn lemma_block_in_file(size: int, index: int, block_size: int)
    requires
        0 <= size,
        0 <= index,
        0 < block_size,
    ensures
        index < block_count(size, block_size) <==> index * block_size < size,
{
    let count = block_count(size, block_size);
    lemma_fundamental_div_mod(size + block_size - 1, block_size);
    let rest = (size + block_size - 1) % block_size;
    assert(count * block_size == size + block_size - 1 - rest) by (nonlinear_arith)
        requires
            size + block_size - 1 == block_size * count + rest,
    ;
    if index < count {
        assert(index * block_size <= (count - 1) * block_size) by (nonlinear_arith)
            requires
                index <= count - 1,
                0 < block_size,
        ;
        assert((count - 1) * block_size == count * block_size - block_size) by (nonlinear_arith);
    } else {
        assert(index * block_size >= count * block_size) by (nonlinear_arith)
            requires
                index >= count,
                0 < block_size,
        ;
    }
}

/// Counts the blocks of a file.
pub fn count_blocks(size: u64, block_size: u32) -> (count: u64)
    requires
        block_size > 0,
    ensures
        count == block_count(size as int, block_size as int),
{
    let unit: u64 = block_size as u64;
    let whole: u64 = size / unit;
    let rest: u64 = size % unit;
    proof {
        let s = size as int;
        let b = block_size as int;
        lemma_fundamental_div_mod(s, b);
        let q = s / b;
        let r = s % b;
        let up = q + (if r > 0 { 1int } else { 0int });
        assert(up * b == q * b + (if r > 0 { b } else { 0 })) by (nonlinear_arith)
            requires
                up == q + (if r > 0 { 1int } else { 0int }),
        ;
        assert(b * q == q * b) by (nonlinear_arith);
        let left = s + b - 1 - up * b;
        assert(0 <= left < b);
        lemma_fundamental_div_mod_converse(s + b - 1, b, up, left);
        assert(q <= s) by (nonlinear_arith)
            requires
                s == b * q + r,
                0 <= r,
                0 < b,
                0 <= s,
        ;
        if r > 0 {
            assert(q < s) by (nonlinear_arith)
                requires
                    s == b * q + r,
                    0 < r,
                    0 < b,
                    0 <= s,
            ;
        }
    }
    if rest > 0 {
        whole + 1
    } else {
        whole
    }
}

/// The part of a file that a block covers.
#[derive(Clone, Copy, Debug, PartialEq, Eq, Structural)]
pub struct BlockRange {
    pub block_index: u64,
    pub offset: u64,
    pub len: u64,
}

/// Where block `index` of a file of `size` bytes lies.
pub open spec fn range_of(size: int, index: u64, block_size: int) -> BlockRange {
    BlockRange {
        block_index: index,
        offset: (index * block_size) as u64,
        len: block_len(size, index as int, block_size) as u64,
    }
}

/// Where block `block_index` of a file of `file_size` bytes lies: the last
/// block ends with the file, and a block past the end is empty.
pub fn block_range(file_size: u64, block_index: u64, block_size: u32) -> (range: BlockRange)
    requires
        block_index * block_size <= u64::MAX,
    ensures
        range == range_of(file_size as int, block_index, block_size as int),
        range.offset == block_index * block_size,
        range.len == block_len(file_size as int, block_index as int, block_size as int),
{
    let offset: u64 = block_index * block_size as u64;
    let remaining: u64 = file_size.saturating_sub(offset);
    let len: u64 = if remaining < block_size as u64 { remaining } else { block_size as u64 };
    BlockRange { block_index, offset, len }
}

/// The 32-byte BLAKE3 hash of `data`.
pub uninterp spec fn blake3_digest(data: Seq<u8>) -> Seq<u8>;

/// `blake3::hash` depends on the bytes alone.
#[verifier::external_body]
fn blake3_hash(data: &[u8]) -> (digest: [u8; 32])
    ensures
        digest@ == blake3_digest(data@),
{
    *blake3::hash(data).as_bytes()
}

/// `blake3::Hash::to_hex` writes the 32 bytes in lowercase hexadecimal.
#[verifier::external_body]
fn blake3_to_hex(digest: [u8; 32]) -> (text: String)
    ensures
        text@ == hex_bytes(digest@),
{
    blake3::Hash::from_bytes(digest).to_hex().to_string()
}

/// How the digest of a block is remembered: its BLAKE3 hash in lowercase
/// hexadecimal.
pub open spec fn block_digest(data: Seq<u8>) -> Seq<char> {
    hex_bytes(blake3_digest(data))
}

/// Writes the hash of a block as 64 lowercase hexadecimal digits.
pub fn format_block_hash(hash: [u8; 32]) -> (text: String)
    ensures
        text@ == hex_bytes(hash@),
        text@.len() == 64,
{
    blake3_to_hex(hash)
}

/// Digests the bytes of one block.
pub fn hash_block(data: &[u8]) -> (digest: String)
    ensures
        digest@ == block_digest(data@),
        digest@ == hex_bytes(blake3_digest(data@)),
        digest@.len() == 64,
{
    format_block_hash(blake3_hash(data))
}

} // verus!
