//! What a block-level transfer does, told by bytes, blocks and counts alone.
use vstd::prelude::*;

use super::blocks::{
    blake3_digest, block_count, block_len, block_of, lemma_block_in_file, BlockRange,
};
use super::machine::{
    law_dense_is_more_than_seven_tenths, ranges_of, ActionModel, BlockDeltaResult,
};
use super::outcome::{
    beginning, bytes_in, changed_blocks, is_current, law_transfer_has_outcome,
    lemma_after_after, lemma_block_count_bounds, lemma_byte_in_block, lemma_bytes_within_file,
    lemma_changed_blocks,
    lemma_read_before_failure, outcome, patched, read_before_failure, remembered, Situation, World,
};
use crate::numerals::hex_bytes;

verus! {

/// A byte lies in the block that its position divided by the block size names,
/// and in no other: block `index` covers exactly those bytes of the file.
pub proof fn law_blocks_divide_the_file(size: int, index: int, block_size: int, j: int)
    requires
        0 <= size,
        0 <= index,
        0 < block_size,
    ensures
        0 <= block_len(size, index, block_size) <= block_size,
        index * block_size <= j < index * block_size + block_len(size, index, block_size) <==> 0
            <= j < size && j / block_size == index,
{
    assert(0 <= index * block_size) by (nonlinear_arith)
        requires
            0 <= index,
            0 < block_size,
    ;
    if 0 <= j {
        lemma_byte_in_block(j, index, block_size);
    }
}

/// A file has as many blocks as it takes to cover it, and no more.
pub proof fn law_blocks_cover_the_file(size: int, block_size: int)
    requires
        0 <= size,
        0 < block_size,
    ensures
        block_count(size, block_size) * block_size >= size,
        (block_count(size, block_size) - 1) * block_size < size,
        block_count(size, block_size) >= 0,
{
    let count = block_count(size, block_size);
    lemma_block_count_bounds(size, block_size);
    lemma_block_in_file(size, count, block_size);
    if count > 0 {
        lemma_block_in_file(size, count - 1, block_size);
    } else {
        assert((count - 1) * block_size < 0) by (nonlinear_arith)
            requires
                count == 0,
                0 < block_size,
        ;
    }
}

/// A transfer ends in one way only.
pub proof fn law_transfer_ends_in_one_way(
    start: Situation,
    last: ActionModel,
    world: World,
    other_last: ActionModel,
    other_world: World,
)
    requires
        start.ends_with(last, world),
        start.ends_with(other_last, other_world),
    ensures
        last == other_last,
        world == other_world,
{
    let m = choose|m: nat|
        {
            let end = #[trigger] start.after(m);
            end.is_over() && end.action == last && end.world == world
        };
    let n = choose|n: nat|
        {
            let end = #[trigger] start.after(n);
            end.is_over() && end.action == other_last && end.world == other_world
        };
    if m <= n {
        lemma_after_after(start, m, (n - m) as nat);
        lemma_stays_over(start.after(m), (n - m) as nat);
    } else {
        lemma_after_after(start, n, (m - n) as nat);
        lemma_stays_over(start.after(n), (m - n) as nat);
    }
}

/// Where nothing more is asked for, nothing more happens.
proof fn lemma_stays_over(end: Situation, steps: nat)
    requires
        end.is_over(),
    ensures
        end.after(steps) == end,
    decreases steps,
{
    if steps > 0 {
        lemma_stays_over(end, (steps - 1) as nat);
    }
}

/// When a transfer by blocks is not even considered: a remote file below the
/// minimum size is left to the caller, one that is not here yet is downloaded,
/// and one of another size is downloaded and its remembered digests dropped.
/// In no case is anything written or read.
pub proof fn law_transfer_needs_a_file_of_the_same_size(
    world: World,
    block_size: u32,
    min_size: u64,
)
    requires
        world.sizes_fit(),
    ensures
        ({
            let start = beginning(world, block_size, min_size);
            let size = world.remote.len();
            &&& size < min_size ==> start.ends_with(
                ActionModel::Finish(BlockDeltaResult::TooSmall),
                world,
            )
            &&& size >= min_size && world.local is None ==> start.ends_with(
                ActionModel::Finish(BlockDeltaResult::FullDownload),
                world,
            )
            &&& size >= min_size && world.local is Some && world.local->0.len() != size
                ==> start.ends_with(
                ActionModel::Finish(BlockDeltaResult::FullDownload),
                World { table: Map::empty(), ..world },
            )
        }),
{
    let size = world.remote.len();
    if size < min_size || world.local is None || world.contents().len() != size {
        law_transfer_has_outcome(world, block_size, min_size);
    }
}

/// The bytes of block `index` of `contents`.
pub open spec fn bytes_of_block(contents: Seq<u8>, index: int, block_size: int) -> Seq<u8> {
    contents.subrange(
        index * block_size,
        if (index + 1) * block_size < contents.len() {
            (index + 1) * block_size
        } else {
            contents.len() as int
        },
    )
}

/// A local file of the size of the remote one, in `count` blocks, of which
/// exactly `changed`, in ascending order, have another digest than the
/// remembered one, or none remembered.
pub open spec fn has_changed(
    world: World,
    block_size: u32,
    min_size: u64,
    count: int,
    changed: Seq<u64>,
) -> bool {
    &&& world.sizes_fit()
    &&& block_size > 0
    &&& min_size <= world.remote.len()
    &&& world.local is Some
    &&& world.local->0.len() == world.remote.len()
    &&& 0 <= count
    &&& (count - 1) * block_size < world.remote.len() <= count * block_size
    &&& forall|k: int, l: int| 0 <= k < l < changed.len() ==> changed[k] < changed[l]
    &&& forall|i: u64|
        #![trigger changed.contains(i)]
        changed.contains(i) <==> i < count && !(world.table.contains_key(i) && world.table[i]
            == hex_bytes(
            blake3_digest(bytes_of_block(world.local->0, i as int, block_size as int)),
        ))
}

/// The ranges of the remote file that the changed blocks cover.
pub open spec fn ranges_to_read(size: int, block_size: int, changed: Seq<u64>) -> Seq<BlockRange> {
    Seq::new(
        changed.len(),
        |k: int|
            BlockRange {
                block_index: changed[k],
                offset: (changed[k] * block_size) as u64,
                len: (if (changed[k] + 1) * block_size <= size {
                    block_size
                } else {
                    size - changed[k] * block_size
                }) as u64,
            },
    )
}

/// `local` with every byte of the given blocks taken from `remote`.
pub open spec fn taken_over(
    local: Seq<u8>,
    remote: Seq<u8>,
    block_size: int,
    blocks: Seq<u64>,
) -> Seq<u8> {
    Seq::new(
        local.len(),
        |j: int|
            if blocks.contains((j / block_size) as u64) {
                remote[j]
            } else {
                local[j]
            },
    )
}

/// If more than seven tenths of the blocks changed, the whole file is to be
/// downloaded: nothing is read or written, and the remembered digests are
/// dropped.
pub proof fn law_dense_change_is_a_full_download(
    world: World,
    block_size: u32,
    min_size: u64,
    count: int,
    changed: Seq<u64>,
)
    requires
        has_changed(world, block_size, min_size, count, changed),
        10 * changed.len() > 7 * count,
    ensures
        beginning(world, block_size, min_size).ends_with(
            ActionModel::Finish(BlockDeltaResult::FullDownload),
            World { table: Map::empty(), ..world },
        ),
{
    lemma_has_changed(world, block_size, min_size, count, changed);
    law_transfer_has_outcome(world, block_size, min_size);
    law_dense_is_more_than_seven_tenths(changed.len() as int, count);
}

/// If no block changed, all are skipped and the world stays as it is.
pub proof fn law_unchanged_file_is_skipped(
    world: World,
    block_size: u32,
    min_size: u64,
    count: int,
)
    requires
        has_changed(world, block_size, min_size, count, Seq::empty()),
    ensures
        count <= u64::MAX,
        beginning(world, block_size, min_size).ends_with(
            ActionModel::Finish(
                BlockDeltaResult::Partial {
                    blocks_downloaded: 0,
                    blocks_skipped: count as u64,
                    bytes_downloaded: 0,
                },
            ),
            world,
        ),
{
    lemma_has_changed(world, block_size, min_size, count, Seq::empty());
    law_transfer_has_outcome(world, block_size, min_size);
    law_dense_is_more_than_seven_tenths(0, count);
}

/// If some blocks changed, but no more than seven tenths of them, and all of
/// them can be read, exactly those are read, once each. Their bytes are taken
/// over from the remote file and no other byte is touched, the digests of all
/// blocks as they then are are remembered, and the blocks and bytes are counted.
pub proof fn law_sparse_change_fetches_the_changed_blocks(
    world: World,
    block_size: u32,
    min_size: u64,
    count: int,
    changed: Seq<u64>,
)
    requires
        has_changed(world, block_size, min_size, count, changed),
        0 < 10 * changed.len() <= 7 * count,
        forall|i: u64| changed.contains(i) ==> !#[trigger] world.failing.contains(i),
    ensures
        count <= u64::MAX,
        ({
            let size = world.remote.len() as int;
            let unit = block_size as int;
            let contents = taken_over(world.local->0, world.remote, unit, changed);
            let missing = if changed[changed.len() - 1] == count - 1 {
                count * unit - size
            } else {
                0
            };
            &&& 0 <= changed.len() * unit - missing <= u64::MAX
            &&& beginning(world, block_size, min_size).ends_with(
                ActionModel::Finish(
                    BlockDeltaResult::Partial {
                        blocks_downloaded: changed.len() as u64,
                        blocks_skipped: (count - changed.len()) as u64,
                        bytes_downloaded: (changed.len() * unit - missing) as u64,
                    },
                ),
                World {
                    remote: world.remote,
                    failing: world.failing,
                    local: Some(contents),
                    table: Map::new(
                        |i: u64| i < count || world.table.contains_key(i),
                        |i: u64|
                            if i < count {
                                hex_bytes(blake3_digest(bytes_of_block(contents, i as int, unit)))
                            } else {
                                world.table[i]
                            },
                    ),
                    asked: world.asked + ranges_to_read(size, unit, changed),
                },
            )
        }),
{
    let size = world.remote.len() as int;
    let unit = block_size as int;
    let contents = taken_over(world.local->0, world.remote, unit, changed);
    lemma_has_changed(world, block_size, min_size, count, changed);
    law_transfer_has_outcome(world, block_size, min_size);
    law_dense_is_more_than_seven_tenths(changed.len() as int, count);
    let readable = read_before_failure(world.failing, changed);
    lemma_read_before_failure(world.failing, changed);
    if readable < changed.len() {
        assert(changed.contains(changed[readable]));
    }
    lemma_ranges(size, unit, count, changed);
    lemma_bytes(size, unit, count, changed);
    lemma_bytes_within_file(size, changed, unit, 0);
    assert(patched(world.contents(), world.remote, changed, unit) =~= contents);
    let left = outcome(world, block_size, min_size).1;
    let table = Map::new(
        |i: u64| i < count || world.table.contains_key(i),
        |i: u64|
            if i < count {
                hex_bytes(blake3_digest(bytes_of_block(contents, i as int, unit)))
            } else {
                world.table[i]
            },
    );
    assert forall|i: u64| #[trigger] left.table.contains_key(i) <==> table.contains_key(i) by {
        lemma_remembered_at(world.table, contents, count as nat, unit, i);
    }
    assert forall|i: u64| table.contains_key(i) implies #[trigger] left.table[i] == table[i] by {
        lemma_remembered_at(world.table, contents, count as nat, unit, i);
        if i < count {
            lemma_block_in_file(size, i as int, unit);
            lemma_bytes_of_block(contents, i as int, unit);
        }
    }
    assert(left.table =~= table);
}

/// If the first of the changed blocks that cannot be read is at `position`, the
/// transfer ends there: the blocks before it have been taken over, nothing else
/// is written, and nothing is remembered or forgotten.
pub proof fn law_sparse_change_stops_at_a_failed_read(
    world: World,
    block_size: u32,
    min_size: u64,
    count: int,
    changed: Seq<u64>,
    position: int,
)
    requires
        has_changed(world, block_size, min_size, count, changed),
        10 * changed.len() <= 7 * count,
        0 <= position < changed.len(),
        world.failing.contains(changed[position]),
        forall|k: int| 0 <= k < position ==> !world.failing.contains(#[trigger] changed[k]),
    ensures
        beginning(world, block_size, min_size).ends_with(
            ActionModel::FetchFailed { position },
            World {
                remote: world.remote,
                failing: world.failing,
                local: Some(
                    taken_over(
                        world.local->0,
                        world.remote,
                        block_size as int,
                        changed.take(position),
                    ),
                ),
                table: world.table,
                asked: world.asked + ranges_to_read(
                    world.remote.len() as int,
                    block_size as int,
                    changed,
                ),
            },
        ),
{
    let size = world.remote.len() as int;
    let unit = block_size as int;
    lemma_has_changed(world, block_size, min_size, count, changed);
    law_transfer_has_outcome(world, block_size, min_size);
    law_dense_is_more_than_seven_tenths(changed.len() as int, count);
    let readable = read_before_failure(world.failing, changed);
    lemma_read_before_failure(world.failing, changed);
    if readable < position {
        assert(world.failing.contains(changed[readable]));
    }
    assert(readable == position);
    lemma_ranges(size, unit, count, changed);
    assert(patched(world.contents(), world.remote, changed.take(position), unit) =~= taken_over(
        world.local->0,
        world.remote,
        unit,
        changed.take(position),
    ));
}

/// The number of blocks and the changed blocks are those that the outcome of a
/// transfer speaks of.
proof fn lemma_has_changed(
    world: World,
    block_size: u32,
    min_size: u64,
    count: int,
    changed: Seq<u64>,
)
    requires
        has_changed(world, block_size, min_size, count, changed),
    ensures
        count == block_count(world.remote.len() as int, block_size as int),
        count <= u64::MAX,
        changed == changed_blocks(world, count as nat, block_size as int),
        changed.len() <= count,
        forall|k: int| 0 <= k < changed.len() ==> (#[trigger] changed[k]) < count,
{
    let size = world.remote.len() as int;
    let unit = block_size as int;
    lemma_block_count_bounds(size, unit);
    lemma_block_in_file(size, count, unit);
    if count > 0 {
        lemma_block_in_file(size, count - 1, unit);
    }
    assert(count == block_count(size, unit));
    lemma_changed_blocks(world, count as nat, unit);
    let other = changed_blocks(world, count as nat, unit);
    assert forall|i: u64| changed.contains(i) <==> #[trigger] other.contains(i) by {
        if i < count {
            lemma_block_in_file(size, i as int, unit);
            lemma_bytes_of_block(world.contents(), i as int, unit);
        }
        let current = is_current(world, i as int, unit);
        assert(other.contains(i) <==> i < count && !current);
        assert(changed.contains(i) <==> i < count && !current);
    }
    lemma_same_blocks(changed, other);
}

/// Two lists in ascending order that name the same blocks are the same.
proof fn lemma_same_blocks(a: Seq<u64>, b: Seq<u64>)
    requires
        forall|k: int, l: int| 0 <= k < l < a.len() ==> a[k] < a[l],
        forall|k: int, l: int| 0 <= k < l < b.len() ==> b[k] < b[l],
        forall|i: u64| a.contains(i) <==> b.contains(i),
    ensures
        a == b,
    decreases a.len(),
{
    if a.len() == 0 {
        if b.len() > 0 {
            assert(b.contains(b[0]));
        }
        assert(a =~= b);
    } else {
        assert(a.contains(a.last()));
        let p = choose|p: int| 0 <= p < b.len() && b[p] == a.last();
        assert(b.contains(b.last()));
        let q = choose|q: int| 0 <= q < a.len() && a[q] == b.last();
        if p < b.len() - 1 {
            assert(b[p] < b[b.len() - 1]);
        }
        if q < a.len() - 1 {
            assert(a[q] < a[a.len() - 1]);
        }
        assert(a.last() == b.last());
        assert forall|i: u64| a.drop_last().contains(i) <==> b.drop_last().contains(i) by {
            lemma_without_last(a, i);
            lemma_without_last(b, i);
        }
        lemma_same_blocks(a.drop_last(), b.drop_last());
        assert(a =~= a.drop_last().push(a.last()));
        assert(b =~= b.drop_last().push(b.last()));
    }
}

/// What a list in ascending order names without its last block.
proof fn lemma_without_last(a: Seq<u64>, i: u64)
    requires
        a.len() > 0,
        forall|k: int, l: int| 0 <= k < l < a.len() ==> a[k] < a[l],
    ensures
        a.drop_last().contains(i) <==> a.contains(i) && i != a.last(),
{
    if a.drop_last().contains(i) {
        let k = choose|k: int| 0 <= k < a.drop_last().len() && a.drop_last()[k] == i;
        assert(a[k] == i);
        assert(a[k] < a[a.len() - 1]);
    }
    if a.contains(i) && i != a.last() {
        let k = choose|k: int| 0 <= k < a.len() && a[k] == i;
        assert(a.drop_last()[k] == i);
    }
}

/// A block that starts in the file has its bytes from there on.
proof fn lemma_bytes_of_block(contents: Seq<u8>, index: int, block_size: int)
    requires
        0 <= index,
        0 < block_size,
        index * block_size < contents.len(),
    ensures
        block_of(contents, index, block_size) == bytes_of_block(contents, index, block_size),
{
    assert((index + 1) * block_size == index * block_size + block_size) by (nonlinear_arith);
    assert(0 <= index * block_size) by (nonlinear_arith)
        requires
            0 <= index,
            0 < block_size,
    ;
    assert(block_of(contents, index, block_size) =~= bytes_of_block(contents, index, block_size));
}

/// The ranges that a transfer asks for.
proof fn lemma_ranges(size: int, block_size: int, count: int, changed: Seq<u64>)
    requires
        0 <= size,
        0 < block_size,
        (count - 1) * block_size < size,
        forall|k: int| 0 <= k < changed.len() ==> (#[trigger] changed[k]) < count,
    ensures
        ranges_of(size, changed, block_size) == ranges_to_read(size, block_size, changed),
{
    let a = ranges_of(size, changed, block_size);
    let b = ranges_to_read(size, block_size, changed);
    assert forall|k: int| 0 <= k < changed.len() implies a[k] == b[k] by {
        let index = changed[k] as int;
        assert(index < count);
        assert((index + 1) * block_size == index * block_size + block_size) by (nonlinear_arith);
        assert(index * block_size <= (count - 1) * block_size) by (nonlinear_arith)
            requires
                index <= count - 1,
                0 < block_size,
        ;
    }
    assert(a =~= b);
}

/// All blocks but the last are full.
proof fn lemma_bytes(size: int, block_size: int, count: int, changed: Seq<u64>)
    requires
        0 <= size <= u64::MAX,
        0 < block_size,
        (count - 1) * block_size < size <= count * block_size,
        forall|k: int| 0 <= k < changed.len() ==> (#[trigger] changed[k]) < count,
        forall|k: int, l: int| 0 <= k < l < changed.len() ==> changed[k] < changed[l],
    ensures
        0 <= bytes_in(size, changed, block_size),
        bytes_in(size, changed, block_size) == changed.len() * block_size - (if changed.len() > 0
            && changed[changed.len() - 1] == count - 1 {
            count * block_size - size
        } else {
            0
        }),
    decreases changed.len(),
{
    if changed.len() > 0 {
        let rest = changed.skip(1);
        let first = changed[0] as int;
        assert forall|k: int| 0 <= k < rest.len() implies (#[trigger] rest[k]) < count by {
            assert(rest[k] == changed[k + 1]);
        }
        lemma_bytes(size, block_size, count, rest);
        assert(changed.len() * block_size == rest.len() * block_size + block_size)
            by (nonlinear_arith)
            requires
                changed.len() == rest.len() + 1,
        ;
        assert(first < count);
        assert((count - 1) * block_size == count * block_size - block_size) by (nonlinear_arith);
        if rest.len() > 0 {
            assert(rest[rest.len() - 1] == changed[changed.len() - 1]);
            assert(changed[0] < changed[changed.len() - 1]);
            assert(changed[changed.len() - 1] < count);
            assert((first + 1) * block_size <= (count - 1) * block_size) by (nonlinear_arith)
                requires
                    first + 1 <= count - 1,
                    0 < block_size,
            ;
            assert((first + 1) * block_size == first * block_size + block_size)
                by (nonlinear_arith);
        } else if first < count - 1 {
            assert((first + 1) * block_size <= (count - 1) * block_size) by (nonlinear_arith)
                requires
                    first + 1 <= count - 1,
                    0 < block_size,
            ;
            assert((first + 1) * block_size == first * block_size + block_size)
                by (nonlinear_arith);
        }
    } else {
        assert(changed.len() * block_size == 0) by (nonlinear_arith)
            requires
                changed.len() == 0,
        ;
    }
}

/// What is remembered of a block once the first `count` blocks have been.
proof fn lemma_remembered_at(
    table: Map<u64, Seq<char>>,
    contents: Seq<u8>,
    count: nat,
    block_size: int,
    i: u64,
)
    requires
        count <= u64::MAX,
    ensures
        ({
            let after = remembered(table, contents, count, block_size);
            &&& after.contains_key(i) <==> i < count || table.contains_key(i)
            &&& i < count ==> after[i] == hex_bytes(
                blake3_digest(block_of(contents, i as int, block_size)),
            )
            &&& i >= count && table.contains_key(i) ==> after[i] == table[i]
        }),
    decreases count,
{
    if count > 0 {
        lemma_remembered_at(table, contents, (count - 1) as nat, block_size, i);
    }
}

} // verus!
