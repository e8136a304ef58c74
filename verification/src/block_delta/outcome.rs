//! What a whole block-level transfer does, from the first question to the last.
//!
//! The laws here set the state machine against a world that answers it
//! truthfully: a remote file, some of whose blocks may fail to be read, a local
//! file and a table of remembered digests.
use vstd::arithmetic::div_mod::{lemma_fundamental_div_mod, lemma_fundamental_div_mod_converse};
use vstd::prelude::*;

use super::blocks::{
    block_count, block_digest, block_len, block_of, lemma_block_in_file, BlockRange,
};
use super::machine::{
    bytes_read, ranges_of, too_dense, ActionModel, BlockDeltaResult, EventModel, PhaseModel,
    TransferModel,
};

verus! {

/// What a transfer acts on.
#[verifier::ext_equal]
pub struct World {
    /// The contents of the remote file.
    pub remote: Seq<u8>,
    /// The blocks of the remote file whose reads fail.
    pub failing: Set<u64>,
    /// The contents of the local file, if there is one.
    pub local: Option<Seq<u8>>,
    /// The remembered digest of each block.
    pub table: Map<u64, Seq<char>>,
    /// The ranges of the remote file that have been asked for, in order.
    pub asked: Seq<BlockRange>,
}

/// A transfer under way: its state, what it asked for, and the world.
pub struct Situation {
    pub transfer: TransferModel,
    pub action: ActionModel,
    pub world: World,
}

/// The digests of the first `count` blocks of `contents`.
pub open spec fn digests(contents: Seq<u8>, count: nat, block_size: int) -> Seq<Seq<char>> {
    Seq::new(count, |i: int| block_digest(block_of(contents, i, block_size)))
}

/// `contents` with `data` written over it at `offset`; a write past the end
/// makes the file longer, and a gap before it reads as zeros.
pub open spec fn overwritten(contents: Seq<u8>, offset: int, data: Seq<u8>) -> Seq<u8> {
    Seq::new(
        if offset + data.len() > contents.len() {
            (offset + data.len()) as nat
        } else {
            contents.len()
        },
        |j: int|
            if offset <= j < offset + data.len() {
                data[j - offset]
            } else if j < contents.len() {
                contents[j]
            } else {
                0
            },
    )
}

impl World {
    /// What the local file holds; nothing if there is none.
    pub open spec fn contents(self) -> Seq<u8> {
        match self.local {
            Some(contents) => contents,
            None => Seq::empty(),
        }
    }

    /// The sizes can be told in 64 bits.
    pub open spec fn sizes_fit(self) -> bool {
        self.remote.len() <= u64::MAX && self.contents().len() <= u64::MAX
    }

    /// What performing `action` makes of the world, and what is then reported;
    /// `None` where the transfer asks for nothing more.
    pub open spec fn perform(self, action: ActionModel, block_size: int) -> Option<
        (World, EventModel),
    > {
        match action {
            ActionModel::StatRemote => Some(
                (self, EventModel::RemoteSize(self.remote.len() as u64)),
            ),
            ActionModel::StatLocal => Some(
                (
                    self,
                    EventModel::LocalSize(
                        match self.local {
                            Some(contents) => Some(contents.len() as u64),
                            None => None,
                        },
                    ),
                ),
            ),
            ActionModel::ClearBlocks => Some(
                (World { table: Map::empty(), ..self }, EventModel::Cleared),
            ),
            ActionModel::HashBlocks { total_blocks } => Some(
                (
                    self,
                    EventModel::LocalHashes(
                        digests(self.contents(), total_blocks as nat, block_size),
                    ),
                ),
            ),
            ActionModel::CheckBlock { block_index, hash } => Some(
                (
                    self,
                    EventModel::BlockMatch(
                        self.table.contains_key(block_index) && self.table[block_index] == hash,
                    ),
                ),
            ),
            ActionModel::FetchBlocks(ranges) => Some(
                (
                    World { asked: self.asked + ranges, ..self },
                    EventModel::Fetched(
                        Seq::new(
                            ranges.len(),
                            |i: int|
                                if self.failing.contains(ranges[i].block_index) {
                                    None
                                } else {
                                    Some(
                                        self.remote.subrange(
                                            ranges[i].offset as int,
                                            ranges[i].offset + ranges[i].len,
                                        ),
                                    )
                                },
                        ),
                    ),
                ),
            ),
            ActionModel::OpenLocal => Some((self, EventModel::Opened)),
            ActionModel::WriteBlock { offset, data } => Some(
                (
                    World {
                        local: Some(overwritten(self.contents(), offset as int, data)),
                        ..self
                    },
                    EventModel::Written,
                ),
            ),
            ActionModel::Flush => Some((self, EventModel::Flushed)),
            ActionModel::RehashBlock { block_index } => Some(
                (
                    self,
                    EventModel::Rehashed(
                        block_digest(block_of(self.contents(), block_index as int, block_size)),
                    ),
                ),
            ),
            ActionModel::StoreBlock { block_index, hash, .. } => Some(
                (
                    World { table: self.table.insert(block_index, hash), ..self },
                    EventModel::Stored,
                ),
            ),
            ActionModel::FetchFailed { .. } => None,
            ActionModel::Finish(_) => None,
            ActionModel::Rejected => None,
        }
    }
}

impl Situation {
    /// The situation one action later; the same one if nothing is asked for.
    pub open spec fn advanced(self) -> Situation {
        match self.world.perform(self.action, self.transfer.block_size as int) {
            Some((world, event)) => {
                let (transfer, action) = self.transfer.step(event);
                Situation { transfer, action, world }
            },
            None => self,
        }
    }

    /// The situation `steps` actions later.
    pub open spec fn after(self, steps: nat) -> Situation
        decreases steps,
    {
        if steps == 0 {
            self
        } else {
            self.advanced().after((steps - 1) as nat)
        }
    }

    /// Whether nothing more is asked for.
    pub open spec fn is_over(self) -> bool {
        self.world.perform(self.action, self.transfer.block_size as int) is None
    }

    /// Whether the transfer comes to its end with this last action, and leaves
    /// this world behind.
    pub open spec fn ends_with(self, last: ActionModel, world: World) -> bool {
        exists|steps: nat|
            {
                let end = #[trigger] self.after(steps);
                end.is_over() && end.action == last && end.world == world
            }
    }
}

/// A transfer that has just begun.
pub open spec fn beginning(world: World, block_size: u32, min_size: u64) -> Situation {
    Situation {
        transfer: TransferModel { block_size, min_size, phase: PhaseModel::AwaitRemoteSize },
        action: ActionModel::StatRemote,
        world,
    }
}

/// Whether the remembered digest of block `index` is that of the local block.
pub open spec fn is_current(world: World, index: int, block_size: int) -> bool {
    &&& world.table.contains_key(index as u64)
    &&& world.table[index as u64] == block_digest(block_of(world.contents(), index, block_size))
}

/// Those of the first `count` blocks whose remembered digest is not that of the
/// local block, in ascending order.
pub open spec fn changed_blocks(world: World, count: nat, block_size: int) -> Seq<u64>
    decreases count,
{
    if count == 0 {
        Seq::empty()
    } else {
        let earlier = changed_blocks(world, (count - 1) as nat, block_size);
        if is_current(world, count - 1, block_size) {
            earlier
        } else {
            earlier.push((count - 1) as u64)
        }
    }
}

/// How many bytes the given blocks of a file of `size` bytes hold.
pub open spec fn bytes_in(size: int, blocks: Seq<u64>, block_size: int) -> int
    decreases blocks.len(),
{
    if blocks.len() == 0 {
        0
    } else {
        block_len(size, blocks[0] as int, block_size) + bytes_in(size, blocks.skip(1), block_size)
    }
}

/// `local` with the given blocks replaced by those of `remote`.
pub open spec fn patched(
    local: Seq<u8>,
    remote: Seq<u8>,
    blocks: Seq<u64>,
    block_size: int,
) -> Seq<u8> {
    Seq::new(
        local.len(),
        |j: int| if blocks.contains((j / block_size) as u64) { remote[j] } else { local[j] },
    )
}

/// `table` once the digests of the first `count` blocks of `contents` have been
/// remembered.
pub open spec fn remembered(
    table: Map<u64, Seq<char>>,
    contents: Seq<u8>,
    count: nat,
    block_size: int,
) -> Map<u64, Seq<char>>
    decreases count,
{
    if count == 0 {
        table
    } else {
        remembered(table, contents, (count - 1) as nat, block_size).insert(
            (count - 1) as u64,
            block_digest(block_of(contents, count - 1, block_size)),
        )
    }
}

/// How many of the given blocks can be read before the first that fails.
pub open spec fn read_before_failure(failing: Set<u64>, blocks: Seq<u64>) -> int
    decreases blocks.len(),
{
    if blocks.len() == 0 || failing.contains(blocks[0]) {
        0
    } else {
        1 + read_before_failure(failing, blocks.skip(1))
    }
}

/// Whether a last action reports that blocks were transferred.
pub open spec fn is_partial(last: ActionModel) -> bool {
    last matches ActionModel::Finish(result) && result is Partial
}

/// The last action of a transfer, and the world it leaves behind. If a read
/// fails, the blocks before it have been written and nothing is remembered.
pub open spec fn outcome(world: World, block_size: u32, min_size: u64) -> (ActionModel, World) {
    let size = world.remote.len() as int;
    let unit = block_size as int;
    let total = block_count(size, unit);
    let changed = changed_blocks(world, total as nat, unit);
    let readable = read_before_failure(world.failing, changed);
    if size < min_size {
        (ActionModel::Finish(BlockDeltaResult::TooSmall), world)
    } else if world.local is None {
        (ActionModel::Finish(BlockDeltaResult::FullDownload), world)
    } else if world.contents().len() != size || too_dense(changed.len() as int, total) {
        (
            ActionModel::Finish(BlockDeltaResult::FullDownload),
            World { table: Map::empty(), ..world },
        )
    } else if changed.len() == 0 {
        (
            ActionModel::Finish(
                BlockDeltaResult::Partial {
                    blocks_downloaded: 0,
                    blocks_skipped: total as u64,
                    bytes_downloaded: 0,
                },
            ),
            world,
        )
    } else if readable < changed.len() {
        (
            ActionModel::FetchFailed { position: readable },
            World {
                local: Some(
                    patched(world.contents(), world.remote, changed.take(readable), unit),
                ),
                asked: world.asked + ranges_of(size, changed, unit),
                ..world
            },
        )
    } else {
        let contents = patched(world.contents(), world.remote, changed, unit);
        (
            ActionModel::Finish(
                BlockDeltaResult::Partial {
                    blocks_downloaded: changed.len() as u64,
                    blocks_skipped: (total - changed.len()) as u64,
                    bytes_downloaded: bytes_in(size, changed, unit) as u64,
                },
            ),
            World {
                local: Some(contents),
                table: remembered(world.table, contents, total as nat, unit),
                asked: world.asked + ranges_of(size, changed, unit),
                ..world
            },
        )
    }
}

/// The blocks before the first that fails can be read, and that one cannot.
pub proof fn lemma_read_before_failure(failing: Set<u64>, blocks: Seq<u64>)
    ensures
        ({
            let readable = read_before_failure(failing, blocks);
            &&& 0 <= readable <= blocks.len()
            &&& forall|i: int| 0 <= i < readable ==> !failing.contains(#[trigger] blocks[i])
            &&& readable < blocks.len() ==> failing.contains(blocks[readable])
        }),
    decreases blocks.len(),
{
    if blocks.len() > 0 && !failing.contains(blocks[0]) {
        let rest = blocks.skip(1);
        lemma_read_before_failure(failing, rest);
        let readable = read_before_failure(failing, blocks);
        assert forall|i: int| 0 <= i < readable implies !failing.contains(
            #[trigger] blocks[i],
        ) by {
            if i > 0 {
                assert(rest[i - 1] == blocks[i]);
            }
        }
    }
}

/// Two stretches of actions make one.
pub proof fn lemma_after_after(start: Situation, first: nat, second: nat)
    ensures
        start.after(first).after(second) == start.after(first + second),
    decreases first,
{
    if first > 0 {
        lemma_after_after(start.advanced(), (first - 1) as nat, second);
        assert((first + second - 1) as nat == (first - 1) as nat + second);
    }
}

/// If the transfer ends as stated from a later situation, it does so from the
/// earlier one.
proof fn lemma_ends_later(
    start: Situation,
    steps: nat,
    last: ActionModel,
    world: World,
)
    requires
        start.after(steps).ends_with(last, world),
    ensures
        start.ends_with(last, world),
{
    let more = choose|more: nat|
        {
            let end = #[trigger] start.after(steps).after(more);
            end.is_over() && end.action == last && end.world == world
        };
    lemma_after_after(start, steps, more);
    let end = start.after(steps + more);
}

/// The case of one action.
proof fn lemma_ends_next(start: Situation, last: ActionModel, world: World)
    requires
        start.advanced().ends_with(last, world),
    ensures
        start.ends_with(last, world),
{
    reveal_with_fuel(Situation::after, 2);
    assert(start.after(1) == start.advanced());
    lemma_ends_later(start, 1, last, world);
}

/// A situation in which nothing more is asked for is where the transfer ends.
proof fn lemma_ends_here(end: Situation)
    requires
        end.is_over(),
    ensures
        end.ends_with(end.action, end.world),
{
    assert(end.after(0) == end);
}

/// The changed blocks are those that are not current, in ascending order.
pub proof fn lemma_changed_blocks(world: World, count: nat, block_size: int)
    requires
        count <= u64::MAX,
    ensures
        changed_blocks(world, count, block_size).len() <= count,
        forall|i: u64|
            changed_blocks(world, count, block_size).contains(i) <==> i < count && !is_current(
                world,
                i as int,
                block_size,
            ),
        forall|k: int|
            0 <= k < changed_blocks(world, count, block_size).len() ==> (
            #[trigger] changed_blocks(world, count, block_size)[k]) < count,
        forall|k: int, l: int|
            0 <= k < l < changed_blocks(world, count, block_size).len() ==> changed_blocks(
                world,
                count,
                block_size,
            )[k] < changed_blocks(world, count, block_size)[l],
    decreases count,
{
    if count > 0 {
        let before = (count - 1) as nat;
        lemma_changed_blocks(world, before, block_size);
        let earlier = changed_blocks(world, before, block_size);
        let all = changed_blocks(world, count, block_size);
        assert forall|i: u64| all.contains(i) <==> i < count && !is_current(
            world,
            i as int,
            block_size,
        ) by {
            if !is_current(world, before as int, block_size) {
                assert(all == earlier.push(before as u64));
                assert(all[earlier.len() as int] == before as u64);
                if earlier.contains(i) {
                    let k = choose|k: int| 0 <= k < earlier.len() && earlier[k] == i;
                    assert(all[k] == i);
                }
                if all.contains(i) && i != before {
                    let k = choose|k: int| 0 <= k < all.len() && all[k] == i;
                    assert(earlier[k] == i);
                }
            }
        }
    }
}

/// Looking up the blocks from `next` on leads to the decision over all of them.
proof fn lemma_checks(
    transfer: TransferModel,
    world: World,
    size: u64,
    hashes: Seq<Seq<char>>,
    next: nat,
    last: ActionModel,
    left: World,
)
    requires
        hashes == digests(world.contents(), hashes.len(), transfer.block_size as int),
        hashes.len() <= u64::MAX,
        next <= hashes.len(),
        ({
            let (decided, action) = transfer.decide(
                size,
                hashes,
                changed_blocks(world, hashes.len(), transfer.block_size as int),
            );
            (Situation { transfer: decided, action, world }).ends_with(last, left)
        }),
    ensures
        ({
            let (checking, action) = transfer.check_from(
                size,
                hashes,
                changed_blocks(world, next, transfer.block_size as int),
                next as int,
            );
            (Situation { transfer: checking, action, world }).ends_with(last, left)
        }),
    decreases hashes.len() - next,
{
    if next < hashes.len() {
        let unit = transfer.block_size as int;
        let changed = changed_blocks(world, next, unit);
        let (checking, action) = transfer.check_from(size, hashes, changed, next as int);
        let here = Situation { transfer: checking, action, world };
        lemma_checks(transfer, world, size, hashes, next + 1, last, left);
        let (then_checking, then_action) = transfer.check_from(
            size,
            hashes,
            changed_blocks(world, next + 1, unit),
            next as int + 1,
        );
        assert(here.advanced() == Situation {
            transfer: then_checking,
            action: then_action,
            world,
        });
        lemma_ends_next(here, last, left);
    }
}

/// A byte lies in the block that its position divided by the block size names.
pub proof fn lemma_byte_in_block(j: int, index: int, block_size: int)
    requires
        0 <= j,
        0 <= index,
        0 < block_size,
    ensures
        j / block_size == index <==> index * block_size <= j < index * block_size + block_size,
        j / block_size >= 0,
        j / block_size <= j,
{
    lemma_fundamental_div_mod(j, block_size);
    let q = j / block_size;
    let r = j % block_size;
    assert(block_size * q == q * block_size) by (nonlinear_arith);
    assert(0 <= q <= j) by (nonlinear_arith)
        requires
            j == q * block_size + r,
            0 <= r < block_size,
            0 <= j,
            0 < block_size,
    ;
    if index * block_size <= j < index * block_size + block_size {
        lemma_fundamental_div_mod_converse(j, block_size, index, j - index * block_size);
    }
}

/// Writing one more block of the remote file patches one more block.
proof fn lemma_patch_one_more(
    local: Seq<u8>,
    remote: Seq<u8>,
    blocks: Seq<u64>,
    index: u64,
    block_size: int,
)
    requires
        local.len() == remote.len() <= u64::MAX,
        0 < block_size,
        index * block_size < remote.len(),
    ensures
        overwritten(
            patched(local, remote, blocks, block_size),
            index * block_size,
            block_of(remote, index as int, block_size),
        ) == patched(local, remote, blocks.push(index), block_size),
{
    let before = patched(local, remote, blocks, block_size);
    let data = block_of(remote, index as int, block_size);
    let written = overwritten(before, index * block_size, data);
    let wanted = patched(local, remote, blocks.push(index), block_size);
    assert forall|j: int| 0 <= j < local.len() implies written[j] == wanted[j] by {
        lemma_byte_in_block(j, index as int, block_size);
        let own = (j / block_size) as u64;
        assert(blocks.push(index)[blocks.len() as int] == index);
        if blocks.contains(own) {
            let k = choose|k: int| 0 <= k < blocks.len() && blocks[k] == own;
            assert(blocks.push(index)[k] == own);
        }
        if blocks.push(index).contains(own) && own != index {
            let k = choose|k: int| 0 <= k <= blocks.len() && blocks.push(index)[k] == own;
            assert(blocks[k] == own);
        }
    }
    assert(written =~= wanted);
}

/// The reads that the world answers for the given blocks.
pub open spec fn remote_blocks(world: World, blocks: Seq<u64>, block_size: int) -> Seq<
    Option<Seq<u8>>,
> {
    Seq::new(
        blocks.len(),
        |i: int|
            if world.failing.contains(blocks[i]) {
                None
            } else {
                Some(block_of(world.remote, blocks[i] as int, block_size))
            },
    )
}

/// The reads bring no more than the bytes of the blocks, and bring all of them
/// if none fails.
proof fn lemma_bytes_of_remote_blocks(world: World, blocks: Seq<u64>, block_size: int)
    requires
        block_size > 0,
    ensures
        ({
            let brought = bytes_read(remote_blocks(world, blocks, block_size));
            let all = bytes_in(world.remote.len() as int, blocks, block_size);
            &&& 0 <= brought <= all
            &&& read_before_failure(world.failing, blocks) == blocks.len() ==> brought == all
        }),
    decreases blocks.len(),
{
    let reads = remote_blocks(world, blocks, block_size);
    if blocks.len() > 0 {
        lemma_bytes_of_remote_blocks(world, blocks.skip(1), block_size);
        lemma_read_before_failure(world.failing, blocks.skip(1));
        assert(reads.skip(1) =~= remote_blocks(world, blocks.skip(1), block_size));
    }
}

/// Blocks named in ascending order hold no more bytes than the file has from
/// the first of them on.
pub proof fn lemma_bytes_within_file(size: int, blocks: Seq<u64>, block_size: int, from: int)
    requires
        0 <= size,
        0 < block_size,
        0 <= from,
        forall|i: int| 0 <= i < blocks.len() ==> from <= #[trigger] blocks[i],
        forall|i: int, j: int| 0 <= i < j < blocks.len() ==> blocks[i] < blocks[j],
    ensures
        0 <= bytes_in(size, blocks, block_size),
        bytes_in(size, blocks, block_size) <= (if from * block_size < size {
            size - from * block_size
        } else {
            0
        }),
    decreases blocks.len(),
{
    if blocks.len() > 0 {
        let first = blocks[0] as int;
        let rest = blocks.skip(1);
        assert forall|i: int| 0 <= i < rest.len() implies first + 1 <= #[trigger] rest[i] by {
            assert(rest[i] == blocks[i + 1]);
        }
        lemma_bytes_within_file(size, rest, block_size, first + 1);
        assert(from * block_size <= first * block_size) by (nonlinear_arith)
            requires
                from <= first,
                0 < block_size,
        ;
        assert((first + 1) * block_size == first * block_size + block_size) by (nonlinear_arith);
    }
}

/// Handing out the reads from `next` on leads to the one at `stop`, with every
/// changed block before it replaced, if none of the reads before it failed.
proof fn lemma_writes(
    transfer: TransferModel,
    world: World,
    initial: Seq<u8>,
    hashes: Seq<Seq<char>>,
    changed: Seq<u64>,
    next: nat,
    stop: nat,
    bytes: int,
    last: ActionModel,
    left: World,
)
    requires
        transfer.block_size > 0,
        initial.len() == world.remote.len() <= u64::MAX,
        next <= stop <= changed.len(),
        forall|i: int| next <= i < stop ==> !world.failing.contains(#[trigger] changed[i]),
        forall|i: int|
            0 <= i < changed.len() ==> (#[trigger] changed[i]) * transfer.block_size
                < world.remote.len(),
        world.local == Some(
            patched(
                initial,
                world.remote,
                changed.take(next as int),
                transfer.block_size as int,
            ),
        ),
        ({
            let unit = transfer.block_size as int;
            let reads = remote_blocks(world, changed, unit);
            let (stopped, action) = transfer.write_from(
                hashes,
                changed,
                reads.skip(stop as int),
                stop as int,
                bytes + bytes_read(reads.subrange(next as int, stop as int)),
            );
            let end = Situation {
                transfer: stopped,
                action,
                world: World {
                    local: Some(patched(initial, world.remote, changed.take(stop as int), unit)),
                    ..world
                },
            };
            end.ends_with(last, left)
        }),
    ensures
        ({
            let pending = remote_blocks(world, changed, transfer.block_size as int).skip(
                next as int,
            );
            let (writing, action) = transfer.write_from(
                hashes,
                changed,
                pending,
                next as int,
                bytes,
            );
            (Situation { transfer: writing, action, world }).ends_with(last, left)
        }),
    decreases stop - next,
{
    let unit = transfer.block_size as int;
    let reads = remote_blocks(world, changed, unit);
    let pending = reads.skip(next as int);
    let (writing, action) = transfer.write_from(hashes, changed, pending, next as int, bytes);
    let here = Situation { transfer: writing, action, world };
    let ahead = reads.subrange(next as int, stop as int);
    if next < stop {
        let data = block_of(world.remote, changed[next as int] as int, unit);
        assert(pending[0] == Some(data));
        assert(pending.skip(1) =~= reads.skip(next as int + 1));
        assert(ahead[0] == Some(data));
        assert(ahead.skip(1) =~= reads.subrange(next as int + 1, stop as int));
        let offset = changed[next as int] * unit;
        assert(offset == changed[next as int] * transfer.block_size);
        assert(0 <= offset) by (nonlinear_arith)
            requires
                offset == changed[next as int] * unit,
                unit > 0,
        ;
        lemma_patch_one_more(
            initial,
            world.remote,
            changed.take(next as int),
            changed[next as int],
            unit,
        );
        assert(changed.take(next as int).push(changed[next as int]) =~= changed.take(next as int + 1));
        let then_world = World {
            local: Some(patched(initial, world.remote, changed.take(next as int + 1), unit)),
            ..world
        };
        assert(remote_blocks(then_world, changed, unit) =~= reads);
        lemma_writes(
            transfer,
            then_world,
            initial,
            hashes,
            changed,
            next + 1,
            stop,
            bytes + data.len(),
            last,
            left,
        );
        let (then_writing, then_action) = transfer.write_from(
            hashes,
            changed,
            reads.skip(next as int + 1),
            next as int + 1,
            bytes + data.len(),
        );
        assert(here.advanced() == Situation {
            transfer: then_writing,
            action: then_action,
            world: then_world,
        });
        lemma_ends_next(here, last, left);
    } else {
        assert(ahead =~= Seq::empty());
    }
}

/// A block that is not among the patched ones stays as it was.
proof fn lemma_unpatched_block(
    local: Seq<u8>,
    remote: Seq<u8>,
    blocks: Seq<u64>,
    index: int,
    block_size: int,
)
    requires
        0 < block_size,
        0 <= index <= u64::MAX,
        local.len() <= u64::MAX,
        !blocks.contains(index as u64),
    ensures
        block_of(patched(local, remote, blocks, block_size), index, block_size) == block_of(
            local,
            index,
            block_size,
        ),
{
    let after = block_of(patched(local, remote, blocks, block_size), index, block_size);
    let before = block_of(local, index, block_size);
    assert(0 <= index * block_size) by (nonlinear_arith)
        requires
            0 <= index,
            0 < block_size,
    ;
    assert forall|j: int| 0 <= j < before.len() implies after[j] == before[j] by {
        lemma_byte_in_block(index * block_size + j, index, block_size);
    }
    assert(after =~= before);
}

/// Remembering the digests from `next` on leads to the end.
proof fn lemma_records(
    transfer: TransferModel,
    world: World,
    initial: Seq<u8>,
    table: Map<u64, Seq<char>>,
    count: nat,
    changed: Seq<u64>,
    bytes: int,
    next: nat,
)
    requires
        transfer.block_size > 0,
        count <= u64::MAX,
        next <= count,
        initial.len() <= u64::MAX,
        world.local == Some(
            patched(initial, world.remote, changed, transfer.block_size as int),
        ),
        world.table == remembered(
            table,
            world.contents(),
            next,
            transfer.block_size as int,
        ),
    ensures
        ({
            let unit = transfer.block_size as int;
            let (recording, action) = transfer.record_from(
                digests(initial, count, unit),
                changed,
                bytes,
                next as int,
            );
            (Situation { transfer: recording, action, world }).ends_with(
                ActionModel::Finish(
                    BlockDeltaResult::Partial {
                        blocks_downloaded: changed.len() as u64,
                        blocks_skipped: (count - changed.len()) as u64,
                        bytes_downloaded: bytes as u64,
                    },
                ),
                World { table: remembered(table, world.contents(), count, unit), ..world },
            )
        }),
    decreases count - next,
{
    let unit = transfer.block_size as int;
    let hashes = digests(initial, count, unit);
    let (recording, action) = transfer.record_from(hashes, changed, bytes, next as int);
    let here = Situation { transfer: recording, action, world };
    let last = ActionModel::Finish(
        BlockDeltaResult::Partial {
            blocks_downloaded: changed.len() as u64,
            blocks_skipped: (count - changed.len()) as u64,
            bytes_downloaded: bytes as u64,
        },
    );
    let left = World { table: remembered(table, world.contents(), count, unit), ..world };
    if next < count {
        let digest = block_digest(block_of(world.contents(), next as int, unit));
        let then_world = World { table: world.table.insert(next as u64, digest), ..world };
        lemma_records(transfer, then_world, initial, table, count, changed, bytes, next + 1);
        let (then_recording, then_action) = transfer.record_from(
            hashes,
            changed,
            bytes,
            next as int + 1,
        );
        let then_here = Situation {
            transfer: then_recording,
            action: then_action,
            world: then_world,
        };
        let storing = Situation {
            transfer: transfer.at(
                PhaseModel::Storing { hashes, changed, bytes, next: next as int },
            ),
            action: transfer.store(next as int, digest),
            world,
        };
        assert(storing.advanced() == then_here);
        lemma_ends_next(storing, last, left);
        if changed.contains(next as u64) {
            assert(here.advanced() == storing);
            lemma_ends_next(here, last, left);
        } else {
            lemma_unpatched_block(initial, world.remote, changed, next as int, unit);
            assert(here == storing);
        }
    } else {
        lemma_ends_here(here);
    }
}

/// The ranges asked for are where the blocks of the remote file lie.
proof fn lemma_fetch(world: World, changed: Seq<u64>, block_size: u32)
    requires
        block_size > 0,
        world.remote.len() <= u64::MAX,
        forall|i: int|
            0 <= i < changed.len() ==> (#[trigger] changed[i]) * block_size
                < world.remote.len(),
    ensures
        world.perform(
            ActionModel::FetchBlocks(
                ranges_of(world.remote.len() as int, changed, block_size as int),
            ),
            block_size as int,
        ) == Some(
            (
                World {
                    asked: world.asked + ranges_of(
                        world.remote.len() as int,
                        changed,
                        block_size as int,
                    ),
                    ..world
                },
                EventModel::Fetched(remote_blocks(world, changed, block_size as int)),
            ),
        ),
{
    let unit = block_size as int;
    let ranges = ranges_of(world.remote.len() as int, changed, unit);
    let read = Seq::new(
        ranges.len(),
        |i: int|
            if world.failing.contains(ranges[i].block_index) {
                None
            } else {
                Some(
                    world.remote.subrange(
                        ranges[i].offset as int,
                        ranges[i].offset + ranges[i].len,
                    ),
                )
            },
    );
    assert forall|i: int| 0 <= i < changed.len() implies read[i] == remote_blocks(
        world,
        changed,
        unit,
    )[i] by {
        let offset = changed[i] * unit;
        assert(offset == changed[i] * block_size);
        assert(0 <= offset) by (nonlinear_arith)
            requires
                offset == changed[i] * unit,
                unit > 0,
        ;
        assert(world.remote.subrange(
            ranges[i].offset as int,
            ranges[i].offset + ranges[i].len,
        ) =~= block_of(world.remote, changed[i] as int, unit));
    }
    assert(read =~= remote_blocks(world, changed, unit));
}

/// Every transfer comes to an end, with the last action and in the world
/// that `outcome` states. Blocks of no bytes cannot be counted, so a file of at
/// least the minimum size that is already here in full size takes a block size
/// above zero.
pub proof fn law_transfer_has_outcome(world: World, block_size: u32, min_size: u64)
    requires
        world.sizes_fit(),
        block_size > 0 || world.remote.len() < min_size || world.local is None
            || world.contents().len() != world.remote.len(),
    ensures
        beginning(world, block_size, min_size).ends_with(
            outcome(world, block_size, min_size).0,
            outcome(world, block_size, min_size).1,
        ),
{
    let start = beginning(world, block_size, min_size);
    let (last, left) = outcome(world, block_size, min_size);
    let size = world.remote.len() as u64;
    let unit = block_size as int;
    let total = block_count(size as int, unit);
    let sized = start.advanced();
    let base = TransferModel { block_size, min_size, phase: PhaseModel::Done };
    let cleared = Situation {
        transfer: base.at(PhaseModel::AwaitClear),
        action: ActionModel::ClearBlocks,
        world,
    };
    assert(cleared.advanced() == Situation {
        transfer: base,
        action: ActionModel::Finish(BlockDeltaResult::FullDownload),
        world: World { table: Map::empty(), ..world },
    });
    lemma_ends_here(cleared.advanced());
    lemma_ends_next(cleared, cleared.advanced().action, cleared.advanced().world);
    if size < min_size {
        lemma_ends_here(sized);
    } else if world.local is None {
        lemma_ends_here(sized.advanced());
        lemma_ends_next(sized, last, left);
    } else if world.contents().len() != size {
        assert(sized.advanced() == cleared);
        lemma_ends_next(sized, last, left);
    } else {
        let hashing = sized.advanced();
        let changed = changed_blocks(world, total as nat, unit);
        lemma_block_count_bounds(size as int, unit);
        lemma_changed_blocks(world, total as nat, unit);
        let hashes = digests(world.contents(), total as nat, unit);
        let (decided, action) = base.decide(size, hashes, changed);
        let deciding = Situation { transfer: decided, action, world };
        if changed.len() == 0 {
            lemma_ends_here(deciding);
        } else if too_dense(changed.len() as int, total) {
            assert(deciding == cleared);
        } else {
            lemma_partial_transfer(world, block_size, min_size);
        }
        lemma_checks(base, world, size, hashes, 0, last, left);
        let (checking, check) = base.check_from(size, hashes, Seq::empty(), 0);
        assert(hashing.advanced() == Situation { transfer: checking, action: check, world });
        lemma_ends_next(hashing, last, left);
        lemma_ends_next(sized, last, left);
    }
    lemma_ends_next(start, last, left);
}

/// From the request for the changed blocks on, a transfer ends as stated.
proof fn lemma_partial_transfer(world: World, block_size: u32, min_size: u64)
    requires
        world.sizes_fit(),
        block_size > 0,
        world.remote.len() >= min_size,
        world.local is Some,
        world.contents().len() == world.remote.len(),
        ({
            let total = block_count(world.remote.len() as int, block_size as int);
            let changed = changed_blocks(world, total as nat, block_size as int);
            &&& 0 <= total <= u64::MAX
            &&& 0 < changed.len()
            &&& !too_dense(changed.len() as int, total)
        }),
    ensures
        ({
            let size = world.remote.len() as int;
            let unit = block_size as int;
            let total = block_count(size, unit);
            let changed = changed_blocks(world, total as nat, unit);
            let hashes = digests(world.contents(), total as nat, unit);
            let base = TransferModel { block_size, min_size, phase: PhaseModel::Done };
            let (decided, action) = base.decide(size as u64, hashes, changed);
            let (last, left) = outcome(world, block_size, min_size);
            (Situation { transfer: decided, action, world }).ends_with(last, left)
        }),
{
    let size = world.remote.len() as int;
    let unit = block_size as int;
    let total = block_count(size, unit);
    let changed = changed_blocks(world, total as nat, unit);
    let initial = world.contents();
    let hashes = digests(initial, total as nat, unit);
    let base = TransferModel { block_size, min_size, phase: PhaseModel::Done };
    let (decided, action) = base.decide(size as u64, hashes, changed);
    let deciding = Situation { transfer: decided, action, world };
    let (last, left) = outcome(world, block_size, min_size);
    lemma_changed_blocks(world, total as nat, unit);
    assert forall|i: int| 0 <= i < changed.len() implies (#[trigger] changed[i]) * block_size
        < world.remote.len() by {
        lemma_block_in_file(size, changed[i] as int, unit);
    }
    let reads = remote_blocks(world, changed, unit);
    let readable = read_before_failure(world.failing, changed);
    lemma_read_before_failure(world.failing, changed);
    lemma_fetch(world, changed, block_size);
    lemma_bytes_of_remote_blocks(world, changed, unit);
    lemma_bytes_within_file(size, changed, unit, 0);
    let asking = World { asked: world.asked + ranges_of(size, changed, unit), ..world };
    assert(remote_blocks(asking, changed, unit) =~= reads);
    let opening = Situation {
        transfer: base.at(PhaseModel::AwaitOpen { hashes, changed, fetched: reads }),
        action: ActionModel::OpenLocal,
        world: asking,
    };
    assert(deciding.advanced() == opening);
    assert(reads.skip(0) =~= reads);
    assert(patched(initial, world.remote, changed.take(0), unit) =~= initial) by {
        assert(changed.take(0) =~= Seq::empty());
    }
    let bytes = bytes_read(reads.subrange(0, readable));
    let (stopped, stop) = base.write_from(
        hashes,
        changed,
        reads.skip(readable),
        readable,
        bytes,
    );
    let stopped_world = World {
        local: Some(patched(initial, world.remote, changed.take(readable), unit)),
        ..asking
    };
    let stopping = Situation { transfer: stopped, action: stop, world: stopped_world };
    if readable < changed.len() {
        assert(reads.skip(readable)[0] == None::<Seq<u8>>);
        lemma_ends_here(stopping);
    } else {
        assert(reads.subrange(0, readable) =~= reads);
        assert(changed.take(readable) =~= changed);
        lemma_records(
            base,
            stopped_world,
            initial,
            world.table,
            total as nat,
            changed,
            bytes,
            0,
        );
        let (recording, record) = base.record_from(hashes, changed, bytes, 0);
        assert(stopping.advanced() == Situation {
            transfer: recording,
            action: record,
            world: stopped_world,
        });
        lemma_ends_next(stopping, last, left);
    }
    lemma_writes(
        base,
        asking,
        initial,
        hashes,
        changed,
        0,
        readable as nat,
        0,
        last,
        left,
    );
    let (writing, write) = base.write_from(hashes, changed, reads, 0, 0);
    assert(opening.advanced() == Situation { transfer: writing, action: write, world: asking });
    lemma_ends_next(opening, last, left);
    lemma_ends_next(deciding, last, left);
}

/// What was remembered of the first `count` blocks can be looked up.
proof fn lemma_remembered(
    table: Map<u64, Seq<char>>,
    contents: Seq<u8>,
    count: nat,
    block_size: int,
    index: int,
)
    requires
        0 <= index < count <= u64::MAX,
    ensures
        remembered(table, contents, count, block_size).contains_key(index as u64),
        remembered(table, contents, count, block_size)[index as u64] == block_digest(
            block_of(contents, index, block_size),
        ),
    decreases count,
{
    if index < count - 1 {
        lemma_remembered(table, contents, (count - 1) as nat, block_size, index);
    }
}

/// No more blocks than bytes.
pub proof fn lemma_block_count_bounds(size: int, block_size: int)
    requires
        0 <= size,
        0 < block_size,
    ensures
        0 <= block_count(size, block_size) <= size,
{
    lemma_block_in_file(size, size, block_size);
    assert(size * block_size >= size) by (nonlinear_arith)
        requires
            block_size >= 1,
            size >= 0,
    ;
    assert((size + block_size - 1) / block_size >= 0) by (nonlinear_arith)
        requires
            size + block_size - 1 >= 0,
            block_size > 0,
    ;
}

/// After a transfer of blocks, the same transfer again finds nothing to do:
/// every block is skipped and the world stays as it is.
pub proof fn law_second_transfer_downloads_nothing(
    world: World,
    block_size: u32,
    min_size: u64,
)
    requires
        world.sizes_fit(),
        block_size > 0,
        is_partial(outcome(world, block_size, min_size).0),
    ensures
        ({
            let left = outcome(world, block_size, min_size).1;
            outcome(left, block_size, min_size) == (
                ActionModel::Finish(
                    BlockDeltaResult::Partial {
                        blocks_downloaded: 0,
                        blocks_skipped: block_count(
                            world.remote.len() as int,
                            block_size as int,
                        ) as u64,
                        bytes_downloaded: 0,
                    },
                ),
                left,
            )
        }),
{
    let size = world.remote.len() as int;
    let unit = block_size as int;
    let total = block_count(size, unit);
    lemma_block_count_bounds(size, unit);
    let changed = changed_blocks(world, total as nat, unit);
    if changed.len() > 0 {
        let left = outcome(world, block_size, min_size).1;
        assert forall|i: int| 0 <= i < total implies is_current(left, i, unit) by {
            lemma_remembered(world.table, left.contents(), total as nat, unit, i);
        }
        lemma_changed_blocks(left, total as nat, unit);
        let again = changed_blocks(left, total as nat, unit);
        if again.len() > 0 {
            assert(again.contains(again[0]));
            assert(is_current(left, again[0] as int, unit));
        }
    }
}

/// Where nothing is remembered of any block, as on the first transfer, the
/// whole file is downloaded.
pub proof fn law_first_transfer_is_full(world: World, block_size: u32, min_size: u64)
    requires
        world.sizes_fit(),
        block_size > 0,
        world.remote.len() > 0,
        world.remote.len() >= min_size,
        forall|i: u64| !world.table.contains_key(i),
    ensures
        outcome(world, block_size, min_size).0 == ActionModel::Finish(
            BlockDeltaResult::FullDownload,
        ),
{
    let size = world.remote.len() as int;
    let unit = block_size as int;
    let total = block_count(size, unit);
    lemma_block_count_bounds(size, unit);
    lemma_block_in_file(size, 0, unit);
    lemma_all_changed(world, total as nat, unit);
}

/// Where nothing is remembered, every block counts as changed.
proof fn lemma_all_changed(world: World, count: nat, block_size: int)
    requires
        forall|i: u64| !world.table.contains_key(i),
    ensures
        changed_blocks(world, count, block_size).len() == count,
    decreases count,
{
    if count > 0 {
        lemma_all_changed(world, (count - 1) as nat, block_size);
    }
}

/// A transfer of blocks leaves the remote file behind, byte for byte, if the
/// blocks that it skipped were the remote file's already.
pub proof fn law_transfer_completes_the_file(world: World, block_size: u32, min_size: u64)
    requires
        world.sizes_fit(),
        block_size > 0,
        is_partial(outcome(world, block_size, min_size).0),
        forall|i: int|
            0 <= i < block_count(world.remote.len() as int, block_size as int) && is_current(
                world,
                i,
                block_size as int,
            ) ==> #[trigger] block_of(world.contents(), i, block_size as int) == block_of(
                world.remote,
                i,
                block_size as int,
            ),
    ensures
        outcome(world, block_size, min_size).1.local == Some(world.remote),
{
    let size = world.remote.len() as int;
    let unit = block_size as int;
    let total = block_count(size, unit);
    lemma_block_count_bounds(size, unit);
    let changed = changed_blocks(world, total as nat, unit);
    lemma_changed_blocks(world, total as nat, unit);
    let contents = outcome(world, block_size, min_size).1.contents();
    assert forall|j: int| 0 <= j < size implies contents[j] == world.remote[j] by {
        let index = j / unit;
        lemma_byte_in_block(j, index, unit);
        lemma_block_in_file(size, index, unit);
        if !changed.contains(index as u64) {
            assert(is_current(world, index, unit));
            let local_block = block_of(world.contents(), index, unit);
            let remote_block = block_of(world.remote, index, unit);
            assert(local_block == remote_block);
            assert(local_block[j - index * unit] == world.contents()[j]);
            assert(remote_block[j - index * unit] == world.remote[j]);
        }
    }
    assert(contents =~= world.remote);
}

/// A transfer of blocks touches nothing but the blocks it downloads: the file
/// keeps its size, every current block keeps its bytes, each block is either
/// downloaded or skipped, and no more bytes are downloaded than the file has.
pub proof fn law_transfer_keeps_current_blocks(
    world: World,
    block_size: u32,
    min_size: u64,
    index: int,
)
    requires
        world.sizes_fit(),
        block_size > 0,
        is_partial(outcome(world, block_size, min_size).0),
        0 <= index < block_count(world.remote.len() as int, block_size as int),
    ensures
        ({
            let (last, left) = outcome(world, block_size, min_size);
            let result = last->Finish_0;
            let unit = block_size as int;
            &&& left.contents().len() == world.contents().len()
            &&& is_current(world, index, unit) ==> block_of(left.contents(), index, unit)
                == block_of(world.contents(), index, unit)
            &&& !is_current(world, index, unit) ==> block_of(left.contents(), index, unit)
                == block_of(world.remote, index, unit)
            &&& result->blocks_downloaded + result->blocks_skipped == block_count(
                world.remote.len() as int,
                unit,
            )
            &&& result->bytes_downloaded <= world.remote.len()
        }),
{
    let left = outcome(world, block_size, min_size).1;
    let size = world.remote.len() as int;
    let unit = block_size as int;
    let total = block_count(size, unit);
    lemma_block_count_bounds(size, unit);
    let changed = changed_blocks(world, total as nat, unit);
    lemma_changed_blocks(world, total as nat, unit);
    lemma_bytes_within_file(size, changed, unit, 0);
    assert(0 <= index * unit) by (nonlinear_arith)
        requires
            0 <= index,
            0 < unit,
    ;
    if changed.contains(index as u64) {
        let got = block_of(left.contents(), index, unit);
        let wanted = block_of(world.remote, index, unit);
        assert forall|j: int| 0 <= j < wanted.len() implies got[j] == wanted[j] by {
            lemma_byte_in_block(index * unit + j, index, unit);
        }
        assert(got =~= wanted);
    } else if changed.len() > 0 {
        lemma_unpatched_block(world.contents(), world.remote, changed, index, unit);
    }
}

/// A read that fails ends the transfer at its place in the request: the changed
/// blocks before it have been written, the rest of the local file and all that
/// is remembered are as they were.
pub proof fn law_failed_read_ends_the_transfer(
    world: World,
    block_size: u32,
    min_size: u64,
    position: int,
)
    requires
        world.sizes_fit(),
        block_size > 0,
        world.remote.len() >= min_size,
        world.local is Some,
        world.contents().len() == world.remote.len(),
        ({
            let total = block_count(world.remote.len() as int, block_size as int);
            let changed = changed_blocks(world, total as nat, block_size as int);
            &&& !too_dense(changed.len() as int, total)
            &&& 0 <= position < changed.len()
            &&& world.failing.contains(changed[position])
            &&& forall|i: int|
                0 <= i < position ==> !world.failing.contains(#[trigger] changed[i])
        }),
    ensures
        ({
            let total = block_count(world.remote.len() as int, block_size as int);
            let changed = changed_blocks(world, total as nat, block_size as int);
            beginning(world, block_size, min_size).ends_with(
                ActionModel::FetchFailed { position },
                World {
                    local: Some(
                        patched(
                            world.contents(),
                            world.remote,
                            changed.take(position),
                            block_size as int,
                        ),
                    ),
                    asked: world.asked + ranges_of(
                        world.remote.len() as int,
                        changed,
                        block_size as int,
                    ),
                    ..world
                },
            )
        }),
{
    let total = block_count(world.remote.len() as int, block_size as int);
    let changed = changed_blocks(world, total as nat, block_size as int);
    law_transfer_has_outcome(world, block_size, min_size);
    lemma_read_before_failure(world.failing, changed);
    let readable = read_before_failure(world.failing, changed);
    if readable < position {
        assert(world.failing.contains(changed[readable]));
    }
    assert(readable == position);
}

} // verus!
