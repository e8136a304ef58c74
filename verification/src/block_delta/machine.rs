//! The decisions of a block-level transfer, as a state machine.
//!
//! The caller performs the action it is handed and reports the outcome as an
//! event; each event yields the next action, until the transfer is finished.
use vstd::prelude::*;

use super::blocks::{
    block_count, block_range, count_blocks, lemma_block_in_file, range_of, BlockRange,
};

verus! {

/// Largest share of blocks, in percent, that may have changed; beyond it the
/// whole file is downloaded.
pub const CHANGE_DENSITY_THRESHOLD_PERCENT: u64 = 70;

/// How a block-level transfer ended.
#[derive(Clone, Copy, Debug, PartialEq, Eq, Structural)]
pub enum BlockDeltaResult {
    /// Only changed blocks were downloaded.
    Partial { blocks_downloaded: u64, blocks_skipped: u64, bytes_downloaded: u64 },
    /// The whole file has to be downloaded: too much changed, or no earlier
    /// version to build on.
    FullDownload,
    /// The file is too small for a block-level transfer.
    TooSmall,
}

/// What the caller found out.
#[derive(Debug)]
pub enum TransferEvent {
    /// The size of the remote file.
    RemoteSize(u64),
    /// The size of the local file, or that there is none.
    LocalSize(Option<u64>),
    /// The remembered digests of this file were dropped.
    Cleared,
    /// The digests of all local blocks, in order.
    LocalHashes(Vec<String>),
    /// Whether the digest asked about is the remembered one.
    BlockMatch(bool),
    /// What each requested range read, in the order of the request; `None`
    /// where the read failed.
    Fetched(Vec<Option<Vec<u8>>>),
    /// The local file is open for writing.
    Opened,
    /// The block was written.
    Written,
    /// All writes reached the file.
    Flushed,
    /// The digest of the local block as it now is.
    Rehashed(String),
    /// The digest was remembered.
    Stored,
}

/// What the caller is to do next.
#[derive(Debug)]
pub enum TransferAction {
    /// Find out the size of the remote file.
    StatRemote,
    /// Find out the size of the local file.
    StatLocal,
    /// Drop the remembered digests of this file.
    ClearBlocks,
    /// Digest this many blocks of the local file.
    HashBlocks { total_blocks: u64 },
    /// Look up whether `hash` is the remembered digest of the block.
    CheckBlock { block_index: u64, hash: String },
    /// Read these ranges of the remote file.
    FetchBlocks(Vec<BlockRange>),
    /// Open the local file for writing.
    OpenLocal,
    /// Write `data` at `offset` of the local file.
    WriteBlock { offset: u64, data: Vec<u8> },
    /// Give up: the read at this place of the request had failed.
    FetchFailed { position: usize },
    /// Flush the local file.
    Flush,
    /// Digest this block of the local file again.
    RehashBlock { block_index: u64 },
    /// Remember `hash` as the digest of the block; what the remote tagged the
    /// file with is not known, so `etag` is empty.
    StoreBlock { block_index: u64, hash: String, block_size: u32, etag: String },
    /// Nothing more to do.
    Finish(BlockDeltaResult),
    /// The event answers another question than the one asked, or cannot be
    /// worked on.
    Rejected,
}

/// `TransferEvent` as mathematical values.
pub enum EventModel {
    RemoteSize(u64),
    LocalSize(Option<u64>),
    Cleared,
    LocalHashes(Seq<Seq<char>>),
    BlockMatch(bool),
    Fetched(Seq<Option<Seq<u8>>>),
    Opened,
    Written,
    Flushed,
    Rehashed(Seq<char>),
    Stored,
}

/// `TransferAction` as mathematical values.
pub enum ActionModel {
    StatRemote,
    StatLocal,
    ClearBlocks,
    HashBlocks { total_blocks: u64 },
    CheckBlock { block_index: u64, hash: Seq<char> },
    FetchBlocks(Seq<BlockRange>),
    OpenLocal,
    WriteBlock { offset: u64, data: Seq<u8> },
    FetchFailed { position: int },
    Flush,
    RehashBlock { block_index: u64 },
    StoreBlock { block_index: u64, hash: Seq<char>, block_size: u32, etag: Seq<char> },
    Finish(BlockDeltaResult),
    Rejected,
}

/// What a transfer waits for, with all that it has learnt so far.
pub enum PhaseModel {
    AwaitRemoteSize,
    AwaitLocalSize { size: u64 },
    AwaitClear,
    AwaitHashes { size: u64 },
    /// Block `next` is being looked up; `changed` are the earlier blocks whose
    /// digest was not the remembered one.
    Checking { size: u64, hashes: Seq<Seq<char>>, changed: Seq<u64>, next: int },
    AwaitFetch { hashes: Seq<Seq<char>>, changed: Seq<u64> },
    AwaitOpen { hashes: Seq<Seq<char>>, changed: Seq<u64>, fetched: Seq<Option<Seq<u8>>> },
    /// The first `next` changed blocks have been handed out to be written;
    /// `pending` are the reads for the rest.
    Writing {
        hashes: Seq<Seq<char>>,
        changed: Seq<u64>,
        pending: Seq<Option<Seq<u8>>>,
        next: int,
        bytes: int,
    },
    AwaitFlush { hashes: Seq<Seq<char>>, changed: Seq<u64>, bytes: int },
    /// Block `next` is being digested again.
    Rehashing { hashes: Seq<Seq<char>>, changed: Seq<u64>, bytes: int, next: int },
    /// The digest of block `next` is being remembered.
    Storing { hashes: Seq<Seq<char>>, changed: Seq<u64>, bytes: int, next: int },
    Done,
}

/// A transfer as mathematical values.
pub struct TransferModel {
    pub block_size: u32,
    pub min_size: u64,
    pub phase: PhaseModel,
}

/// The texts of a list of strings.
pub open spec fn texts(list: Seq<String>) -> Seq<Seq<char>> {
    Seq::new(list.len(), |i: int| list[i]@)
}

/// The outcome of one read.
pub open spec fn read_of(read: Option<Vec<u8>>) -> Option<Seq<u8>> {
    match read {
        Some(data) => Some(data@),
        None => None,
    }
}

/// The outcomes of a list of reads.
pub open spec fn reads(list: Seq<Option<Vec<u8>>>) -> Seq<Option<Seq<u8>>> {
    Seq::new(list.len(), |i: int| read_of(list[i]))
}

impl View for TransferEvent {
    type V = EventModel;

    open spec fn view(&self) -> EventModel {
        match self {
            TransferEvent::RemoteSize(size) => EventModel::RemoteSize(*size),
            TransferEvent::LocalSize(size) => EventModel::LocalSize(*size),
            TransferEvent::Cleared => EventModel::Cleared,
            TransferEvent::LocalHashes(hashes) => EventModel::LocalHashes(texts(hashes@)),
            TransferEvent::BlockMatch(found) => EventModel::BlockMatch(*found),
            TransferEvent::Fetched(fetched) => EventModel::Fetched(reads(fetched@)),
            TransferEvent::Opened => EventModel::Opened,
            TransferEvent::Written => EventModel::Written,
            TransferEvent::Flushed => EventModel::Flushed,
            TransferEvent::Rehashed(hash) => EventModel::Rehashed(hash@),
            TransferEvent::Stored => EventModel::Stored,
        }
    }
}

impl View for TransferAction {
    type V = ActionModel;

    open spec fn view(&self) -> ActionModel {
        match self {
            TransferAction::StatRemote => ActionModel::StatRemote,
            TransferAction::StatLocal => ActionModel::StatLocal,
            TransferAction::ClearBlocks => ActionModel::ClearBlocks,
            TransferAction::HashBlocks { total_blocks } => ActionModel::HashBlocks {
                total_blocks: *total_blocks,
            },
            TransferAction::CheckBlock { block_index, hash } => ActionModel::CheckBlock {
                block_index: *block_index,
                hash: hash@,
            },
            TransferAction::FetchBlocks(ranges) => ActionModel::FetchBlocks(ranges@),
            TransferAction::OpenLocal => ActionModel::OpenLocal,
            TransferAction::WriteBlock { offset, data } => ActionModel::WriteBlock {
                offset: *offset,
                data: data@,
            },
            TransferAction::FetchFailed { position } => ActionModel::FetchFailed {
                position: *position as int,
            },
            TransferAction::Flush => ActionModel::Flush,
            TransferAction::RehashBlock { block_index } => ActionModel::RehashBlock {
                block_index: *block_index,
            },
            TransferAction::StoreBlock { block_index, hash, block_size, etag } => {
                ActionModel::StoreBlock {
                    block_index: *block_index,
                    hash: hash@,
                    block_size: *block_size,
                    etag: etag@,
                }
            },
            TransferAction::Finish(result) => ActionModel::Finish(*result),
            TransferAction::Rejected => ActionModel::Rejected,
        }
    }
}

/// Whether so many of `total` blocks changed that the whole file is downloaded.
pub open spec fn too_dense(changed: int, total: int) -> bool {
    changed * 100 > total * CHANGE_DENSITY_THRESHOLD_PERCENT
}

/// The whole file is downloaded if and only if more than seven tenths of its
/// blocks changed, however many blocks that are.
pub proof fn law_dense_is_more_than_seven_tenths(changed: int, total: int)
    ensures
        too_dense(changed, total) <==> 10 * changed > 7 * total,
{
    assert(CHANGE_DENSITY_THRESHOLD_PERCENT == 70);
}

/// How many bytes the reads brought in all.
pub open spec fn bytes_read(reads: Seq<Option<Seq<u8>>>) -> int
    decreases reads.len(),
{
    if reads.len() == 0 {
        0
    } else {
        (match reads[0] {
            Some(data) => data.len() as int,
            None => 0,
        }) + bytes_read(reads.skip(1))
    }
}

/// The ranges of the given blocks, in the same order.
pub open spec fn ranges_of(size: int, blocks: Seq<u64>, block_size: int) -> Seq<BlockRange> {
    Seq::new(blocks.len(), |i: int| range_of(size, blocks[i], block_size))
}

/// Every range has bytes in it, begins where its block does, and ends at an
/// offset of 64 bits.
pub open spec fn ranges_hold_bytes(ranges: Seq<BlockRange>, block_size: u32) -> bool {
    forall|i: int|
        #![trigger ranges[i]]
        0 <= i < ranges.len() ==> {
            &&& 0 < ranges[i].len
            &&& ranges[i].offset == ranges[i].block_index * block_size
            &&& ranges[i].offset + ranges[i].len <= u64::MAX
        }
}

/// Every number in the action that takes `before` to `after` is given in full,
/// nothing of it cut off.
pub open spec fn numbers_fit(
    before: TransferModel,
    after: TransferModel,
    action: ActionModel,
) -> bool {
    match action {
        ActionModel::HashBlocks { total_blocks } => {
            before.phase matches PhaseModel::AwaitLocalSize { size } && total_blocks
                == block_count(size as int, before.block_size as int)
        },
        ActionModel::CheckBlock { block_index, .. } => {
            after.phase matches PhaseModel::Checking { next, .. } && block_index == next
        },
        ActionModel::FetchBlocks(ranges) => ranges_hold_bytes(ranges, before.block_size),
        ActionModel::WriteBlock { offset, .. } => {
            after.phase matches PhaseModel::Writing { changed, next, .. } && offset == changed[next
                - 1] * before.block_size
        },
        ActionModel::RehashBlock { block_index } => {
            after.phase matches PhaseModel::Rehashing { next, .. } && block_index == next
        },
        ActionModel::StoreBlock { block_index, .. } => {
            after.phase matches PhaseModel::Storing { next, .. } && block_index == next
        },
        ActionModel::Finish(
            BlockDeltaResult::Partial { blocks_downloaded, blocks_skipped, bytes_downloaded },
        ) => match before.phase {
            PhaseModel::AwaitHashes { .. } => {
                blocks_downloaded == 0 && blocks_skipped == 0 && bytes_downloaded == 0
            },
            PhaseModel::Checking { hashes, .. } => {
                blocks_downloaded == 0 && blocks_skipped == hashes.len() && bytes_downloaded == 0
            },
            PhaseModel::AwaitFlush { hashes, changed, bytes } => {
                &&& blocks_downloaded == changed.len()
                &&& blocks_skipped == hashes.len() - changed.len()
                &&& bytes_downloaded == bytes
            },
            PhaseModel::Storing { hashes, changed, bytes, .. } => {
                &&& blocks_downloaded == changed.len()
                &&& blocks_skipped == hashes.len() - changed.len()
                &&& bytes_downloaded == bytes
            },
            _ => false,
        },
        _ => true,
    }
}

impl TransferModel {
    /// The same transfer, waiting for something else.
    pub open spec fn at(self, phase: PhaseModel) -> TransferModel {
        TransferModel { phase, ..self }
    }

    /// Has `hash` remembered as the digest of a block.
    pub open spec fn store(self, block_index: int, hash: Seq<char>) -> ActionModel {
        ActionModel::StoreBlock {
            block_index: block_index as u64,
            hash,
            block_size: self.block_size,
            etag: Seq::empty(),
        }
    }

    /// All blocks have been looked up: `changed` are those to fetch.
    pub open spec fn decide(
        self,
        size: u64,
        hashes: Seq<Seq<char>>,
        changed: Seq<u64>,
    ) -> (TransferModel, ActionModel) {
        if changed.len() == 0 {
            (
                self.at(PhaseModel::Done),
                ActionModel::Finish(
                    BlockDeltaResult::Partial {
                        blocks_downloaded: 0,
                        blocks_skipped: hashes.len() as u64,
                        bytes_downloaded: 0,
                    },
                ),
            )
        } else if too_dense(changed.len() as int, hashes.len() as int) {
            (self.at(PhaseModel::AwaitClear), ActionModel::ClearBlocks)
        } else {
            (
                self.at(PhaseModel::AwaitFetch { hashes, changed }),
                ActionModel::FetchBlocks(
                    ranges_of(size as int, changed, self.block_size as int),
                ),
            )
        }
    }

    /// Looks up block `next`, or decides if there is none left.
    pub open spec fn check_from(
        self,
        size: u64,
        hashes: Seq<Seq<char>>,
        changed: Seq<u64>,
        next: int,
    ) -> (TransferModel, ActionModel) {
        if next < hashes.len() {
            (
                self.at(PhaseModel::Checking { size, hashes, changed, next }),
                ActionModel::CheckBlock { block_index: next as u64, hash: hashes[next] },
            )
        } else {
            self.decide(size, hashes, changed)
        }
    }

    /// Hands out the read for changed block number `next`, and flushes after
    /// the last one.
    pub open spec fn write_from(
        self,
        hashes: Seq<Seq<char>>,
        changed: Seq<u64>,
        pending: Seq<Option<Seq<u8>>>,
        next: int,
        bytes: int,
    ) -> (TransferModel, ActionModel) {
        if next < changed.len() {
            match pending[0] {
                Some(data) => (
                    self.at(
                        PhaseModel::Writing {
                            hashes,
                            changed,
                            pending: pending.skip(1),
                            next: next + 1,
                            bytes: bytes + data.len(),
                        },
                    ),
                    ActionModel::WriteBlock {
                        offset: (changed[next] * self.block_size) as u64,
                        data,
                    },
                ),
                None => (
                    self.at(PhaseModel::Done),
                    ActionModel::FetchFailed { position: next },
                ),
            }
        } else {
            (self.at(PhaseModel::AwaitFlush { hashes, changed, bytes }), ActionModel::Flush)
        }
    }

    /// Remembers the digest of block `next`, taken anew if the block changed,
    /// and finishes after the last one.
    pub open spec fn record_from(
        self,
        hashes: Seq<Seq<char>>,
        changed: Seq<u64>,
        bytes: int,
        next: int,
    ) -> (TransferModel, ActionModel) {
        if next >= hashes.len() {
            (
                self.at(PhaseModel::Done),
                ActionModel::Finish(
                    BlockDeltaResult::Partial {
                        blocks_downloaded: changed.len() as u64,
                        blocks_skipped: (hashes.len() - changed.len()) as u64,
                        bytes_downloaded: bytes as u64,
                    },
                ),
            )
        } else if changed.contains(next as u64) {
            (
                self.at(PhaseModel::Rehashing { hashes, changed, bytes, next }),
                ActionModel::RehashBlock { block_index: next as u64 },
            )
        } else {
            (
                self.at(PhaseModel::Storing { hashes, changed, bytes, next }),
                self.store(next, hashes[next]),
            )
        }
    }

    /// One step: where `event` takes the transfer, and what is to be done then.
    pub open spec fn step(self, event: EventModel) -> (TransferModel, ActionModel) {
        match (self.phase, event) {
            (PhaseModel::AwaitRemoteSize, EventModel::RemoteSize(size)) => {
                if size < self.min_size {
                    (
                        self.at(PhaseModel::Done),
                        ActionModel::Finish(BlockDeltaResult::TooSmall),
                    )
                } else {
                    (self.at(PhaseModel::AwaitLocalSize { size }), ActionModel::StatLocal)
                }
            },
            (PhaseModel::AwaitLocalSize { size }, EventModel::LocalSize(local)) => {
                if local is None {
                    (
                        self.at(PhaseModel::Done),
                        ActionModel::Finish(BlockDeltaResult::FullDownload),
                    )
                } else if local != Some(size) {
                    (self.at(PhaseModel::AwaitClear), ActionModel::ClearBlocks)
                } else if self.block_size == 0 {
                    (self, ActionModel::Rejected)
                } else {
                    (
                        self.at(PhaseModel::AwaitHashes { size }),
                        ActionModel::HashBlocks {
                            total_blocks: block_count(size as int, self.block_size as int) as u64,
                        },
                    )
                }
            },
            (PhaseModel::AwaitClear, EventModel::Cleared) => (
                self.at(PhaseModel::Done),
                ActionModel::Finish(BlockDeltaResult::FullDownload),
            ),
            (PhaseModel::AwaitHashes { size }, EventModel::LocalHashes(hashes)) => {
                if hashes.len() != block_count(size as int, self.block_size as int) {
                    (self, ActionModel::Rejected)
                } else {
                    self.check_from(size, hashes, Seq::empty(), 0)
                }
            },
            (
                PhaseModel::Checking { size, hashes, changed, next },
                EventModel::BlockMatch(found),
            ) => {
                let changed = if found {
                    changed
                } else {
                    changed.push(next as u64)
                };
                self.check_from(size, hashes, changed, next + 1)
            },
            (PhaseModel::AwaitFetch { hashes, changed }, EventModel::Fetched(fetched)) => {
                if fetched.len() != changed.len() || bytes_read(fetched) > u64::MAX {
                    (self, ActionModel::Rejected)
                } else {
                    (
                        self.at(PhaseModel::AwaitOpen { hashes, changed, fetched }),
                        ActionModel::OpenLocal,
                    )
                }
            },
            (PhaseModel::AwaitOpen { hashes, changed, fetched }, EventModel::Opened) => {
                self.write_from(hashes, changed, fetched, 0, 0)
            },
            (
                PhaseModel::Writing { hashes, changed, pending, next, bytes },
                EventModel::Written,
            ) => self.write_from(hashes, changed, pending, next, bytes),
            (PhaseModel::AwaitFlush { hashes, changed, bytes }, EventModel::Flushed) => {
                self.record_from(hashes, changed, bytes, 0)
            },
            (
                PhaseModel::Rehashing { hashes, changed, bytes, next },
                EventModel::Rehashed(hash),
            ) => (
                self.at(PhaseModel::Storing { hashes, changed, bytes, next }),
                self.store(next, hash),
            ),
            (PhaseModel::Storing { hashes, changed, bytes, next }, EventModel::Stored) => {
                self.record_from(hashes, changed, bytes, next + 1)
            },
            _ => (self, ActionModel::Rejected),
        }
    }
}

/// What a transfer waits for.
#[derive(Debug)]
enum Phase {
    AwaitRemoteSize,
    AwaitLocalSize { size: u64 },
    AwaitClear,
    AwaitHashes { size: u64 },
    Checking { size: u64, hashes: Vec<String>, changed: Vec<u64>, next: usize },
    AwaitFetch { hashes: Vec<String>, changed: Vec<u64> },
    AwaitOpen { hashes: Vec<String>, changed: Vec<u64>, fetched: Vec<Option<Vec<u8>>> },
    Writing {
        hashes: Vec<String>,
        changed: Vec<u64>,
        fetched: Vec<Option<Vec<u8>>>,
        next: usize,
        bytes: u64,
    },
    AwaitFlush { hashes: Vec<String>, changed: Vec<u64>, bytes: u64 },
    Rehashing { hashes: Vec<String>, changed: Vec<u64>, bytes: u64, next: usize },
    Storing { hashes: Vec<String>, changed: Vec<u64>, bytes: u64, next: usize },
    Done,
}

/// `changed` names blocks below `bound`, in ascending order.
spec fn ascending_below(changed: Seq<u64>, bound: int) -> bool {
    &&& forall|i: int| 0 <= i < changed.len() ==> (#[trigger] changed[i]) < bound
    &&& forall|i: int, j: int| 0 <= i < j < changed.len() ==> changed[i] < changed[j]
}

/// Every block named in `changed` starts at an offset that fits in 64 bits.
spec fn offsets_fit(changed: Seq<u64>, block_size: u32) -> bool {
    forall|i: int|
        0 <= i < changed.len() ==> (#[trigger] changed[i]) * block_size <= u64::MAX
}

/// The number of blocks named can be told from the number of blocks.
spec fn counted(hashes: Seq<String>, changed: Seq<u64>) -> bool {
    changed.len() <= hashes.len() <= u64::MAX
}

impl Phase {
    spec fn model(&self) -> PhaseModel {
        match self {
            Phase::AwaitRemoteSize => PhaseModel::AwaitRemoteSize,
            Phase::AwaitLocalSize { size } => PhaseModel::AwaitLocalSize { size: *size },
            Phase::AwaitClear => PhaseModel::AwaitClear,
            Phase::AwaitHashes { size } => PhaseModel::AwaitHashes { size: *size },
            Phase::Checking { size, hashes, changed, next } => PhaseModel::Checking {
                size: *size,
                hashes: texts(hashes@),
                changed: changed@,
                next: *next as int,
            },
            Phase::AwaitFetch { hashes, changed } => PhaseModel::AwaitFetch {
                hashes: texts(hashes@),
                changed: changed@,
            },
            Phase::AwaitOpen { hashes, changed, fetched } => PhaseModel::AwaitOpen {
                hashes: texts(hashes@),
                changed: changed@,
                fetched: reads(fetched@),
            },
            Phase::Writing { hashes, changed, fetched, next, bytes } => PhaseModel::Writing {
                hashes: texts(hashes@),
                changed: changed@,
                pending: reads(fetched@).skip(*next as int),
                next: *next as int,
                bytes: *bytes as int,
            },
            Phase::AwaitFlush { hashes, changed, bytes } => PhaseModel::AwaitFlush {
                hashes: texts(hashes@),
                changed: changed@,
                bytes: *bytes as int,
            },
            Phase::Rehashing { hashes, changed, bytes, next } => PhaseModel::Rehashing {
                hashes: texts(hashes@),
                changed: changed@,
                bytes: *bytes as int,
                next: *next as int,
            },
            Phase::Storing { hashes, changed, bytes, next } => PhaseModel::Storing {
                hashes: texts(hashes@),
                changed: changed@,
                bytes: *bytes as int,
                next: *next as int,
            },
            Phase::Done => PhaseModel::Done,
        }
    }

    spec fn valid(&self, block_size: u32) -> bool {
        match self {
            Phase::AwaitHashes { .. } => block_size > 0,
            Phase::Checking { size, hashes, changed, next } => {
                &&& block_size > 0
                &&& hashes@.len() == block_count(*size as int, block_size as int)
                &&& *next < hashes@.len() && *next < usize::MAX
                &&& changed@.len() <= *next
                &&& ascending_below(changed@, *next as int)
            },
            Phase::AwaitFetch { hashes, changed } => {
                counted(hashes@, changed@) && offsets_fit(changed@, block_size)
            },
            Phase::AwaitOpen { hashes, changed, fetched } => {
                &&& counted(hashes@, changed@) && offsets_fit(changed@, block_size)
                &&& fetched@.len() == changed@.len()
                &&& bytes_read(reads(fetched@)) <= u64::MAX
            },
            Phase::Writing { hashes, changed, fetched, next, bytes } => {
                &&& counted(hashes@, changed@) && offsets_fit(changed@, block_size)
                &&& fetched@.len() == changed@.len()
                &&& *next <= changed@.len()
                &&& *bytes + bytes_read(reads(fetched@).skip(*next as int)) <= u64::MAX
            },
            Phase::AwaitFlush { hashes, changed, .. } => counted(hashes@, changed@),
            Phase::Rehashing { hashes, changed, next, .. } => {
                counted(hashes@, changed@) && *next < hashes@.len() && *next < usize::MAX
            },
            Phase::Storing { hashes, changed, next, .. } => {
                counted(hashes@, changed@) && *next < hashes@.len() && *next < usize::MAX
            },
            _ => true,
        }
    }
}

/// A block-level transfer of one file, between two events.
#[derive(Debug)]
pub struct BlockTransfer {
    block_size: u32,
    min_size: u64,
    phase: Phase,
}

impl View for BlockTransfer {
    type V = TransferModel;

    closed spec fn view(&self) -> TransferModel {
        TransferModel {
            block_size: self.block_size,
            min_size: self.min_size,
            phase: self.phase.model(),
        }
    }
}

impl BlockTransfer {
    #[verifier::type_invariant]
    spec fn valid(&self) -> bool {
        self.phase.valid(self.block_size)
    }

    /// Begins a transfer of a file in blocks of `block_size` bytes, to be done
    /// only if the file has at least `min_size` bytes.
    pub fn new(block_size: u32, min_size: u64) -> (start: (BlockTransfer, TransferAction))
        ensures
            start.0@ == (TransferModel {
                block_size,
                min_size,
                phase: PhaseModel::AwaitRemoteSize,
            }),
            start.1@ == ActionModel::StatRemote,
    {
        (
            BlockTransfer { block_size, min_size, phase: Phase::AwaitRemoteSize },
            TransferAction::StatRemote,
        )
    }
}

/// Whether `changed` of `total` blocks are too many for a block-level transfer.
fn is_too_dense(changed: u64, total: u64) -> (dense: bool)
    ensures
        dense == too_dense(changed as int, total as int),
{
    let percent: u128 = CHANGE_DENSITY_THRESHOLD_PERCENT as u128;
    proof {
        assert(percent == 70);
    }
    (changed as u128) * 100 > (total as u128) * percent
}

/// Whether the reads together fit in a 64-bit count of bytes.
fn bytes_fit(fetched: &Vec<Option<Vec<u8>>>) -> (fit: bool)
    ensures
        fit == (bytes_read(reads(fetched@)) <= u64::MAX),
{
    let mut sum: u64 = 0;
    let mut i: usize = fetched.len();
    let ghost all = reads(fetched@);
    proof {
        assert(all.skip(fetched@.len() as int) =~= Seq::empty());
    }
    while i > 0
        invariant
            i <= fetched@.len(),
            all == reads(fetched@),
            sum == bytes_read(all.skip(i as int)),
        decreases i,
    {
        let ghost before = all.skip(i - 1);
        proof {
            assert(before.skip(1) =~= all.skip(i as int));
            assert(before[0] == read_of(fetched@[i - 1]));
        }
        i = i - 1;
        if let Some(data) = &fetched[i] {
            match sum.checked_add(data.len() as u64) {
                Some(more) => {
                    sum = more;
                },
                None => {
                    proof {
                        lemma_bytes_read_grows(all, i as int);
                    }
                    return false;
                },
            }
        }
    }
    proof {
        assert(all.skip(0) =~= all);
    }
    true
}

/// The reads from some place on bring no more than all reads do.
proof fn lemma_bytes_read_grows(all: Seq<Option<Seq<u8>>>, from: int)
    requires
        0 <= from <= all.len(),
    ensures
        0 <= bytes_read(all.skip(from)) <= bytes_read(all),
    decreases all.len(),
{
    if all.len() > 0 {
        if from == 0 {
            assert(all.skip(0) =~= all);
            lemma_bytes_read_grows(all.skip(1), 0);
            assert(all.skip(1).skip(0) =~= all.skip(1));
        } else {
            lemma_bytes_read_grows(all.skip(1), from - 1);
            assert(all.skip(1).skip(from - 1) =~= all.skip(from));
        }
    } else {
        assert(all.skip(from) =~= all);
    }
}

/// Whether `block` is among `changed`.
fn is_changed(changed: &Vec<u64>, block: u64) -> (found: bool)
    ensures
        found == changed@.contains(block),
{
    let mut i: usize = 0;
    while i < changed.len()
        invariant
            i <= changed@.len(),
            forall|j: int| 0 <= j < i ==> changed@[j] != block,
        decreases changed@.len() - i,
    {
        if changed[i] == block {
            return true;
        }
        i = i + 1;
    }
    false
}

/// The ranges of the changed blocks of a file of `size` bytes.
fn changed_ranges(size: u64, changed: &Vec<u64>, block_size: u32) -> (ranges: Vec<BlockRange>)
    requires
        offsets_fit(changed@, block_size),
    ensures
        ranges@ == ranges_of(size as int, changed@, block_size as int),
{
    let mut ranges: Vec<BlockRange> = Vec::new();
    let mut i: usize = 0;
    while i < changed.len()
        invariant
            i <= changed@.len(),
            offsets_fit(changed@, block_size),
            ranges@ == ranges_of(size as int, changed@, block_size as int).take(i as int),
        decreases changed@.len() - i,
    {
        let ghost all = ranges_of(size as int, changed@, block_size as int);
        proof {
            assert(all.take(i + 1) =~= all.take(i as int).push(all[i as int]));
        }
        ranges.push(block_range(size, changed[i], block_size));
        i = i + 1;
    }
    proof {
        let all = ranges_of(size as int, changed@, block_size as int);
        assert(all.take(changed@.len() as int) =~= all);
    }
    ranges
}

impl BlockTransfer {
    /// Looks up block `next`, or decides if there is none left.
    fn check_from(
        block_size: u32,
        min_size: u64,
        size: u64,
        hashes: Vec<String>,
        changed: Vec<u64>,
        next: usize,
    ) -> (after: (BlockTransfer, TransferAction))
        requires
            block_size > 0,
            hashes@.len() == block_count(size as int, block_size as int),
            changed@.len() <= next <= hashes@.len(),
            ascending_below(changed@, next as int),
        ensures
            (after.0@, after.1@) == (TransferModel {
                block_size,
                min_size,
                phase: PhaseModel::Done,
            }).check_from(size, texts(hashes@), changed@, next as int),
            after.1 matches TransferAction::FetchBlocks(ranges) ==> ranges_hold_bytes(
                ranges@,
                block_size,
            ),
    {
        if next < hashes.len() {
            let hash = hashes[next].clone();
            let action = TransferAction::CheckBlock { block_index: next as u64, hash };
            let phase = Phase::Checking { size, hashes, changed, next };
            return (BlockTransfer { block_size, min_size, phase }, action);
        }
        let total_blocks: u64 = hashes.len() as u64;
        if changed.len() == 0 {
            let result = BlockDeltaResult::Partial {
                blocks_downloaded: 0,
                blocks_skipped: total_blocks,
                bytes_downloaded: 0,
            };
            return (
                BlockTransfer { block_size, min_size, phase: Phase::Done },
                TransferAction::Finish(result),
            );
        }
        if is_too_dense(changed.len() as u64, total_blocks) {
            return (
                BlockTransfer { block_size, min_size, phase: Phase::AwaitClear },
                TransferAction::ClearBlocks,
            );
        }
        proof {
            assert forall|i: int| 0 <= i < changed@.len() implies (#[trigger] changed@[i])
                * block_size <= u64::MAX by {
                lemma_block_in_file(size as int, changed@[i] as int, block_size as int);
            }
        }
        let ranges = changed_ranges(size, &changed, block_size);
        proof {
            assert forall|i: int| #![trigger ranges@[i]] 0 <= i < ranges@.len() implies 0
                < ranges@[i].len && ranges@[i].offset == ranges@[i].block_index * block_size
                && ranges@[i].offset + ranges@[i].len <= u64::MAX by {
                assert(changed@[i] < next);
                lemma_block_in_file(size as int, changed@[i] as int, block_size as int);
            }
        }
        let phase = Phase::AwaitFetch { hashes, changed };
        (BlockTransfer { block_size, min_size, phase }, TransferAction::FetchBlocks(ranges))
    }

    /// Hands out the read for changed block number `next`, and flushes after
    /// the last one.
    fn write_from(
        block_size: u32,
        min_size: u64,
        hashes: Vec<String>,
        changed: Vec<u64>,
        fetched: Vec<Option<Vec<u8>>>,
        next: usize,
        bytes: u64,
    ) -> (after: (BlockTransfer, TransferAction))
        requires
            counted(hashes@, changed@),
            offsets_fit(changed@, block_size),
            fetched@.len() == changed@.len(),
            next <= changed@.len(),
            bytes + bytes_read(reads(fetched@).skip(next as int)) <= u64::MAX,
        ensures
            (after.0@, after.1@) == (TransferModel {
                block_size,
                min_size,
                phase: PhaseModel::Done,
            }).write_from(
                texts(hashes@),
                changed@,
                reads(fetched@).skip(next as int),
                next as int,
                bytes as int,
            ),
    {
        if next < changed.len() {
            let mut fetched = fetched;
            let ghost before = fetched@;
            let read = fetched[next].take();
            proof {
                assert(fetched@.len() == before.len());
                assert(reads(fetched@).skip(next + 1) =~= reads(before).skip(next + 1));
                assert(reads(before).skip(next as int).skip(1) =~= reads(before).skip(next + 1));
                assert(reads(before).skip(next as int)[0] == read_of(read));
                lemma_bytes_read_grows(reads(before).skip(next + 1), 0);
                assert(reads(before).skip(next + 1).skip(0) =~= reads(before).skip(next + 1));
            }
            match read {
                Some(data) => {
                    let bytes: u64 = bytes + data.len() as u64;
                    let offset: u64 = changed[next] * block_size as u64;
                    let phase = Phase::Writing { hashes, changed, fetched, next: next + 1, bytes };
                    (
                        BlockTransfer { block_size, min_size, phase },
                        TransferAction::WriteBlock { offset, data },
                    )
                },
                None => {
                    (
                        BlockTransfer { block_size, min_size, phase: Phase::Done },
                        TransferAction::FetchFailed { position: next },
                    )
                },
            }
        } else {
            let phase = Phase::AwaitFlush { hashes, changed, bytes };
            (BlockTransfer { block_size, min_size, phase }, TransferAction::Flush)
        }
    }

    /// Remembers the digest of block `next`, taken anew if the block changed,
    /// and finishes after the last one.
    fn record_from(
        block_size: u32,
        min_size: u64,
        hashes: Vec<String>,
        changed: Vec<u64>,
        bytes: u64,
        next: usize,
    ) -> (after: (BlockTransfer, TransferAction))
        requires
            counted(hashes@, changed@),
        ensures
            (after.0@, after.1@) == (TransferModel {
                block_size,
                min_size,
                phase: PhaseModel::Done,
            }).record_from(texts(hashes@), changed@, bytes as int, next as int),
    {
        if next >= hashes.len() {
            let result = BlockDeltaResult::Partial {
                blocks_downloaded: changed.len() as u64,
                blocks_skipped: hashes.len() as u64 - changed.len() as u64,
                bytes_downloaded: bytes,
            };
            return (
                BlockTransfer { block_size, min_size, phase: Phase::Done },
                TransferAction::Finish(result),
            );
        }
        let block_index: u64 = next as u64;
        if is_changed(&changed, block_index) {
            let phase = Phase::Rehashing { hashes, changed, bytes, next };
            (
                BlockTransfer { block_size, min_size, phase },
                TransferAction::RehashBlock { block_index },
            )
        } else {
            let hash = hashes[next].clone();
            let phase = Phase::Storing { hashes, changed, bytes, next };
            (
                BlockTransfer { block_size, min_size, phase },
                TransferAction::StoreBlock { block_index, hash, block_size, etag: String::new() },
            )
        }
    }
}

/// Takes a transfer one event further: the transfer as it then stands, and what
/// is to be done next. No number in what is to be done is cut off, and no range
/// to be read is empty.
pub fn transfer_block_delta(transfer: BlockTransfer, event: TransferEvent) -> (after: (
    BlockTransfer,
    TransferAction,
))
    ensures
        (after.0@, after.1@) == transfer@.step(event@),
        numbers_fit(transfer@, after.0@, after.1@),
{
    proof {
        use_type_invariant(&transfer);
    }
    let BlockTransfer { block_size, min_size, phase } = transfer;
    match (phase, event) {
        (Phase::AwaitRemoteSize, TransferEvent::RemoteSize(size)) => {
            if size < min_size {
                (
                    BlockTransfer { block_size, min_size, phase: Phase::Done },
                    TransferAction::Finish(BlockDeltaResult::TooSmall),
                )
            } else {
                (
                    BlockTransfer { block_size, min_size, phase: Phase::AwaitLocalSize { size } },
                    TransferAction::StatLocal,
                )
            }
        },
        (Phase::AwaitLocalSize { size }, TransferEvent::LocalSize(local)) => {
            match local {
                None => (
                    BlockTransfer { block_size, min_size, phase: Phase::Done },
                    TransferAction::Finish(BlockDeltaResult::FullDownload),
                ),
                Some(local_size) => {
                    if local_size != size {
                        (
                            BlockTransfer { block_size, min_size, phase: Phase::AwaitClear },
                            TransferAction::ClearBlocks,
                        )
                    } else if block_size == 0 {
                        (
                            BlockTransfer {
                                block_size,
                                min_size,
                                phase: Phase::AwaitLocalSize { size },
                            },
                            TransferAction::Rejected,
                        )
                    } else {
                        (
                            BlockTransfer {
                                block_size,
                                min_size,
                                phase: Phase::AwaitHashes { size },
                            },
                            TransferAction::HashBlocks {
                                total_blocks: count_blocks(size, block_size),
                            },
                        )
                    }
                },
            }
        },
        (Phase::AwaitClear, TransferEvent::Cleared) => (
            BlockTransfer { block_size, min_size, phase: Phase::Done },
            TransferAction::Finish(BlockDeltaResult::FullDownload),
        ),
        (Phase::AwaitHashes { size }, TransferEvent::LocalHashes(hashes)) => {
            if hashes.len() as u64 != count_blocks(size, block_size) {
                (
                    BlockTransfer { block_size, min_size, phase: Phase::AwaitHashes { size } },
                    TransferAction::Rejected,
                )
            } else {
                BlockTransfer::check_from(block_size, min_size, size, hashes, Vec::new(), 0)
            }
        },
        (
            Phase::Checking { size, hashes, changed, next },
            TransferEvent::BlockMatch(found),
        ) => {
            let mut changed = changed;
            if !found {
                changed.push(next as u64);
            }
            BlockTransfer::check_from(block_size, min_size, size, hashes, changed, next + 1)
        },
        (Phase::AwaitFetch { hashes, changed }, TransferEvent::Fetched(fetched)) => {
            if fetched.len() != changed.len() || !bytes_fit(&fetched) {
                (
                    BlockTransfer {
                        block_size,
                        min_size,
                        phase: Phase::AwaitFetch { hashes, changed },
                    },
                    TransferAction::Rejected,
                )
            } else {
                (
                    BlockTransfer {
                        block_size,
                        min_size,
                        phase: Phase::AwaitOpen { hashes, changed, fetched },
                    },
                    TransferAction::OpenLocal,
                )
            }
        },
        (Phase::AwaitOpen { hashes, changed, fetched }, TransferEvent::Opened) => {
            proof {
                assert(reads(fetched@).skip(0) =~= reads(fetched@));
            }
            BlockTransfer::write_from(block_size, min_size, hashes, changed, fetched, 0, 0)
        },
        (
            Phase::Writing { hashes, changed, fetched, next, bytes },
            TransferEvent::Written,
        ) => BlockTransfer::write_from(
            block_size,
            min_size,
            hashes,
            changed,
            fetched,
            next,
            bytes,
        ),
        (Phase::AwaitFlush { hashes, changed, bytes }, TransferEvent::Flushed) => {
            BlockTransfer::record_from(block_size, min_size, hashes, changed, bytes, 0)
        },
        (
            Phase::Rehashing { hashes, changed, bytes, next },
            TransferEvent::Rehashed(hash),
        ) => (
            BlockTransfer {
                block_size,
                min_size,
                phase: Phase::Storing { hashes, changed, bytes, next },
            },
            TransferAction::StoreBlock {
                block_index: next as u64,
                hash,
                block_size,
                etag: String::new(),
            },
        ),
        (Phase::Storing { hashes, changed, bytes, next }, TransferEvent::Stored) => {
            BlockTransfer::record_from(block_size, min_size, hashes, changed, bytes, next + 1)
        },
        (phase, _) => (BlockTransfer { block_size, min_size, phase }, TransferAction::Rejected),
    }
}

/// Nothing is digested again or remembered before all blocks have been written
/// and flushed, so a transfer that breaks off on the way there leaves every
/// remembered digest as it was.
pub proof fn law_digests_are_remembered_after_the_flush(transfer: TransferModel, event: EventModel)
    requires
        transfer.step(event).1 is RehashBlock || transfer.step(event).1 is StoreBlock,
    ensures
        transfer.phase is AwaitFlush || transfer.phase is Rehashing || transfer.phase is Storing,
        transfer.step(event).0.phase is Rehashing || transfer.step(event).0.phase is Storing,
{
}

/// A transfer that has given its result, or has come upon a read that failed,
/// is over: whatever is reported afterwards is rejected.
pub proof fn law_finished_transfer_stays_finished(
    transfer: TransferModel,
    event: EventModel,
    later: EventModel,
)
    requires
        transfer.step(event).1 is Finish || transfer.step(event).1 is FetchFailed,
    ensures
        transfer.step(event).0.phase is Done,
        transfer.step(event).0.step(later) == (transfer.step(event).0, ActionModel::Rejected),
{
}

/// Every digest is looked up, whatever it is and whatever the earlier ones came
/// to: the blocks one after the other from the first on. A block counts as
/// changed exactly if its digest is not the remembered one.
pub proof fn law_every_block_is_looked_up(
    transfer: TransferModel,
    size: u64,
    hashes: Seq<Seq<char>>,
    changed: Seq<u64>,
    next: int,
    found: bool,
)
    requires
        0 <= next,
        next + 1 < hashes.len() <= u64::MAX,
        transfer.phase == (PhaseModel::Checking { size, hashes, changed, next }),
    ensures
        ({
            let (after, action) = transfer.step(EventModel::BlockMatch(found));
            &&& action == ActionModel::CheckBlock {
                block_index: (next + 1) as u64,
                hash: hashes[next + 1],
            }
            &&& after.phase matches PhaseModel::Checking {
                size: s,
                hashes: h,
                changed: c,
                next: n,
            } && s == size && h == hashes && n == next + 1 && c.len() == changed.len() + (if found {
                0int
            } else {
                1
            }) && c.take(changed.len() as int) == changed && (!found ==> c[c.len() - 1] == next)
        }),
{
    assert(changed.take(changed.len() as int) =~= changed);
    assert(changed.push(next as u64).take(changed.len() as int) =~= changed);
}

/// The digests of a file with at least one block are looked up from the first
/// on, with no block known to have changed.
pub proof fn law_look_up_begins_with_the_first_block(
    transfer: TransferModel,
    size: u64,
    hashes: Seq<Seq<char>>,
)
    requires
        transfer.phase == (PhaseModel::AwaitHashes { size }),
        0 < hashes.len(),
        hashes.len() == block_count(size as int, transfer.block_size as int),
    ensures
        transfer.step(EventModel::LocalHashes(hashes)).1 == (ActionModel::CheckBlock {
            block_index: 0,
            hash: hashes[0],
        }),
        transfer.step(EventModel::LocalHashes(hashes)).0.phase == (PhaseModel::Checking {
            size,
            hashes,
            changed: Seq::empty(),
            next: 0,
        }),
{
}

/// What was read is written as it came, of whatever length it is, at the place
/// of its block, and its bytes are counted.
pub proof fn law_reads_are_written_as_they_come(
    transfer: TransferModel,
    hashes: Seq<Seq<char>>,
    changed: Seq<u64>,
    reads: Seq<Option<Seq<u8>>>,
    next: int,
    bytes: int,
)
    requires
        0 <= next < changed.len(),
        reads.len() > 0,
        reads[0] is Some,
    ensures
        ({
            let data = reads[0]->0;
            let action = ActionModel::WriteBlock {
                offset: (changed[next] * transfer.block_size) as u64,
                data,
            };
            let writing = transfer.at(
                PhaseModel::Writing { hashes, changed, pending: reads, next, bytes },
            );
            let opening = transfer.at(
                PhaseModel::AwaitOpen { hashes, changed, fetched: reads },
            );
            &&& writing.step(EventModel::Written).1 == action
            &&& writing.step(EventModel::Written).0.phase == (PhaseModel::Writing {
                hashes,
                changed,
                pending: reads.skip(1),
                next: next + 1,
                bytes: bytes + data.len(),
            })
            &&& next == 0 ==> opening.step(EventModel::Opened).1 == action
            &&& next == 0 ==> opening.step(EventModel::Opened).0.phase == (PhaseModel::Writing {
                hashes,
                changed,
                pending: reads.skip(1),
                next: 1,
                bytes: data.len() as int,
            })
        }),
{
}

/// Reads are accepted, failed ones too, if there is one for each range and
/// their bytes can be counted in 64 bits.
pub proof fn law_reads_are_accepted(
    transfer: TransferModel,
    hashes: Seq<Seq<char>>,
    changed: Seq<u64>,
    fetched: Seq<Option<Seq<u8>>>,
)
    requires
        transfer.phase == (PhaseModel::AwaitFetch { hashes, changed }),
        fetched.len() == changed.len(),
        bytes_read(fetched) <= u64::MAX,
    ensures
        transfer.step(EventModel::Fetched(fetched)) == (
            transfer.at(PhaseModel::AwaitOpen { hashes, changed, fetched }),
            ActionModel::OpenLocal,
        ),
{
}

/// The bytes of one more read are added to those of the others; a read that
/// failed adds none.
pub proof fn law_bytes_are_added_up(reads: Seq<Option<Seq<u8>>>, data: Seq<u8>)
    ensures
        bytes_read(Seq::empty()) == 0,
        bytes_read(reads.push(Some(data))) == bytes_read(reads) + data.len(),
        bytes_read(reads.push(None)) == bytes_read(reads),
    decreases reads.len(),
{
    let more = reads.push(Some(data));
    let failed = reads.push(None);
    if reads.len() == 0 {
        assert(more.skip(1) =~= Seq::empty());
        assert(failed.skip(1) =~= Seq::empty());
        assert(bytes_read(more.skip(1)) == 0);
        assert(bytes_read(failed.skip(1)) == 0);
    } else {
        law_bytes_are_added_up(reads.skip(1), data);
        assert(more.skip(1) =~= reads.skip(1).push(Some(data)));
        assert(failed.skip(1) =~= reads.skip(1).push(None));
    }
}

/// The model of an action holds all of its fields, unchanged.
pub proof fn law_action_is_seen_in_full(action: TransferAction)
    ensures
        action is StatRemote <==> action@ is StatRemote,
        action is StatLocal <==> action@ is StatLocal,
        action is ClearBlocks <==> action@ is ClearBlocks,
        action is OpenLocal <==> action@ is OpenLocal,
        action is Flush <==> action@ is Flush,
        action is Rejected <==> action@ is Rejected,
        action matches TransferAction::HashBlocks { total_blocks } ==> action@
            == (ActionModel::HashBlocks { total_blocks }),
        action matches TransferAction::CheckBlock { block_index, hash } ==> action@
            == (ActionModel::CheckBlock { block_index, hash: hash@ }),
        action matches TransferAction::FetchBlocks(ranges) ==> action@ == ActionModel::FetchBlocks(
            ranges@,
        ),
        action matches TransferAction::WriteBlock { offset, data } ==> action@
            == (ActionModel::WriteBlock { offset, data: data@ }),
        action matches TransferAction::FetchFailed { position } ==> action@ is FetchFailed
            && action@->position == position,
        action matches TransferAction::RehashBlock { block_index } ==> action@
            == (ActionModel::RehashBlock { block_index }),
        action matches TransferAction::StoreBlock { block_index, hash, block_size, etag }
            ==> action@ == (ActionModel::StoreBlock {
            block_index,
            hash: hash@,
            block_size,
            etag: etag@,
        }),
        action matches TransferAction::Finish(result) ==> action@ == ActionModel::Finish(result),
{
}

/// The model of an event holds all of its fields, unchanged.
pub proof fn law_event_is_seen_in_full(event: TransferEvent, i: int)
    ensures
        event matches TransferEvent::RemoteSize(size) ==> event@ == EventModel::RemoteSize(size),
        event matches TransferEvent::LocalSize(size) ==> event@ == EventModel::LocalSize(size),
        event is Cleared <==> event@ is Cleared,
        event is Opened <==> event@ is Opened,
        event is Written <==> event@ is Written,
        event is Flushed <==> event@ is Flushed,
        event is Stored <==> event@ is Stored,
        event matches TransferEvent::BlockMatch(found) ==> event@ == EventModel::BlockMatch(found),
        event matches TransferEvent::Rehashed(hash) ==> event@ == EventModel::Rehashed(hash@),
        event matches TransferEvent::LocalHashes(hashes) ==> event@ is LocalHashes
            && event@->LocalHashes_0.len() == hashes@.len() && (0 <= i < hashes@.len()
            ==> event@->LocalHashes_0[i] == hashes@[i]@),
        event matches TransferEvent::Fetched(fetched) ==> event@ is Fetched
            && event@->Fetched_0.len() == fetched@.len() && (0 <= i < fetched@.len() ==> (
        fetched@[i] is Some <==> event@->Fetched_0[i] is Some) && (fetched@[i] is Some
            ==> event@->Fetched_0[i]->0 == fetched@[i]->0@)),
{
}

/// A digest is remembered with the block size of the transfer and without any
/// tag. It is the one just taken if the block was digested again, and the one
/// taken at the beginning if it was not.
pub proof fn law_digests_are_remembered_with_the_block_size(
    transfer: TransferModel,
    event: EventModel,
)
    requires
        transfer.step(event).1 is StoreBlock,
    ensures
        transfer.step(event).1->StoreBlock_block_size == transfer.block_size,
        transfer.step(event).1->etag.len() == 0,
        event matches EventModel::Rehashed(hash) ==> transfer.step(event).1->StoreBlock_hash == hash,
        event !is Rehashed ==> (transfer.step(event).0.phase matches PhaseModel::Storing {
            hashes,
            changed,
            next,
            ..
        } && transfer.step(event).1->StoreBlock_hash == hashes[next] && !changed.contains(
            next as u64,
        )),
{
}

} // verus!
