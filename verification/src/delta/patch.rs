//! Applying a delta plan, as a state machine.
//!
//! The caller performs the action it is handed (a read of the basis file, a
//! write to the file being rebuilt) and reports back; each event yields the
//! next action, until the file is complete.
use base64::DecodeError;
use vstd::prelude::*;

use super::base64_text::{base64_data, base64_error, decode_base64};
use super::protocol::{DeltaOp, OpModel};

verus! {

/// The streaming MD5 state of the `md5` crate.
#[verifier::external_type_specification]
#[verifier::external_body]
pub struct ExContext(md5::Context);

/// The bytes that an MD5 context has consumed so far, in order.
pub uninterp spec fn md5_fed(context: md5::Context) -> Seq<u8>;

/// The 16-byte MD5 digest of `data`.
pub uninterp spec fn md5_digest(data: Seq<u8>) -> Seq<u8>;

/// `md5::Context::new` makes a context that has consumed nothing yet.
#[verifier::external_body]
fn md5_new() -> (context: md5::Context)
    ensures
        md5_fed(context) == Seq::<u8>::empty(),
{
    md5::Context::new()
}

/// `md5::Context::consume` takes `data` in behind what was consumed before.
#[verifier::external_body]
fn md5_consume(context: &mut md5::Context, data: &[u8])
    ensures
        md5_fed(*final(context)) == md5_fed(*old(context)) + data@,
{
    context.consume(data);
}

/// `md5::Context::compute` is the digest of all bytes consumed, however they
/// were split between the calls that brought them.
#[verifier::external_body]
fn md5_compute(context: md5::Context) -> (digest: [u8; 16])
    ensures
        digest@ == md5_digest(md5_fed(context)),
{
    context.compute().0
}

/// The number that `bytes` stand for, the highest byte first.
pub open spec fn big_endian(bytes: Seq<u8>) -> int
    decreases bytes.len(),
{
    if bytes.len() == 0 {
        0
    } else {
        big_endian(bytes.drop_last()) * 256 + bytes.last()
    }
}

/// Two hundred and fifty-six to the power of `n`.
spec fn pow256(n: nat) -> int
    decreases n,
{
    if n == 0 {
        1
    } else {
        256 * pow256((n - 1) as nat)
    }
}

/// A number of `n` bytes is below `pow256(n)`.
proof fn lemma_big_endian_bound(bytes: Seq<u8>)
    ensures
        0 <= big_endian(bytes) < pow256(bytes.len()),
    decreases bytes.len(),
{
    if bytes.len() > 0 {
        lemma_big_endian_bound(bytes.drop_last());
    }
}

/// Reads a digest as one number, the highest byte first.
pub fn digest_number(bytes: [u8; 16]) -> (number: u128)
    ensures
        number == big_endian(bytes@),
{
    let mut number: u128 = 0;
    let mut i: usize = 0;
    while i < 16
        invariant
            i <= 16,
            number == big_endian(bytes@.take(i as int)),
        decreases 16 - i,
    {
        let byte: u8 = bytes[i];
        proof {
            let more = bytes@.take(i + 1);
            assert(more.drop_last() =~= bytes@.take(i as int));
            lemma_big_endian_bound(more);
            lemma_pow256_grows((i + 1) as nat, 16);
            reveal_with_fuel(pow256, 17);
            assert(pow256(16) == u128::MAX + 1);
        }
        number = number * 256 + byte as u128;
        i = i + 1;
    }
    proof {
        assert(bytes@.take(16) =~= bytes@);
    }
    number
}

/// The powers grow.
proof fn lemma_pow256_grows(m: nat, n: nat)
    requires
        m <= n,
    ensures
        0 < pow256(m) <= pow256(n),
    decreases n,
{
    if m < n {
        lemma_pow256_grows(m, (n - 1) as nat);
    } else if n > 0 {
        lemma_pow256_grows((m - 1) as nat, (n - 1) as nat);
    }
}

/// After how many operations the output is flushed.
pub const FLUSH_INTERVAL: usize = 128;

/// What the caller found out.
#[derive(Debug)]
pub enum PatchEvent {
    /// The bytes read from the basis file.
    BasisRead(Vec<u8>),
    /// The bytes were written behind the output.
    Written,
    /// The output was flushed.
    Flushed,
    /// The output reached the disk.
    Synced,
}

/// What the caller is to do next.
#[derive(Debug)]
pub enum PatchAction {
    /// Read exactly `len` bytes of the basis file, from `offset` on.
    ReadBasis { offset: u64, len: u32 },
    /// Write these bytes behind the output.
    WriteOutput(Vec<u8>),
    /// Flush the output.
    FlushOutput,
    /// Bring the output to the disk.
    SyncOutput,
    /// Nothing more to do: how many bytes were written, how many operations the
    /// plan has, and the MD5 digest of what was written as one number.
    Finish { written: u64, op_count: usize, digest: u128 },
    /// Give up: the literal of this operation is not base64.
    DecodeFailed { op_index: usize, error: DecodeError },
    /// The event answers another question than the one asked, or cannot be
    /// worked on.
    Rejected,
}

/// `PatchEvent` as mathematical values.
pub enum PatchEventModel {
    BasisRead(Seq<u8>),
    Written,
    Flushed,
    Synced,
}

/// `PatchAction` as mathematical values.
pub enum PatchActionModel {
    ReadBasis { offset: u64, len: u32 },
    WriteOutput(Seq<u8>),
    FlushOutput,
    SyncOutput,
    Finish { written: int, op_count: int, digest: int },
    DecodeFailed { op_index: int, error: DecodeError },
    Rejected,
}

impl View for PatchEvent {
    type V = PatchEventModel;

    open spec fn view(&self) -> PatchEventModel {
        match self {
            PatchEvent::BasisRead(data) => PatchEventModel::BasisRead(data@),
            PatchEvent::Written => PatchEventModel::Written,
            PatchEvent::Flushed => PatchEventModel::Flushed,
            PatchEvent::Synced => PatchEventModel::Synced,
        }
    }
}

impl View for PatchAction {
    type V = PatchActionModel;

    open spec fn view(&self) -> PatchActionModel {
        match self {
            PatchAction::ReadBasis { offset, len } => PatchActionModel::ReadBasis {
                offset: *offset,
                len: *len,
            },
            PatchAction::WriteOutput(data) => PatchActionModel::WriteOutput(data@),
            PatchAction::FlushOutput => PatchActionModel::FlushOutput,
            PatchAction::SyncOutput => PatchActionModel::SyncOutput,
            PatchAction::Finish { written, op_count, digest } => PatchActionModel::Finish {
                written: *written as int,
                op_count: *op_count as int,
                digest: *digest as int,
            },
            PatchAction::DecodeFailed { op_index, error } => PatchActionModel::DecodeFailed {
                op_index: *op_index as int,
                error: *error,
            },
            PatchAction::Rejected => PatchActionModel::Rejected,
        }
    }
}

/// What an application of a plan waits for.
#[derive(Debug)]
pub enum PatchStep {
    /// The bytes that operation `index` copies.
    Reading { index: usize, len: u32 },
    /// That the bytes of operation `index` are written.
    Writing { index: usize },
    /// That the output is flushed, after operation `index`.
    Flushing { index: usize },
    /// That the output reaches the disk.
    Syncing,
}

/// An application of a plan as mathematical values: `output` are the bytes
/// handed out to be written so far.
pub enum PatchState {
    Active { step: PatchStep, output: Seq<u8> },
    Done,
}

/// An application of a plan with the plan itself.
pub struct PatchModel {
    pub ops: Seq<OpModel>,
    pub block_size: u32,
    pub state: PatchState,
}

impl PatchModel {
    /// The same application at another point.
    pub open spec fn at(self, step: PatchStep, output: Seq<u8>) -> PatchModel {
        PatchModel { state: PatchState::Active { step, output }, ..self }
    }

    /// The same application, over.
    pub open spec fn done(self) -> PatchModel {
        PatchModel { state: PatchState::Done, ..self }
    }

    /// Hands out the bytes of operation `index`.
    pub open spec fn write(self, index: int, output: Seq<u8>, data: Seq<u8>) -> (
        PatchModel,
        PatchActionModel,
    ) {
        if output.len() + data.len() > u64::MAX {
            (self.done(), PatchActionModel::Rejected)
        } else {
            (
                self.at(PatchStep::Writing { index: index as usize }, output + data),
                PatchActionModel::WriteOutput(data),
            )
        }
    }

    /// Carries out operation `index`, and ends the plan after the last one.
    pub open spec fn perform_from(self, index: int, output: Seq<u8>) -> (
        PatchModel,
        PatchActionModel,
    ) {
        if index >= self.ops.len() {
            (self.at(PatchStep::Syncing, output), PatchActionModel::SyncOutput)
        } else {
            match self.ops[index] {
                OpModel::Copy { block_index, len } => {
                    if block_index * self.block_size > u64::MAX {
                        (self.done(), PatchActionModel::Rejected)
                    } else {
                        (
                            self.at(PatchStep::Reading { index: index as usize, len }, output),
                            PatchActionModel::ReadBasis {
                                offset: (block_index * self.block_size) as u64,
                                len,
                            },
                        )
                    }
                },
                OpModel::Literal { data_b64 } => match base64_data(data_b64) {
                    Some(data) => self.write(index, output, data),
                    None => (
                        self.done(),
                        PatchActionModel::DecodeFailed {
                            op_index: index,
                            error: base64_error(data_b64),
                        },
                    ),
                },
            }
        }
    }

    /// One step: where `event` takes the application, and what is to be done
    /// then.
    pub open spec fn step(self, event: PatchEventModel) -> (PatchModel, PatchActionModel) {
        match self.state {
            PatchState::Done => (self, PatchActionModel::Rejected),
            PatchState::Active { step, output } => match (step, event) {
                (PatchStep::Reading { index, len }, PatchEventModel::BasisRead(data)) => {
                    if data.len() != len {
                        (self, PatchActionModel::Rejected)
                    } else {
                        self.write(index as int, output, data)
                    }
                },
                (PatchStep::Writing { index }, PatchEventModel::Written) => {
                    if index as int % FLUSH_INTERVAL as int == 0 {
                        (
                            self.at(PatchStep::Flushing { index }, output),
                            PatchActionModel::FlushOutput,
                        )
                    } else {
                        self.perform_from(index + 1, output)
                    }
                },
                (PatchStep::Flushing { index }, PatchEventModel::Flushed) => {
                    self.perform_from(index + 1, output)
                },
                (PatchStep::Syncing, PatchEventModel::Synced) => (
                    self.done(),
                    PatchActionModel::Finish {
                        written: output.len() as int,
                        op_count: self.ops.len() as int,
                        digest: big_endian(md5_digest(output)),
                    },
                ),
                _ => (self, PatchActionModel::Rejected),
            },
        }
    }
}

/// The operations of a plan.
pub open spec fn ops_of(ops: Seq<DeltaOp>) -> Seq<OpModel> {
    Seq::new(ops.len(), |i: int| ops[i]@)
}

/// An application that is not over.
struct ActivePatch {
    step: PatchStep,
    written: u64,
    hasher: md5::Context,
}

/// The application of a plan to a basis file, between two events.
pub struct DeltaPatch<'a> {
    ops: &'a Vec<DeltaOp>,
    block_size: u32,
    active: Option<ActivePatch>,
}

impl<'a> View for DeltaPatch<'a> {
    type V = PatchModel;

    closed spec fn view(&self) -> PatchModel {
        PatchModel {
            ops: ops_of(self.ops@),
            block_size: self.block_size,
            state: match self.active {
                Some(active) => PatchState::Active {
                    step: active.step,
                    output: md5_fed(active.hasher),
                },
                None => PatchState::Done,
            },
        }
    }
}

impl<'a> DeltaPatch<'a> {
    #[verifier::type_invariant]
    spec fn valid(&self) -> bool {
        match self.active {
            Some(active) => {
                &&& active.written == md5_fed(active.hasher).len()
                &&& match active.step {
                    PatchStep::Reading { index, .. } => index < self.ops@.len()
                        <= usize::MAX,
                    PatchStep::Writing { index } => index < self.ops@.len() <= usize::MAX,
                    PatchStep::Flushing { index } => index < self.ops@.len() <= usize::MAX,
                    PatchStep::Syncing => true,
                }
            },
            None => true,
        }
    }

    /// Begins to apply `ops`, all in blocks of `block_size` bytes, from the
    /// operation `start_op_index` on.
    pub fn new(ops: &'a Vec<DeltaOp>, block_size: u32, start_op_index: usize) -> (start: (
        DeltaPatch<'a>,
        PatchAction,
    ))
        ensures
            (start.0@, start.1@) == (PatchModel {
                ops: ops_of(ops@),
                block_size,
                state: PatchState::Done,
            }).perform_from(start_op_index as int, Seq::empty()),
    {
        DeltaPatch::perform_from(ops, block_size, start_op_index, 0, md5_new())
    }

    /// Hands out the bytes of operation `index`.
    fn write(
        ops: &'a Vec<DeltaOp>,
        block_size: u32,
        index: usize,
        written: u64,
        hasher: md5::Context,
        data: Vec<u8>,
    ) -> (after: (DeltaPatch<'a>, PatchAction))
        requires
            index < ops@.len() <= usize::MAX,
            written == md5_fed(hasher).len(),
        ensures
            (after.0@, after.1@) == (PatchModel {
                ops: ops_of(ops@),
                block_size,
                state: PatchState::Done,
            }).write(index as int, md5_fed(hasher), data@),
    {
        match written.checked_add(data.len() as u64) {
            None => (DeltaPatch { ops, block_size, active: None }, PatchAction::Rejected),
            Some(written) => {
                let mut hasher = hasher;
                md5_consume(&mut hasher, data.as_slice());
                let step = PatchStep::Writing { index };
                (
                    DeltaPatch { ops, block_size, active: Some(ActivePatch { step, written, hasher }) },
                    PatchAction::WriteOutput(data),
                )
            },
        }
    }

    /// Carries out operation `index`, and ends the plan after the last one.
    fn perform_from(
        ops: &'a Vec<DeltaOp>,
        block_size: u32,
        index: usize,
        written: u64,
        hasher: md5::Context,
    ) -> (after: (DeltaPatch<'a>, PatchAction))
        requires
            written == md5_fed(hasher).len(),
        ensures
            (after.0@, after.1@) == (PatchModel {
                ops: ops_of(ops@),
                block_size,
                state: PatchState::Done,
            }).perform_from(index as int, md5_fed(hasher)),
    {
        if index >= ops.len() {
            let step = PatchStep::Syncing;
            return (
                DeltaPatch { ops, block_size, active: Some(ActivePatch { step, written, hasher }) },
                PatchAction::SyncOutput,
            );
        }
        match &ops[index] {
            DeltaOp::Copy { block_index, len } => {
                match block_index.checked_mul(block_size as u64) {
                    None => (DeltaPatch { ops, block_size, active: None }, PatchAction::Rejected),
                    Some(offset) => {
                        let len: u32 = *len;
                        let step = PatchStep::Reading { index, len };
                        (
                            DeltaPatch {
                                ops,
                                block_size,
                                active: Some(ActivePatch { step, written, hasher }),
                            },
                            PatchAction::ReadBasis { offset, len },
                        )
                    },
                }
            },
            DeltaOp::Literal { data_b64 } => match decode_base64(data_b64.as_str()) {
                Ok(data) => DeltaPatch::write(ops, block_size, index, written, hasher, data),
                Err(error) => (
                    DeltaPatch { ops, block_size, active: None },
                    PatchAction::DecodeFailed { op_index: index, error },
                ),
            },
        }
    }
}

/// Takes the application of a plan one event further: the application as it
/// then stands, and what is to be done next.
pub fn apply_delta_ops<'a>(patch: DeltaPatch<'a>, event: PatchEvent) -> (after: (
    DeltaPatch<'a>,
    PatchAction,
))
    ensures
        (after.0@, after.1@) == patch@.step(event@),
{
    proof {
        use_type_invariant(&patch);
    }
    let DeltaPatch { ops, block_size, active } = patch;
    match active {
        None => (DeltaPatch { ops, block_size, active: None }, PatchAction::Rejected),
        Some(ActivePatch { step, written, hasher }) => match (step, event) {
            (PatchStep::Reading { index, len }, PatchEvent::BasisRead(data)) => {
                if data.len() as u64 != len as u64 {
                    let step = PatchStep::Reading { index, len };
                    (
                        DeltaPatch {
                            ops,
                            block_size,
                            active: Some(ActivePatch { step, written, hasher }),
                        },
                        PatchAction::Rejected,
                    )
                } else {
                    DeltaPatch::write(ops, block_size, index, written, hasher, data)
                }
            },
            (PatchStep::Writing { index }, PatchEvent::Written) => {
                if index % FLUSH_INTERVAL == 0 {
                    let step = PatchStep::Flushing { index };
                    (
                        DeltaPatch {
                            ops,
                            block_size,
                            active: Some(ActivePatch { step, written, hasher }),
                        },
                        PatchAction::FlushOutput,
                    )
                } else {
                    DeltaPatch::perform_from(ops, block_size, index + 1, written, hasher)
                }
            },
            (PatchStep::Flushing { index }, PatchEvent::Flushed) => {
                DeltaPatch::perform_from(ops, block_size, index + 1, written, hasher)
            },
            (PatchStep::Syncing, PatchEvent::Synced) => {
                let digest: u128 = digest_number(md5_compute(hasher));
                (
                    DeltaPatch { ops, block_size, active: None },
                    PatchAction::Finish { written, op_count: ops.len(), digest },
                )
            },
            (step, _) => (
                DeltaPatch { ops, block_size, active: Some(ActivePatch { step, written, hasher }) },
                PatchAction::Rejected,
            ),
        },
    }
}

/// A number is read byte by byte, the highest first: each byte behind the
/// others makes it 256 times as large plus the byte.
pub proof fn law_big_endian_is_read_byte_by_byte(bytes: Seq<u8>, byte: u8)
    ensures
        big_endian(Seq::empty()) == 0,
        big_endian(bytes.push(byte)) == 256 * big_endian(bytes) + byte,
{
    assert(bytes.push(byte).drop_last() =~= bytes);
}

/// Once the bytes of an operation are written, the output is flushed exactly
/// after every operation whose number is a multiple of 128.
pub proof fn law_output_is_flushed_every_128_operations(
    patch: PatchModel,
    index: usize,
    output: Seq<u8>,
)
    requires
        patch.state == (PatchState::Active { step: PatchStep::Writing { index }, output }),
    ensures
        patch.step(PatchEventModel::Written).1 is FlushOutput <==> index as int % 128 == 0,
{
    assert(FLUSH_INTERVAL == 128);
}

/// A plan ends well only once the output has reached the disk, and the output
/// is brought there only once all operations have been carried out.
pub proof fn law_output_is_synced_before_the_end(patch: PatchModel, event: PatchEventModel)
    ensures
        patch.step(event).1 is Finish ==> event is Synced && (patch.state matches PatchState::Active {
            step,
            ..
        } && step is Syncing),
        patch.step(event).1 is SyncOutput ==> (patch.state matches PatchState::Active {
            step,
            ..
        } && match step {
            PatchStep::Writing { index } => index + 1 >= patch.ops.len(),
            PatchStep::Flushing { index } => index + 1 >= patch.ops.len(),
            _ => false,
        }),
{
}

/// The models of an action and of an event hold all of their fields, unchanged.
pub proof fn law_patch_actions_and_events_are_seen_in_full(
    action: PatchAction,
    event: PatchEvent,
)
    ensures
        action matches PatchAction::ReadBasis { offset, len } ==> action@
            == (PatchActionModel::ReadBasis { offset, len }),
        action matches PatchAction::WriteOutput(data) ==> action@ == PatchActionModel::WriteOutput(
            data@,
        ),
        action is FlushOutput <==> action@ is FlushOutput,
        action is SyncOutput <==> action@ is SyncOutput,
        action is Rejected <==> action@ is Rejected,
        action matches PatchAction::Finish { written, op_count, digest } ==> action@ is Finish
            && action@->written == written && action@->op_count == op_count && action@->digest
            == digest,
        action matches PatchAction::DecodeFailed { op_index, error } ==> action@ is DecodeFailed
            && action@->op_index == op_index && action@->error == error,
        event matches PatchEvent::BasisRead(data) ==> event@ == PatchEventModel::BasisRead(data@),
        event is Written <==> event@ is Written,
        event is Flushed <==> event@ is Flushed,
        event is Synced <==> event@ is Synced,
{
}

} // verus!
