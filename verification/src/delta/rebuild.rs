//! What applying a whole delta plan yields.
//!
//! The laws here set the state machine against files that answer it truthfully:
//! a basis file and the output being written.
use vstd::prelude::*;

use super::base64_text::{
    base64_data, base64_error, base64_text, law_base64_decodes_what_was_encoded,
};
use super::patch::{
    big_endian, md5_digest, PatchActionModel, PatchEventModel, PatchModel, PatchState, PatchStep,
    FLUSH_INTERVAL,
};
use super::protocol::OpModel;

verus! {

/// What reading exactly `len` bytes of `basis` from `offset` on yields: nothing
/// at all can be read anywhere, all else has to lie within the file.
pub open spec fn read_at(basis: Seq<u8>, offset: int, len: int) -> Option<Seq<u8>> {
    if len == 0 {
        Some(Seq::empty())
    } else if offset + len <= basis.len() {
        Some(basis.subrange(offset, offset + len))
    } else {
        None
    }
}

/// The bytes that one operation adds, if it can be carried out: a copy has to
/// lie within the basis file, at an offset of 64 bits, and a literal has to be
/// base64.
pub open spec fn op_output(basis: Seq<u8>, op: OpModel, block_size: u32) -> Option<Seq<u8>> {
    match op {
        OpModel::Copy { block_index, len } => {
            if block_index * block_size <= u64::MAX {
                read_at(basis, block_index * block_size, len as int)
            } else {
                None
            }
        },
        OpModel::Literal { data_b64 } => base64_data(data_b64),
    }
}

/// The bytes that the operations add one after the other, if all of them can be
/// carried out.
pub open spec fn rebuilt(basis: Seq<u8>, ops: Seq<OpModel>, block_size: u32) -> Option<Seq<u8>>
    decreases ops.len(),
{
    if ops.len() == 0 {
        Some(Seq::empty())
    } else {
        match (op_output(basis, ops[0], block_size), rebuilt(basis, ops.skip(1), block_size)) {
            (Some(first), Some(rest)) => Some(first + rest),
            _ => None,
        }
    }
}

/// The operations from number `start` on; none if there are not that many.
pub open spec fn ops_from(ops: Seq<OpModel>, start: int) -> Seq<OpModel> {
    if start <= ops.len() {
        ops.skip(start)
    } else {
        Seq::empty()
    }
}

/// An application under way: its state, what it asked for, the basis file and
/// what has been written.
pub struct Rebuild {
    pub patch: PatchModel,
    pub action: PatchActionModel,
    pub basis: Seq<u8>,
    pub written: Seq<u8>,
}

impl Rebuild {
    /// What is reported once the action has been performed, and what has been
    /// written by then; `None` where nothing is asked for or the read fails.
    pub open spec fn performed(self) -> Option<(Seq<u8>, PatchEventModel)> {
        match self.action {
            PatchActionModel::ReadBasis { offset, len } => {
                match read_at(self.basis, offset as int, len as int) {
                    Some(data) => Some((self.written, PatchEventModel::BasisRead(data))),
                    None => None,
                }
            },
            PatchActionModel::WriteOutput(data) => Some(
                (self.written + data, PatchEventModel::Written),
            ),
            PatchActionModel::FlushOutput => Some((self.written, PatchEventModel::Flushed)),
            PatchActionModel::SyncOutput => Some((self.written, PatchEventModel::Synced)),
            PatchActionModel::Finish { .. } => None,
            PatchActionModel::DecodeFailed { .. } => None,
            PatchActionModel::Rejected => None,
        }
    }

    /// The application one action later.
    pub open spec fn advanced(self) -> Rebuild {
        match self.performed() {
            Some((written, event)) => {
                let (patch, action) = self.patch.step(event);
                Rebuild { patch, action, basis: self.basis, written }
            },
            None => self,
        }
    }

    /// The application `steps` actions later.
    pub open spec fn after(self, steps: nat) -> Rebuild
        decreases steps,
    {
        if steps == 0 {
            self
        } else {
            self.advanced().after((steps - 1) as nat)
        }
    }

    /// Whether the application comes to this last action, with these bytes
    /// written: nothing more is asked for, or it is a read that fails.
    pub open spec fn ends_with(self, action: PatchActionModel, written: Seq<u8>) -> bool {
        exists|steps: nat|
            {
                let end = #[trigger] self.after(steps);
                end.performed() is None && end.action == action && end.written == written
            }
    }
}

/// The application of `ops` from operation `start` on, before its first action.
pub open spec fn beginning(
    basis: Seq<u8>,
    ops: Seq<OpModel>,
    block_size: u32,
    start: int,
) -> Rebuild {
    let (patch, action) = (PatchModel { ops, block_size, state: PatchState::Done }).perform_from(
        start,
        Seq::empty(),
    );
    Rebuild { patch, action, basis, written: Seq::empty() }
}

/// If the application ends as stated one action later, it does so from here.
proof fn lemma_ends_next(here: Rebuild, action: PatchActionModel, written: Seq<u8>)
    requires
        here.advanced().ends_with(action, written),
    ensures
        here.ends_with(action, written),
{
    let steps = choose|steps: nat|
        {
            let end = #[trigger] here.advanced().after(steps);
            end.performed() is None && end.action == action && end.written == written
        };
    assert(here.after(steps + 1) == here.advanced().after(steps));
}

/// Where no more is asked for, or a read fails, the application has ended.
proof fn lemma_ends_here(here: Rebuild)
    requires
        here.performed() is None,
    ensures
        here.ends_with(here.action, here.written),
{
    assert(here.after(0) == here);
}

/// The application at operation `index`, with `output` handed out and written.
spec fn at_op(
    basis: Seq<u8>,
    ops: Seq<OpModel>,
    block_size: u32,
    index: int,
    output: Seq<u8>,
) -> Rebuild {
    let (patch, action) = (PatchModel { ops, block_size, state: PatchState::Done }).perform_from(
        index,
        output,
    );
    Rebuild { patch, action, basis, written: output }
}

/// One operation that can be carried out leads to the next one.
proof fn lemma_one_op(
    basis: Seq<u8>,
    ops: Seq<OpModel>,
    block_size: u32,
    index: int,
    output: Seq<u8>,
    action: PatchActionModel,
    written: Seq<u8>,
)
    requires
        0 <= index < ops.len() <= usize::MAX,
        basis.len() <= u64::MAX,
        op_output(basis, ops[index], block_size) is Some,
        output.len() + op_output(basis, ops[index], block_size)->0.len() <= u64::MAX,
        at_op(
            basis,
            ops,
            block_size,
            index + 1,
            output + op_output(basis, ops[index], block_size)->0,
        ).ends_with(action, written),
    ensures
        at_op(basis, ops, block_size, index, output).ends_with(action, written),
{
    let here = at_op(basis, ops, block_size, index, output);
    let data = op_output(basis, ops[index], block_size)->0;
    let base = PatchModel { ops, block_size, state: PatchState::Done };
    let position = index as usize;
    let writing = Rebuild {
        patch: base.at(PatchStep::Writing { index: position }, output + data),
        action: PatchActionModel::WriteOutput(data),
        basis,
        written: output,
    };
    let next = at_op(basis, ops, block_size, index + 1, output + data);
    if index % FLUSH_INTERVAL as int == 0 {
        let flushing = Rebuild {
            patch: base.at(PatchStep::Flushing { index: position }, output + data),
            action: PatchActionModel::FlushOutput,
            basis,
            written: output + data,
        };
        assert(flushing.advanced() == next);
        lemma_ends_next(flushing, action, written);
        assert(writing.advanced() == flushing);
    } else {
        assert(writing.advanced() == next);
    }
    lemma_ends_next(writing, action, written);
    match ops[index] {
        OpModel::Copy { block_index, len } => {
            assert(0 <= block_index * block_size) by (nonlinear_arith);
            assert(here.advanced() == writing);
            lemma_ends_next(here, action, written);
        },
        OpModel::Literal { data_b64 } => {
            assert(here == writing);
        },
    }
}

/// Operations that can all be carried out lead to the one behind them.
proof fn lemma_ops(
    basis: Seq<u8>,
    ops: Seq<OpModel>,
    block_size: u32,
    index: int,
    end: int,
    output: Seq<u8>,
    action: PatchActionModel,
    written: Seq<u8>,
)
    requires
        0 <= index <= end <= ops.len() <= usize::MAX,
        basis.len() <= u64::MAX,
        rebuilt(basis, ops.subrange(index, end), block_size) is Some,
        output.len() + rebuilt(basis, ops.subrange(index, end), block_size)->0.len()
            <= u64::MAX,
        at_op(
            basis,
            ops,
            block_size,
            end,
            output + rebuilt(basis, ops.subrange(index, end), block_size)->0,
        ).ends_with(action, written),
    ensures
        at_op(basis, ops, block_size, index, output).ends_with(action, written),
    decreases end - index,
{
    let part = ops.subrange(index, end);
    if index < end {
        assert(part.skip(1) =~= ops.subrange(index + 1, end));
        let first = op_output(basis, ops[index], block_size)->0;
        let rest = rebuilt(basis, part.skip(1), block_size)->0;
        assert(output + (first + rest) =~= (output + first) + rest);
        lemma_ops(basis, ops, block_size, index + 1, end, output + first, action, written);
        lemma_one_op(basis, ops, block_size, index, output, action, written);
    } else {
        assert(part =~= Seq::empty());
        assert(output + Seq::<u8>::empty() =~= output);
    }
}

/// A plan whose operations can all be carried out is applied to the end. What
/// is written is what the operations add one after the other, from operation
/// `start` on, and the number of bytes and the digest reported are those of
/// what is written.
pub proof fn law_patch_rebuilds(
    basis: Seq<u8>,
    ops: Seq<OpModel>,
    block_size: u32,
    start: int,
    output: Seq<u8>,
)
    requires
        0 <= start,
        ops.len() <= usize::MAX,
        basis.len() <= u64::MAX,
        output.len() <= u64::MAX,
        rebuilt(basis, ops_from(ops, start), block_size) == Some(output),
    ensures
        beginning(basis, ops, block_size, start).ends_with(
            PatchActionModel::Finish {
                written: output.len() as int,
                op_count: ops.len() as int,
                digest: big_endian(md5_digest(output)),
            },
            output,
        ),
{
    let end = ops.len() as int;
    assert(Seq::<u8>::empty() + output =~= output);
    let syncing = at_op(basis, ops, block_size, end, output);
    let action = PatchActionModel::Finish {
        written: output.len() as int,
        op_count: ops.len() as int,
        digest: big_endian(md5_digest(output)),
    };
    assert(syncing.advanced().action == action);
    assert(syncing.advanced().written == output);
    lemma_ends_here(syncing.advanced());
    lemma_ends_next(syncing, action, output);
    if start <= end {
        assert(ops.skip(start) =~= ops.subrange(start, end));
        lemma_ops(basis, ops, block_size, start, end, Seq::empty(), action, output);
    }
}

/// An operation that cannot be carried out ends the application, with exactly
/// the output of the operations before it written: `action` is the last one.
proof fn lemma_stops_at(
    basis: Seq<u8>,
    ops: Seq<OpModel>,
    block_size: u32,
    start: int,
    bad: int,
    output: Seq<u8>,
    action: PatchActionModel,
)
    requires
        0 <= start <= bad < ops.len() <= usize::MAX,
        basis.len() <= u64::MAX,
        output.len() <= u64::MAX,
        rebuilt(basis, ops.subrange(start, bad), block_size) == Some(output),
        at_op(basis, ops, block_size, bad, output).performed() is None,
        at_op(basis, ops, block_size, bad, output).action == action,
    ensures
        beginning(basis, ops, block_size, start).ends_with(action, output),
{
    assert(Seq::<u8>::empty() + output =~= output);
    lemma_ends_here(at_op(basis, ops, block_size, bad, output));
    lemma_ops(basis, ops, block_size, start, bad, Seq::empty(), action, output);
}

/// A literal that is not base64 ends the application at that operation, with
/// exactly the output of the operations before it written, and what is wrong
/// with the literal is reported.
pub proof fn law_patch_stops_at_bad_literal(
    basis: Seq<u8>,
    ops: Seq<OpModel>,
    block_size: u32,
    start: int,
    bad: int,
    output: Seq<u8>,
)
    requires
        0 <= start <= bad < ops.len() <= usize::MAX,
        basis.len() <= u64::MAX,
        output.len() <= u64::MAX,
        rebuilt(basis, ops.subrange(start, bad), block_size) == Some(output),
        ops[bad] is Literal,
        op_output(basis, ops[bad], block_size) is None,
    ensures
        beginning(basis, ops, block_size, start).ends_with(
            PatchActionModel::DecodeFailed {
                op_index: bad,
                error: base64_error(ops[bad]->data_b64),
            },
            output,
        ),
{
    let action = PatchActionModel::DecodeFailed {
        op_index: bad,
        error: base64_error(ops[bad]->data_b64),
    };
    lemma_stops_at(basis, ops, block_size, start, bad, output, action);
}

/// A copy that reaches past the end of the basis file, from an offset of 64
/// bits on, ends the application at the read of that copy, with exactly the
/// output of the operations before it written.
pub proof fn law_patch_stops_at_bad_copy(
    basis: Seq<u8>,
    ops: Seq<OpModel>,
    block_size: u32,
    start: int,
    bad: int,
    output: Seq<u8>,
)
    requires
        0 <= start <= bad < ops.len() <= usize::MAX,
        basis.len() <= u64::MAX,
        output.len() <= u64::MAX,
        rebuilt(basis, ops.subrange(start, bad), block_size) == Some(output),
        ops[bad] is Copy,
        ops[bad]->block_index * block_size <= u64::MAX,
        op_output(basis, ops[bad], block_size) is None,
    ensures
        beginning(basis, ops, block_size, start).ends_with(
            PatchActionModel::ReadBasis {
                offset: (ops[bad]->block_index * block_size) as u64,
                len: ops[bad]->len,
            },
            output,
        ),
{
    let action = PatchActionModel::ReadBasis {
        offset: (ops[bad]->block_index * block_size) as u64,
        len: ops[bad]->len,
    };
    assert(0 <= ops[bad]->block_index * block_size) by (nonlinear_arith);
    lemma_stops_at(basis, ops, block_size, start, bad, output, action);
}

/// A plan can be applied in two parts: what its first operations add, followed
/// by what an application that starts behind them adds, is what the whole plan
/// adds.
pub proof fn law_patch_resumes(
    basis: Seq<u8>,
    ops: Seq<OpModel>,
    block_size: u32,
    start: int,
)
    requires
        0 <= start <= ops.len(),
    ensures
        rebuilt(basis, ops, block_size) == (match (
            rebuilt(basis, ops.take(start), block_size),
            rebuilt(basis, ops.skip(start), block_size),
        ) {
            (Some(first), Some(rest)) => Some(first + rest),
            _ => None::<Seq<u8>>,
        }),
    decreases start,
{
    if start == 0 {
        assert(ops.take(0) =~= Seq::empty());
        assert(ops.skip(0) =~= ops);
        if let Some(rest) = rebuilt(basis, ops, block_size) {
            assert(Seq::<u8>::empty() + rest =~= rest);
        }
    } else {
        law_patch_resumes(basis, ops.skip(1), block_size, start - 1);
        assert(ops.take(start).skip(1) =~= ops.skip(1).take(start - 1));
        assert(ops.skip(1).skip(start - 1) =~= ops.skip(start));
        assert(ops.take(start)[0] == ops[0]);
        let first = op_output(basis, ops[0], block_size);
        let middle = rebuilt(basis, ops.skip(1).take(start - 1), block_size);
        let rest = rebuilt(basis, ops.skip(start), block_size);
        if first is Some && middle is Some && rest is Some {
            assert(first->0 + (middle->0 + rest->0) =~= (first->0 + middle->0) + rest->0);
        }
    }
}

/// A literal carries any data: the base64 text of some bytes adds those bytes.
pub proof fn law_literal_carries_data(basis: Seq<u8>, data: Seq<u8>, block_size: u32)
    ensures
        op_output(basis, OpModel::Literal { data_b64: base64_text(data) }, block_size) == Some(
            data,
        ),
{
    law_base64_decodes_what_was_encoded(data);
}

/// A copy adds the bytes of the basis file from the start of its block on, as
/// many as it says, be it more or less than a block. It cannot be carried out
/// if it reaches past the end of the basis file.
pub proof fn law_copy_adds_a_stretch_of_the_basis(
    basis: Seq<u8>,
    block_index: u64,
    len: u32,
    block_size: u32,
    j: int,
)
    requires
        basis.len() <= u64::MAX,
        0 <= j < len,
    ensures
        ({
            let offset = block_index * block_size;
            let added = op_output(basis, OpModel::Copy { block_index, len }, block_size);
            &&& offset + len <= basis.len() ==> added is Some && added->0.len() == len
                && added->0[j] == basis[offset + j]
            &&& offset + len > basis.len() ==> added is None
        }),
{
    assert(0 <= block_index * block_size) by (nonlinear_arith);
}

/// A literal adds only data that it is the base64 text of, and nothing else can
/// be carried out.
pub proof fn law_literal_adds_only_what_it_encodes(
    basis: Seq<u8>,
    text: Seq<char>,
    block_size: u32,
)
    ensures
        op_output(basis, OpModel::Literal { data_b64: text }, block_size) matches Some(data)
            ==> base64_text(data) == text,
        op_output(basis, OpModel::Literal { data_b64: text }, block_size) is None ==> forall|
            data: Seq<u8>,
        | #[trigger] base64_text(data) != text,
{
}

/// Whether `piece` is what `op` is to add: the bytes of the basis file from the
/// start of its block on, or the data that its text encodes.
pub open spec fn is_piece(basis: Seq<u8>, op: OpModel, block_size: u32, piece: Seq<u8>) -> bool {
    match op {
        OpModel::Copy { block_index, len } => {
            &&& block_index * block_size <= u64::MAX
            &&& piece.len() == len
            &&& len > 0 ==> block_index * block_size + len <= basis.len()
            &&& forall|j: int|
                0 <= j < piece.len() ==> #[trigger] piece[j] == basis[block_index * block_size + j]
        },
        OpModel::Literal { data_b64 } => base64_text(piece) == data_b64,
    }
}

/// A plan whose operations add `pieces`, one each from operation `start` on,
/// writes these pieces one after the other and nothing else. The number of
/// bytes and the digest reported are those of all pieces together, and the
/// number of operations is that of the whole plan.
pub proof fn law_plan_writes_its_pieces(
    basis: Seq<u8>,
    ops: Seq<OpModel>,
    block_size: u32,
    start: int,
    pieces: Seq<Seq<u8>>,
)
    requires
        0 <= start,
        ops.len() <= usize::MAX,
        basis.len() <= u64::MAX,
        pieces.flatten().len() <= u64::MAX,
        pieces.len() == (if start <= ops.len() {
            ops.len() - start
        } else {
            0
        }),
        forall|k: int|
            0 <= k < pieces.len() ==> is_piece(
                basis,
                ops[start + k],
                block_size,
                #[trigger] pieces[k],
            ),
    ensures
        beginning(basis, ops, block_size, start).ends_with(
            PatchActionModel::Finish {
                written: pieces.flatten().len() as int,
                op_count: ops.len() as int,
                digest: big_endian(md5_digest(pieces.flatten())),
            },
            pieces.flatten(),
        ),
{
    let todo = ops_from(ops, start);
    assert forall|k: int| 0 <= k < pieces.len() implies is_piece(
        basis,
        todo[k],
        block_size,
        #[trigger] pieces[k],
    ) by {
        assert(todo[k] == ops[start + k]);
    }
    lemma_pieces(basis, todo, block_size, pieces);
    law_patch_rebuilds(basis, ops, block_size, start, pieces.flatten());
}

/// The pieces of a list of operations are what they rebuild.
proof fn lemma_pieces(
    basis: Seq<u8>,
    ops: Seq<OpModel>,
    block_size: u32,
    pieces: Seq<Seq<u8>>,
)
    requires
        pieces.len() == ops.len(),
        forall|k: int|
            0 <= k < pieces.len() ==> is_piece(basis, ops[k], block_size, #[trigger] pieces[k]),
    ensures
        rebuilt(basis, ops, block_size) == Some(pieces.flatten()),
    decreases ops.len(),
{
    if ops.len() > 0 {
        let first = pieces[0];
        assert(is_piece(basis, ops[0], block_size, first));
        match ops[0] {
            OpModel::Copy { block_index, len } => {
                let offset = block_index * block_size;
                assert(0 <= offset) by (nonlinear_arith)
                    requires
                        offset == block_index * block_size,
                ;
                if len > 0 {
                    assert(basis.subrange(offset, offset + len) =~= first);
                } else {
                    assert(first =~= Seq::empty());
                }
            },
            OpModel::Literal { data_b64 } => {
                law_base64_decodes_what_was_encoded(first);
            },
        }
        let rest = ops.skip(1);
        let more = pieces.skip(1);
        assert forall|k: int| 0 <= k < more.len() implies is_piece(
            basis,
            rest[k],
            block_size,
            #[trigger] more[k],
        ) by {
            assert(more[k] == pieces[k + 1]);
        }
        lemma_pieces(basis, rest, block_size, more);
        assert(pieces.drop_first() =~= more);
        assert(pieces.flatten() == first + more.flatten());
    } else {
        assert(pieces.flatten() =~= Seq::empty());
    }
}

} // verus!
