//! The operations of a delta plan.
use vstd::prelude::*;

verus! {

/// One operation of a delta plan: it adds to the end of the file being rebuilt.
#[derive(Debug)]
pub enum DeltaOp {
    /// `len` bytes of the basis file, from the start of block `block_index` on.
    Copy { block_index: u64, len: u32 },
    /// The bytes that `data_b64` encodes.
    Literal { data_b64: String },
}

/// `DeltaOp` as mathematical values.
pub enum OpModel {
    Copy { block_index: u64, len: u32 },
    Literal { data_b64: Seq<char> },
}

impl View for DeltaOp {
    type V = OpModel;

    open spec fn view(&self) -> OpModel {
        match self {
            DeltaOp::Copy { block_index, len } => OpModel::Copy {
                block_index: *block_index,
                len: *len,
            },
            DeltaOp::Literal { data_b64 } => OpModel::Literal { data_b64: data_b64@ },
        }
    }
}

/// The model of an operation holds all of its fields, unchanged.
pub proof fn law_operation_is_seen_in_full(op: DeltaOp)
    ensures
        op matches DeltaOp::Copy { block_index, len } ==> op@ == (OpModel::Copy {
            block_index,
            len,
        }),
        op matches DeltaOp::Literal { data_b64 } ==> op@ == (OpModel::Literal {
            data_b64: data_b64@,
        }),
{
}

} // verus!
