//! Delta plans, applied to a basis file held in memory.
use base64::engine::general_purpose::STANDARD;
use base64::Engine;
use prsync::delta::base64_text::decode_base64;
use prsync::delta::patch::{apply_delta_ops, digest_number, DeltaPatch, PatchAction, PatchEvent};
use prsync::delta::protocol::DeltaOp;

fn literal(data_b64: &str) -> DeltaOp {
    DeltaOp::Literal { data_b64: data_b64.to_string() }
}

/// Applies a plan to the end: what was written, at which lengths of it the
/// output was flushed, whether it was synced, and the last action.
fn apply(
    basis: &[u8],
    ops: &Vec<DeltaOp>,
    block_size: u32,
    start_op_index: usize,
) -> (Vec<u8>, Vec<usize>, bool, PatchAction) {
    let mut output = Vec::new();
    let mut flushes = Vec::new();
    let mut synced = false;
    let (mut patch, mut action) = DeltaPatch::new(ops, block_size, start_op_index);
    loop {
        let event = match action {
            PatchAction::ReadBasis { offset, len } => {
                let start = offset as usize;
                PatchEvent::BasisRead(basis[start..start + len as usize].to_vec())
            }
            PatchAction::WriteOutput(data) => {
                output.extend_from_slice(&data);
                PatchEvent::Written
            }
            PatchAction::FlushOutput => {
                flushes.push(output.len());
                PatchEvent::Flushed
            }
            PatchAction::SyncOutput => {
                synced = true;
                PatchEvent::Synced
            }
            last => return (output, flushes, synced, last),
        };
        let next = apply_delta_ops(patch, event);
        patch = next.0;
        action = next.1;
    }
}

fn finish(action: PatchAction) -> (u64, usize, u128) {
    match action {
        PatchAction::Finish { written, op_count, digest } => (written, op_count, digest),
        other => panic!("expected the end of the plan, got {:?}", other),
    }
}

#[test]
fn literal_is_written_and_digested() {
    let ops = vec![literal("YWJj")];
    let (output, flushes, synced, last) = apply(b"", &ops, 4, 0);
    assert_eq!(output, b"abc");
    assert_eq!(flushes, vec![3]);
    assert!(synced);
    assert_eq!(finish(last), (3, 1, 0x900150983cd24fb0d6963f7d28e17f72));
}

#[test]
fn empty_plan_makes_an_empty_file() {
    let (output, flushes, synced, last) = apply(b"basis", &Vec::new(), 4, 0);
    assert!(output.is_empty());
    assert!(flushes.is_empty());
    assert!(synced);
    assert_eq!(finish(last), (0, 0, 0xd41d8cd98f00b204e9800998ecf8427e));
}

#[test]
fn plan_rebuilds_the_file() {
    let basis = b"0123456789abcdef";
    let ops = vec![
        DeltaOp::Copy { block_index: 2, len: 4 },
        literal("LS0="),
        DeltaOp::Copy { block_index: 0, len: 8 },
        literal(""),
        DeltaOp::Copy { block_index: 3, len: 1 },
    ];
    let (output, _, _, last) = apply(basis, &ops, 4, 0);
    assert_eq!(output, b"89ab--01234567c");
    let digest = u128::from_be_bytes(md5::compute(b"89ab--01234567c").0);
    assert_eq!(finish(last), (15, 5, digest));
}

#[test]
fn plan_resumes_behind_its_first_operations() {
    let basis = b"0123456789abcdef";
    let ops = vec![
        DeltaOp::Copy { block_index: 2, len: 4 },
        literal("LS0="),
        DeltaOp::Copy { block_index: 0, len: 8 },
    ];
    let whole = apply(basis, &ops, 4, 0).0;
    for start in 0..=4usize {
        let (rest, _, _, last) = apply(basis, &ops, 4, start);
        assert_eq!(rest, whole[[0, 4, 6, 14, 14][start]..]);
        let (written, op_count, digest) = finish(last);
        assert_eq!(written, rest.len() as u64);
        assert_eq!(op_count, 3);
        assert_eq!(digest, u128::from_be_bytes(md5::compute(&rest).0));
    }
}

#[test]
fn output_is_flushed_every_so_often() {
    let ops: Vec<DeltaOp> = (0..300).map(|_| literal("eA==")).collect();
    let (output, flushes, _, _) = apply(b"", &ops, 4, 0);
    assert_eq!(output.len(), 300);
    assert_eq!(flushes, vec![1, 129, 257]);
    let (_, flushes, _, _) = apply(b"", &ops, 4, 100);
    assert_eq!(flushes, vec![29, 157]);
}

#[test]
fn bad_literal_ends_the_plan() {
    for bad in ["YWJ", "YWJj=", "YW Jj", "YWJ-", "YR==", "====", "YWJjZ"] {
        let ops = vec![literal("YWJj"), literal(bad), literal("YWJj")];
        let (output, _, synced, last) = apply(b"", &ops, 4, 0);
        assert_eq!(output, b"abc");
        assert!(!synced);
        match last {
            PatchAction::DecodeFailed { op_index, error } => {
                assert_eq!(op_index, 1);
                assert_eq!(Err(error), STANDARD.decode(bad));
            }
            other => panic!("expected a failure, got {:?}", other),
        }
    }
}

#[test]
fn answers_that_do_not_fit_the_plan_are_rejected() {
    let ops = vec![DeltaOp::Copy { block_index: 1, len: 2 }];
    let (patch, action) = DeltaPatch::new(&ops, 4, 0);
    assert!(matches!(action, PatchAction::ReadBasis { offset: 4, len: 2 }));
    let (patch, action) = apply_delta_ops(patch, PatchEvent::Written);
    assert!(matches!(action, PatchAction::Rejected));
    let (patch, action) = apply_delta_ops(patch, PatchEvent::BasisRead(vec![1]));
    assert!(matches!(action, PatchAction::Rejected));
    let (_, action) = apply_delta_ops(patch, PatchEvent::BasisRead(vec![1, 2]));
    assert!(matches!(action, PatchAction::WriteOutput(_)));
}

#[test]
fn offset_out_of_range_is_rejected() {
    let ops = vec![DeltaOp::Copy { block_index: u64::MAX, len: 2 }];
    let (_, action) = DeltaPatch::new(&ops, 4, 0);
    assert!(matches!(action, PatchAction::Rejected));
}

#[test]
fn base64_is_decoded() {
    assert_eq!(decode_base64("").unwrap(), b"");
    assert_eq!(decode_base64("Zg==").unwrap(), b"f");
    assert_eq!(decode_base64("Zm8=").unwrap(), b"fo");
    assert_eq!(decode_base64("Zm9v").unwrap(), b"foo");
    assert_eq!(decode_base64("Zm9vYmFy").unwrap(), b"foobar");
    assert_eq!(decode_base64("+/8=").unwrap(), vec![0xfb, 0xff]);
    assert!(decode_base64("Zg").is_err());
    assert!(decode_base64("Zh==").is_err());
    assert!(decode_base64("Zm9v\n").is_err());
    assert!(decode_base64("-_8=").is_err());
}

#[test]
fn digest_number_has_the_highest_byte_first() {
    let mut digest = [0u8; 16];
    digest[15] = 1;
    assert_eq!(digest_number(digest), 1);
    digest[14] = 2;
    assert_eq!(digest_number(digest), 513);
    digest[0] = 0xff;
    assert_eq!(digest_number(digest), u128::from_be_bytes(digest));
    assert_eq!(digest_number([0xff; 16]), u128::MAX);
}

#[test]
fn copy_of_nothing_adds_nothing() {
    let ops = vec![DeltaOp::Copy { block_index: 9, len: 0 }];
    let (patch, action) = DeltaPatch::new(&ops, 4, 0);
    assert!(matches!(action, PatchAction::ReadBasis { offset: 36, len: 0 }));
    let (_, action) = apply_delta_ops(patch, PatchEvent::BasisRead(Vec::new()));
    match action {
        PatchAction::WriteOutput(data) => assert!(data.is_empty()),
        other => panic!("expected a write, got {:?}", other),
    }
}

#[test]
fn copy_past_the_basis_stops_at_its_read() {
    let basis = b"01234567";
    let ops = vec![
        DeltaOp::Copy { block_index: 1, len: 4 },
        DeltaOp::Copy { block_index: 1, len: 5 },
        literal("YWJj"),
    ];
    let mut output = Vec::new();
    let (mut patch, mut action) = DeltaPatch::new(&ops, 4, 0);
    loop {
        let event = match action {
            PatchAction::ReadBasis { offset, len } => {
                let start = offset as usize;
                match basis.get(start..start + len as usize) {
                    Some(data) => PatchEvent::BasisRead(data.to_vec()),
                    None => {
                        assert_eq!((offset, len), (4, 5));
                        break;
                    }
                }
            }
            PatchAction::WriteOutput(data) => {
                output.extend_from_slice(&data);
                PatchEvent::Written
            }
            PatchAction::FlushOutput => PatchEvent::Flushed,
            other => panic!("expected the read to fail, got {:?}", other),
        };
        (patch, action) = apply_delta_ops(patch, event);
    }
    assert_eq!(output, b"4567");
}
