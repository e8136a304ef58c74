//! Blocks and block-level transfers, against a remote file and a local file
//! held in memory.
use prsync::block_delta::blocks::{
    block_range, count_blocks, format_block_hash, hash_block, BlockRange, DEFAULT_BLOCK_SIZE,
    DEFAULT_DELTA_MIN_SIZE,
};
use prsync::block_delta::machine::{
    transfer_block_delta, BlockDeltaResult, BlockTransfer, TransferAction, TransferEvent,
};
use prsync::state::StateStore;

const PATH: &str = "big/file.bin";

fn hash_local_block(contents: &[u8], block_index: u64, block_size: u32) -> String {
    let range = block_range(contents.len() as u64, block_index, block_size);
    hash_block(&contents[range.offset as usize..(range.offset + range.len) as usize])
}

#[test]
fn hash_local_block_works() {
    let data = vec![0xABu8; 1024];
    let hash = hash_local_block(&data, 0, 1024);
    let expected = blake3::hash(&data).to_hex().to_string();
    assert_eq!(hash, expected);
}

#[test]
fn hash_local_block_partial_last() {
    // 1500 bytes with block_size 1024: block 0 is 1024, block 1 is 476
    let data = vec![0x42u8; 1500];

    let hash0 = hash_local_block(&data, 0, 1024);
    let hash1 = hash_local_block(&data, 1, 1024);

    assert_eq!(hash0, blake3::hash(&data[..1024]).to_hex().to_string());
    assert_eq!(hash1, blake3::hash(&data[1024..]).to_hex().to_string());
}

#[test]
fn empty_block_has_the_known_digest() {
    assert_eq!(
        hash_block(b""),
        "af1349b9f5f9a1a6a0404dea36dcc9499bcb25c9adc112b7cc9a93cae41f3262"
    );
}

#[test]
fn block_hash_is_lowercase_hexadecimal() {
    let mut hash = [0u8; 32];
    hash[0] = 0xA5;
    hash[31] = 0x0F;
    let text = format_block_hash(hash);
    assert_eq!(text.len(), 64);
    assert!(text.starts_with("a500"));
    assert!(text.ends_with("000f"));
}

#[test]
fn blocks_cover_the_file() {
    assert_eq!(DEFAULT_BLOCK_SIZE, 5242880);
    assert_eq!(DEFAULT_DELTA_MIN_SIZE, 104857600);
    assert_eq!(count_blocks(0, 1024), 0);
    assert_eq!(count_blocks(1, 1024), 1);
    assert_eq!(count_blocks(1024, 1024), 1);
    assert_eq!(count_blocks(1025, 1024), 2);
    assert_eq!(count_blocks(u64::MAX, 1), u64::MAX);
    assert_eq!(
        block_range(1500, 1, 1024),
        BlockRange { block_index: 1, offset: 1024, len: 476 }
    );
    assert_eq!(
        block_range(1500, 2, 1024),
        BlockRange { block_index: 2, offset: 2048, len: 0 }
    );
}

/// How a driven transfer ended.
#[derive(Debug, PartialEq)]
enum End {
    Finished(BlockDeltaResult),
    FetchFailed(usize),
    Rejected,
}

/// Drives a transfer to its end; reads at the offset `broken` fail. The actions
/// are logged one letter each.
fn run(
    remote: &[u8],
    local: &mut Option<Vec<u8>>,
    store: &mut StateStore,
    block_size: u32,
    min_size: u64,
    broken: Option<u64>,
    log: &mut String,
) -> End {
    let (mut transfer, mut action) = BlockTransfer::new(block_size, min_size);
    loop {
        let event = match action {
            TransferAction::StatRemote => {
                log.push('r');
                TransferEvent::RemoteSize(remote.len() as u64)
            }
            TransferAction::StatLocal => {
                log.push('l');
                TransferEvent::LocalSize(local.as_ref().map(|contents| contents.len() as u64))
            }
            TransferAction::ClearBlocks => {
                log.push('x');
                store.clear_blocks(PATH);
                TransferEvent::Cleared
            }
            TransferAction::HashBlocks { total_blocks } => {
                log.push('h');
                let contents = local.as_ref().unwrap();
                TransferEvent::LocalHashes(
                    (0..total_blocks)
                        .map(|i| hash_local_block(contents, i, block_size))
                        .collect(),
                )
            }
            TransferAction::CheckBlock { block_index, hash } => {
                log.push('c');
                TransferEvent::BlockMatch(store.block_matches(PATH, block_index, &hash))
            }
            TransferAction::FetchBlocks(ranges) => {
                log.push('f');
                TransferEvent::Fetched(
                    ranges
                        .iter()
                        .map(|range| {
                            if broken == Some(range.offset) {
                                None
                            } else {
                                let start = range.offset as usize;
                                Some(remote[start..start + range.len as usize].to_vec())
                            }
                        })
                        .collect(),
                )
            }
            TransferAction::OpenLocal => {
                log.push('o');
                TransferEvent::Opened
            }
            TransferAction::WriteBlock { offset, data } => {
                log.push('w');
                let start = offset as usize;
                local.as_mut().unwrap()[start..start + data.len()].copy_from_slice(&data);
                TransferEvent::Written
            }
            TransferAction::FetchFailed { position } => return End::FetchFailed(position),
            TransferAction::Flush => {
                log.push('u');
                TransferEvent::Flushed
            }
            TransferAction::RehashBlock { block_index } => {
                log.push('d');
                TransferEvent::Rehashed(hash_local_block(
                    local.as_ref().unwrap(),
                    block_index,
                    block_size,
                ))
            }
            TransferAction::StoreBlock { block_index, hash, block_size, etag } => {
                log.push('s');
                store.upsert_block(PATH, block_index, &hash, block_size, &etag);
                TransferEvent::Stored
            }
            TransferAction::Finish(result) => return End::Finished(result),
            TransferAction::Rejected => return End::Rejected,
        };
        let next = transfer_block_delta(transfer, event);
        transfer = next.0;
        action = next.1;
    }
}

fn file(len: usize) -> Vec<u8> {
    (0..len).map(|i| (i * 7 % 253) as u8).collect()
}

/// A store that remembers every block of `contents` as it is.
fn remembering(contents: &[u8], block_size: u32) -> StateStore {
    let mut store = StateStore::load(Vec::new());
    for i in 0..count_blocks(contents.len() as u64, block_size) {
        store.upsert_block(PATH, i, &hash_local_block(contents, i, block_size), block_size, "");
    }
    store
}

#[test]
fn small_file_is_left_to_the_caller() {
    let remote = file(99);
    let mut local = Some(remote.clone());
    let mut store = StateStore::load(Vec::new());
    let mut log = String::new();
    let end = run(&remote, &mut local, &mut store, 10, 100, None, &mut log);
    assert_eq!(end, End::Finished(BlockDeltaResult::TooSmall));
    assert_eq!(log, "r");
}

#[test]
fn missing_local_file_is_downloaded_in_full() {
    let remote = file(100);
    let mut local = None;
    let mut store = remembering(&remote, 10);
    let mut log = String::new();
    let end = run(&remote, &mut local, &mut store, 10, 100, None, &mut log);
    assert_eq!(end, End::Finished(BlockDeltaResult::FullDownload));
    assert_eq!(log, "rl");
    assert_eq!(store.rows().len(), 10);
}

#[test]
fn other_size_is_downloaded_in_full_and_forgotten() {
    let remote = file(100);
    let mut local = Some(file(101));
    let mut store = remembering(&remote, 10);
    let mut log = String::new();
    let end = run(&remote, &mut local, &mut store, 10, 100, None, &mut log);
    assert_eq!(end, End::Finished(BlockDeltaResult::FullDownload));
    assert_eq!(log, "rlx");
    assert_eq!(store.rows().len(), 0);
}

#[test]
fn first_transfer_is_full() {
    let remote = file(100);
    let mut local = Some(remote.clone());
    let mut store = StateStore::load(Vec::new());
    let mut log = String::new();
    let end = run(&remote, &mut local, &mut store, 10, 0, None, &mut log);
    assert_eq!(end, End::Finished(BlockDeltaResult::FullDownload));
    assert_eq!(log, "rlhccccccccccx");
}

#[test]
fn unchanged_file_is_skipped() {
    let remote = file(95);
    let mut local = Some(remote.clone());
    let mut store = remembering(&remote, 10);
    let mut log = String::new();
    let end = run(&remote, &mut local, &mut store, 10, 0, None, &mut log);
    assert_eq!(
        end,
        End::Finished(BlockDeltaResult::Partial {
            blocks_downloaded: 0,
            blocks_skipped: 10,
            bytes_downloaded: 0,
        })
    );
    assert_eq!(log, "rlhcccccccccc");
}

#[test]
fn only_changed_blocks_are_fetched() {
    let remote = file(95);
    let mut store = remembering(&remote, 10);
    let mut damaged = remote.clone();
    damaged[3] ^= 1;
    damaged[94] ^= 1;
    let mut local = Some(damaged);
    let mut log = String::new();
    let end = run(&remote, &mut local, &mut store, 10, 0, None, &mut log);
    assert_eq!(
        end,
        End::Finished(BlockDeltaResult::Partial {
            blocks_downloaded: 2,
            blocks_skipped: 8,
            bytes_downloaded: 15,
        })
    );
    assert_eq!(log, "rlhccccccccccfowwudsssssssssds");
    assert_eq!(local, Some(remote.clone()));

    // The same transfer again finds nothing to do.
    let again = run(&remote, &mut local, &mut store, 10, 0, None, &mut log);
    assert_eq!(
        again,
        End::Finished(BlockDeltaResult::Partial {
            blocks_downloaded: 0,
            blocks_skipped: 10,
            bytes_downloaded: 0,
        })
    );
    assert_eq!(local, Some(remote));
}

#[test]
fn current_blocks_keep_their_bytes() {
    // Block 0 is as remembered but not as the remote file has it: it stays.
    let remote = file(40);
    let mut kept = remote.clone();
    kept[0] ^= 1;
    let mut store = remembering(&kept, 10);
    let mut local = Some(kept.clone());
    local.as_mut().unwrap()[15] ^= 1;
    let end = run(&remote, &mut local, &mut store, 10, 0, None, &mut String::new());
    assert_eq!(
        end,
        End::Finished(BlockDeltaResult::Partial {
            blocks_downloaded: 1,
            blocks_skipped: 3,
            bytes_downloaded: 10,
        })
    );
    assert_eq!(local, Some(kept));
}

#[test]
fn seventy_percent_changed_is_not_too_dense() {
    let remote = file(100);
    for (changed, partial) in [(7usize, true), (8usize, false)] {
        let mut store = remembering(&remote, 10);
        let mut damaged = remote.clone();
        for block in 0..changed {
            damaged[block * 10] ^= 1;
        }
        let mut local = Some(damaged.clone());
        let end = run(&remote, &mut local, &mut store, 10, 0, None, &mut String::new());
        if partial {
            assert_eq!(
                end,
                End::Finished(BlockDeltaResult::Partial {
                    blocks_downloaded: 7,
                    blocks_skipped: 3,
                    bytes_downloaded: 70,
                })
            );
            assert_eq!(local, Some(remote.clone()));
        } else {
            assert_eq!(end, End::Finished(BlockDeltaResult::FullDownload));
            assert_eq!(local, Some(damaged));
            assert_eq!(store.rows().len(), 0);
        }
    }
}

#[test]
fn density_agrees_with_the_fraction() {
    for total in 1u64..60 {
        for changed in 1..=total {
            let (transfer, _) = BlockTransfer::new(1, 0);
            let (transfer, _) = transfer_block_delta(transfer, TransferEvent::RemoteSize(total));
            let (transfer, _) =
                transfer_block_delta(transfer, TransferEvent::LocalSize(Some(total)));
            let hashes = vec![String::new(); total as usize];
            let (mut transfer, mut action) =
                transfer_block_delta(transfer, TransferEvent::LocalHashes(hashes));
            for block in 0..total {
                assert!(matches!(action, TransferAction::CheckBlock { .. }));
                let next =
                    transfer_block_delta(transfer, TransferEvent::BlockMatch(block >= changed));
                transfer = next.0;
                action = next.1;
            }
            let dense = changed as f64 / total as f64 > 0.70;
            assert_eq!(matches!(action, TransferAction::ClearBlocks), dense);
            assert_eq!(matches!(action, TransferAction::FetchBlocks(_)), !dense);
        }
    }
}

#[test]
fn failed_read_ends_the_transfer_after_the_earlier_writes() {
    let remote = file(100);
    let mut store = remembering(&remote, 10);
    let mut damaged = remote.clone();
    damaged[0] ^= 1;
    damaged[50] ^= 1;
    damaged[90] ^= 1;
    let mut local = Some(damaged.clone());
    let mut log = String::new();
    let end = run(&remote, &mut local, &mut store, 10, 0, Some(50), &mut log);
    assert_eq!(end, End::FetchFailed(1));
    assert_eq!(log, "rlhccccccccccfow");
    damaged[0] ^= 1;
    assert_eq!(local, Some(damaged));
    assert_eq!(store.rows().len(), 10);
    for block in 0..10 {
        assert!(store.block_matches(PATH, block, &hash_local_block(&remote, block, 10)));
    }
}

#[test]
fn answers_that_do_not_fit_are_rejected() {
    let (transfer, _) = BlockTransfer::new(10, 0);
    let (transfer, action) = transfer_block_delta(transfer, TransferEvent::Flushed);
    assert!(matches!(action, TransferAction::Rejected));
    let (transfer, _) = transfer_block_delta(transfer, TransferEvent::RemoteSize(20));
    let (transfer, _) = transfer_block_delta(transfer, TransferEvent::LocalSize(Some(20)));
    let (transfer, action) =
        transfer_block_delta(transfer, TransferEvent::LocalHashes(vec![String::new()]));
    assert!(matches!(action, TransferAction::Rejected));
    let hashes = vec!["a".to_string(), "b".to_string()];
    let (transfer, action) = transfer_block_delta(transfer, TransferEvent::LocalHashes(hashes));
    match action {
        TransferAction::CheckBlock { block_index, hash } => {
            assert_eq!(block_index, 0);
            assert_eq!(hash, "a");
        }
        _ => panic!("expected a lookup"),
    }
    let (transfer, _) = transfer_block_delta(transfer, TransferEvent::BlockMatch(false));
    let (transfer, action) = transfer_block_delta(transfer, TransferEvent::BlockMatch(true));
    match action {
        TransferAction::FetchBlocks(ranges) => {
            assert_eq!(ranges, vec![BlockRange { block_index: 0, offset: 0, len: 10 }]);
        }
        _ => panic!("expected reads"),
    }
    let (_, action) = transfer_block_delta(transfer, TransferEvent::Fetched(Vec::new()));
    assert!(matches!(action, TransferAction::Rejected));
}

#[test]
fn blocks_of_no_bytes_are_rejected() {
    let remote = file(10);
    let mut local = Some(remote.clone());
    let mut store = StateStore::load(Vec::new());
    let end = run(&remote, &mut local, &mut store, 0, 0, None, &mut String::new());
    assert_eq!(end, End::Rejected);
}

#[test]
fn finished_transfer_stays_finished() {
    let (transfer, _) = BlockTransfer::new(10, 100);
    let (transfer, action) = transfer_block_delta(transfer, TransferEvent::RemoteSize(1));
    assert!(matches!(action, TransferAction::Finish(BlockDeltaResult::TooSmall)));
    let (transfer, action) = transfer_block_delta(transfer, TransferEvent::RemoteSize(1000));
    assert!(matches!(action, TransferAction::Rejected));
    let (_, action) = transfer_block_delta(transfer, TransferEvent::Stored);
    assert!(matches!(action, TransferAction::Rejected));
}

#[test]
fn empty_file_needs_nothing() {
    let mut local = Some(Vec::new());
    let mut store = StateStore::load(Vec::new());
    let end = run(&[], &mut local, &mut store, 10, 0, None, &mut String::new());
    assert_eq!(
        end,
        End::Finished(BlockDeltaResult::Partial {
            blocks_downloaded: 0,
            blocks_skipped: 0,
            bytes_downloaded: 0,
        })
    );
}
