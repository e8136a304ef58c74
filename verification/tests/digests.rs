//! Content digests and numerals.
use prsync::hashing::{format_digest, hash_bytes, FileHasher};
use prsync::numerals::{parse_bool, parse_u64, parse_usize};

#[test]
fn digest_is_stable() {
    let digest = hash_bytes(b"abc");
    assert_eq!(format_digest(digest), "06b05ab6733a618578af5f94892f3950");
}

#[test]
fn digest_ignores_piece_boundaries() {
    let data: Vec<u8> = (0..5000u32).map(|i| (i * 31 % 251) as u8).collect();
    for size in [1, 7, 240, 256, 1024, 4999] {
        let mut hasher = FileHasher::new();
        for piece in data.chunks(size) {
            hasher.update(piece);
        }
        assert_eq!(hasher.digest(), hash_bytes(&data));
    }
    assert_eq!(FileHasher::new().digest(), hash_bytes(b""));
    assert_ne!(hash_bytes(b"abc"), hash_bytes(b"abd"));
}

#[test]
fn digest_agrees_with_xxh3() {
    let data = vec![7u8; 3000];
    assert_eq!(hash_bytes(&data), xxhash_rust::xxh3::xxh3_128(&data));
}

#[test]
fn formatted_digest_has_full_width() {
    assert_eq!(format_digest(0), "00000000000000000000000000000000");
    assert_eq!(format_digest(0xabc), "00000000000000000000000000000abc");
    assert_eq!(format_digest(u128::MAX), "ffffffffffffffffffffffffffffffff");
}

#[test]
fn numbers_are_read_as_std_reads_them() {
    for text in [
        "0", "5", "+5", "007", "", "+", "-1", "-0", " 5", "5 ", "1_000", "0x10", "++1",
        "18446744073709551615", "18446744073709551616", "99999999999999999999999", "\u{0665}",
    ] {
        assert_eq!(parse_u64(text), text.parse::<u64>().ok());
        assert_eq!(parse_usize(text), text.parse::<usize>().ok());
    }
    assert_eq!(parse_u64("18446744073709551615"), Some(u64::MAX));
    assert_eq!(parse_u64("+007"), Some(7));
    assert_eq!(parse_usize("9"), Some(9));
}

#[test]
fn flags_are_read_as_std_reads_them() {
    for text in ["true", "false", "TRUE", "True", "1", "0", "", "true ", "yes"] {
        assert_eq!(parse_bool(text), text.parse::<bool>().ok());
    }
    assert_eq!(parse_bool("true"), Some(true));
    assert_eq!(parse_bool("false"), Some(false));
}
