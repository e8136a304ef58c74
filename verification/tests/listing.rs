//! Keys, listings and requests of S3 sources.
use prsync::remote::{EntryKind, RemoteEntry, S3Spec};
use prsync::s3::{ListPage, ListedObject, Listing, S3Error, S3Remote};

fn remote(prefix: &str) -> S3Remote {
    S3Remote {
        bucket: "bucket".to_string(),
        prefix: prefix.to_string(),
        prefix_trailing_star: false,
    }
}

fn spec(endpoint_url: Option<&str>) -> S3Spec {
    S3Spec {
        bucket: "bucket".to_string(),
        prefix: "data".to_string(),
        prefix_trailing_star: true,
        region: None,
        endpoint_url: endpoint_url.map(|url| url.to_string()),
        profile: None,
    }
}

fn object(key: &str, size: Option<i64>, secs: Option<i64>) -> ListedObject {
    ListedObject { key: Some(key.to_string()), size, last_modified_secs: secs }
}

fn page(objects: Vec<ListedObject>, prefixes: &[&str], token: Option<&str>) -> ListPage {
    ListPage {
        objects,
        common_prefixes: prefixes.iter().map(|p| Some(p.to_string())).collect(),
        is_truncated: Some(token.is_some()),
        next_continuation_token: token.map(|t| t.to_string()),
    }
}

#[test]
fn connects_to_an_accessible_bucket() {
    let remote = S3Remote::connect(spec(None), true).unwrap();
    assert_eq!(remote.bucket, "bucket");
    assert_eq!(remote.prefix, "data");
    assert!(remote.prefix_trailing_star);
    assert!(remote.supports_block_delta());
}

#[test]
fn inaccessible_bucket_is_told() {
    let error = S3Remote::connect(spec(None), false).unwrap_err();
    assert!(matches!(&error, S3Error::BucketNotAccessible { bucket } if bucket == "bucket"));
    assert_eq!(error.message(), "S3 bucket 'bucket' is not accessible");
}

#[test]
fn own_endpoint_has_buckets_in_the_path() {
    assert!(!spec(None).force_path_style());
    assert!(spec(Some("http://localhost:9000")).force_path_style());
}

#[test]
fn keys_and_paths_lead_back_to_each_other() {
    for prefix in ["", "data", "data/sub", "d\u{e4}ta"] {
        let remote = remote(prefix);
        for path in ["a", "a/b.txt", "\u{65e5}\u{672c}"] {
            let key = remote.full_key(path);
            assert_eq!(remote.relative_path(&key), path);
            assert_eq!(remote.full_key(&remote.relative_path(&key)), key);
        }
    }
    assert_eq!(remote("data").listing_prefix(), "data/");
    assert_eq!(remote("").listing_prefix(), "");
    assert_eq!(remote("data").full_key("a/b"), "data/a/b");
    assert_eq!(remote("").full_key("a/b"), "a/b");
    assert_eq!(remote("data").relative_path("database/x"), "database/x");
}

#[test]
fn flat_listing_asks_for_folded_directories() {
    let mut listing = Listing::new();
    let request = remote("data").list_request(false, &listing);
    assert_eq!(request.bucket, "bucket");
    assert_eq!(request.prefix, "data/");
    assert_eq!(request.delimiter.as_deref(), Some("/"));
    assert_eq!(request.continuation_token, None);
    listing.continuation_token = Some("next".to_string());
    let request = remote("data").list_request(true, &listing);
    assert_eq!(request.delimiter, None);
    assert_eq!(request.continuation_token.as_deref(), Some("next"));
}

#[test]
fn flat_listing_has_files_and_then_directories() {
    let remote = remote("data");
    let mut listing = Listing::new();
    let found = remote.list_entries_with_progress(
        false,
        &mut listing,
        page(
            vec![
                object("data/", Some(0), None),
                object("data/a.txt", Some(5), Some(1700000000)),
                object("data/sub/", Some(0), None),
                object("elsewhere", None, None),
            ],
            &["data/sub/", "data/more//", "///"],
            None,
        ),
    );
    assert_eq!(found, 4);
    assert!(listing.done);
    let paths: Vec<&str> =
        listing.entries.iter().map(|entry| entry.relative_path.as_str()).collect();
    assert_eq!(paths, vec!["a.txt", "elsewhere", "sub", "more"]);

    let file = &listing.entries[0];
    assert_eq!(file.kind, EntryKind::File);
    assert_eq!(file.size, 5);
    assert_eq!(file.mtime_secs, 1700000000);
    assert_eq!(file.mode, 0o644);
    assert_eq!((file.uid, file.gid), (None, None));
    assert_eq!(file.link_target, None);

    let bare = &listing.entries[1];
    assert_eq!((bare.size, bare.mtime_secs), (0, 0));

    let dir = &listing.entries[2];
    assert_eq!(dir.kind, EntryKind::Dir);
    assert_eq!((dir.size, dir.mtime_secs, dir.mode), (0, 0, 0o755));
}

#[test]
fn recursive_listing_has_files_only() {
    let remote = remote("");
    let mut listing = Listing::new();
    let found = remote.list_entries_with_progress(
        true,
        &mut listing,
        page(vec![object("a/b", Some(-1), None), object("", None, None)], &["c/"], None),
    );
    assert_eq!(found, 1);
    assert_eq!(listing.entries[0].relative_path, "a/b");
    assert_eq!(listing.entries[0].size, u64::MAX);
}

#[test]
fn object_without_key_and_prefix_without_name_are_skipped() {
    let mut listing = Listing::new();
    let nameless = ListPage {
        objects: vec![ListedObject { key: None, size: Some(1), last_modified_secs: None }],
        common_prefixes: vec![None],
        is_truncated: None,
        next_continuation_token: None,
    };
    assert_eq!(remote("p").list_entries_with_progress(false, &mut listing, nameless), 0);
    assert!(listing.done);
}

#[test]
fn pages_join_into_one_listing() {
    let remote = remote("data");
    let mut listing = Listing::new();
    let first = page(vec![object("data/a", Some(1), None)], &[], Some("t1"));
    assert_eq!(remote.list_entries_with_progress(true, &mut listing, first), 1);
    assert!(!listing.done);
    assert_eq!(listing.continuation_token.as_deref(), Some("t1"));
    assert_eq!(
        remote.list_request(true, &listing).continuation_token.as_deref(),
        Some("t1")
    );
    let second = page(vec![object("data/b", Some(2), None)], &[], None);
    assert_eq!(remote.list_entries_with_progress(true, &mut listing, second), 2);
    assert!(listing.done);
    let paths: Vec<&str> =
        listing.entries.iter().map(|entry| entry.relative_path.as_str()).collect();
    assert_eq!(paths, vec!["a", "b"]);
}

#[test]
fn ranges_name_their_first_and_last_byte() {
    let request = remote("data").range_request("big.bin", 5242880, 476);
    assert_eq!(request.bucket, "bucket");
    assert_eq!(request.key, "data/big.bin");
    assert_eq!(request.range, "bytes=5242880-5243355");
    assert_eq!(remote("").range_request("f", 0, 1).range, "bytes=0-0");
    assert_eq!(
        remote("").range_request("f", 1, u64::MAX - 1).range,
        "bytes=1-18446744073709551614"
    );
}

#[test]
fn sizes_and_times_are_read_off_the_answer() {
    let request = remote("data").head_request("a/b");
    assert_eq!((request.bucket.as_str(), request.key.as_str()), ("bucket", "data/a/b"));
    let stat = S3Remote::file_stat(Some(7), Some(-3));
    assert_eq!((stat.size, stat.mtime_secs), (7, -3));
    let stat = S3Remote::file_stat(Some(-7), None);
    assert_eq!((stat.size, stat.mtime_secs), (0, 0));
    let stat = S3Remote::file_stat(None, Some(9));
    assert_eq!((stat.size, stat.mtime_secs), (0, 9));
    assert_eq!(S3Remote::file_stat(Some(i64::MAX), None).size, i64::MAX as u64);
}

fn entry(path: &str, mtime_secs: i64) -> RemoteEntry {
    RemoteEntry {
        relative_path: path.to_string(),
        kind: EntryKind::File,
        size: 1,
        mtime_secs,
        mode: 0o644,
        uid: None,
        gid: None,
        link_target: None,
    }
}

#[test]
fn paths_that_leave_the_destination_are_not_safe() {
    for path in ["a", "a/b", "a..b", "..a/b", "a/..b/c", "a../b", ".", "./a", "...", "a/.../b"] {
        assert!(entry(path, 0).has_safe_path());
    }
    for path in ["", "/", "/a", "..", "../a", "a/..", "a/../b", "a/b/.."] {
        assert!(!entry(path, 0).has_safe_path());
    }
}

#[test]
fn newer_destination_makes_an_entry_older() {
    assert!(entry("a", 10).is_older_than(Some(11)));
    assert!(!entry("a", 10).is_older_than(Some(10)));
    assert!(!entry("a", 10).is_older_than(Some(9)));
    assert!(!entry("a", 10).is_older_than(None));
}

#[test]
fn whole_listing_joins_all_pages() {
    let remote = remote("data");
    let answers = vec![
        page(vec![object("data/a", Some(1), None)], &["data/x/"], Some("t1")),
        page(Vec::new(), &[], Some("t2")),
        page(vec![object("data/b", Some(2), None)], &["data/y/"], None),
        page(vec![object("data/never", Some(3), None)], &[], None),
    ];
    let mut listing = Listing::new();
    let mut tokens = Vec::new();
    let mut counts = Vec::new();
    for answer in answers {
        if listing.done {
            break;
        }
        let request = remote.list_request(false, &listing);
        assert_eq!((request.bucket.as_str(), request.prefix.as_str()), ("bucket", "data/"));
        assert_eq!(request.delimiter.as_deref(), Some("/"));
        tokens.push(request.continuation_token);
        counts.push(remote.list_entries_with_progress(false, &mut listing, answer));
    }
    assert!(listing.done);
    assert_eq!(tokens, vec![None, Some("t1".to_string()), Some("t2".to_string())]);
    assert_eq!(counts, vec![2, 2, 4]);
    let paths: Vec<&str> =
        listing.entries.iter().map(|entry| entry.relative_path.as_str()).collect();
    assert_eq!(paths, vec!["a", "x", "b", "y"]);
}
