//! How sources are named.
use prsync::remote::{SourceError, SourceSpec};

#[test]
fn parse_s3_basic() {
    let spec = SourceSpec::parse("s3://my-bucket/data/subdir", None, None, None).unwrap();
    match spec {
        SourceSpec::S3(s) => {
            assert_eq!(s.bucket, "my-bucket");
            assert_eq!(s.prefix, "data/subdir");
            assert!(!s.prefix_trailing_star);
        }
        _ => panic!("expected S3 spec"),
    }
}

#[test]
fn parse_s3_trailing_star() {
    let spec = SourceSpec::parse("s3://bucket/prefix/*", None, None, None).unwrap();
    match spec {
        SourceSpec::S3(s) => {
            assert_eq!(s.bucket, "bucket");
            assert_eq!(s.prefix, "prefix");
            assert!(s.prefix_trailing_star);
        }
        _ => panic!("expected S3 spec"),
    }
}

#[test]
fn parse_s3_bucket_only() {
    let spec = SourceSpec::parse("s3://my-bucket/", None, None, None).unwrap();
    match spec {
        SourceSpec::S3(s) => {
            assert_eq!(s.bucket, "my-bucket");
            assert_eq!(s.prefix, "");
            assert!(!s.prefix_trailing_star);
        }
        _ => panic!("expected S3 spec"),
    }
}

#[test]
fn parse_s3_bucket_no_slash() {
    let spec = SourceSpec::parse("s3://my-bucket", None, None, None).unwrap();
    match spec {
        SourceSpec::S3(s) => {
            assert_eq!(s.bucket, "my-bucket");
            assert_eq!(s.prefix, "");
        }
        _ => panic!("expected S3 spec"),
    }
}

#[test]
fn parse_s3_with_options() {
    let spec = SourceSpec::parse(
        "s3://bucket/key",
        Some("us-west-2"),
        Some("http://localhost:9000"),
        Some("myprofile"),
    )
    .unwrap();
    match spec {
        SourceSpec::S3(s) => {
            assert_eq!(s.region.as_deref(), Some("us-west-2"));
            assert_eq!(s.endpoint_url.as_deref(), Some("http://localhost:9000"));
            assert_eq!(s.profile.as_deref(), Some("myprofile"));
        }
        _ => panic!("expected S3 spec"),
    }
}

#[test]
fn parse_s3_empty_bucket_fails() {
    assert!(SourceSpec::parse("s3://", None, None, None).is_err());
    assert!(SourceSpec::parse("s3:///prefix", None, None, None).is_err());
}

#[test]
fn parse_ssh_unchanged() {
    let spec = SourceSpec::parse("user@host:/path", None, None, None).unwrap();
    match spec {
        SourceSpec::Ssh(s) => {
            assert_eq!(s.user.as_deref(), Some("user"));
            assert_eq!(s.host, "host");
            assert_eq!(s.path, "/path");
        }
        _ => panic!("expected SSH spec"),
    }
}

#[test]
fn ssh_source_with_port() {
    let spec =
        SourceSpec::parse("user@example.com:2222:/remote/path", None, None, None).unwrap();
    match spec {
        SourceSpec::Ssh(s) => {
            assert_eq!(s.user.as_deref(), Some("user"));
            assert_eq!(s.host, "example.com");
            assert_eq!(s.port, Some(2222));
            assert_eq!(s.path, "/remote/path");
        }
        _ => panic!("expected SSH spec"),
    }
}

#[test]
fn ssh_source_without_user_or_port() {
    let spec = SourceSpec::parse("h:/r", None, None, None).unwrap();
    match spec {
        SourceSpec::Ssh(s) => {
            assert_eq!(s.user, None);
            assert_eq!(s.host, "h");
            assert_eq!(s.port, None);
            assert_eq!(s.path, "/r");
        }
        _ => panic!("expected SSH spec"),
    }
}

#[test]
fn source_without_colon_is_local() {
    match SourceSpec::parse("invalid-spec", None, None, None).unwrap() {
        SourceSpec::Local(path) => assert_eq!(path, "invalid-spec"),
        _ => panic!("expected a local path"),
    }
}

#[test]
fn every_source_error_is_told() {
    let error = |raw: &str| SourceSpec::parse(raw, None, None, None).err();
    assert_eq!(error("s3://"), Some(SourceError::EmptyBucket));
    assert_eq!(error("s3:///prefix"), Some(SourceError::EmptyBucket));
    assert_eq!(error(":/path"), Some(SourceError::EmptyHost));
    assert_eq!(error("user@:/path"), Some(SourceError::EmptyHost));
    assert_eq!(error("host:"), Some(SourceError::EmptyPath));
    assert_eq!(error("host:22:"), Some(SourceError::EmptyPath));
    assert_eq!(error("host:70000:/path"), Some(SourceError::InvalidPort));
    assert_eq!(error("host:0:/path"), Some(SourceError::InvalidPort));
}

#[test]
fn s3_star_and_slashes_leave_the_prefix_alone() {
    for raw in ["s3://b/a/c", "s3://b/a/c/", "s3://b/a/c/*", "s3://b/a/c//"] {
        match SourceSpec::parse(raw, None, None, None).unwrap() {
            SourceSpec::S3(s) => {
                assert_eq!(s.bucket, "b");
                assert_eq!(s.prefix, "a/c");
                assert_eq!(s.prefix_trailing_star, raw.ends_with('*'));
            }
            _ => panic!("expected S3 spec"),
        }
    }
    match SourceSpec::parse("s3://b/*", None, None, None).unwrap() {
        SourceSpec::S3(s) => {
            assert_eq!(s.prefix, "");
            assert!(s.prefix_trailing_star);
        }
        _ => panic!("expected S3 spec"),
    }
    match SourceSpec::parse("s3://b/logs*", None, None, None).unwrap() {
        SourceSpec::S3(s) => {
            assert_eq!(s.prefix, "logs*");
            assert!(!s.prefix_trailing_star);
        }
        _ => panic!("expected S3 spec"),
    }
}
