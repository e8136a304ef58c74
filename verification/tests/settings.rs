//! How settings are resolved.
use std::path::PathBuf;

use prsync::config::{Cli, EnvConfig, FileConfig, ResolvedConfig};

#[test]
fn cli_values_take_priority() {
    let cli = Cli {
        jobs: Some(9),
        chunk_size: Some(1024),
        chunk_threshold: Some(2048),
        retries: Some(3),
        state_dir: Some(PathBuf::from("/tmp/state")),
        ..Cli::default()
    };
    let cfg = ResolvedConfig::from_cli(cli, EnvConfig::default(), FileConfig::default(), 8);
    assert_eq!(cfg.jobs, 9);
    assert_eq!(cfg.chunk_size, 1024);
    assert_eq!(cfg.chunk_threshold, 2048);
    assert_eq!(cfg.retries, 3);
    assert_eq!(cfg.state_dir, Some(PathBuf::from("/tmp/state")));
}

fn some_env() -> EnvConfig {
    EnvConfig {
        jobs: Some("11".to_string()),
        chunk_size: Some("12".to_string()),
        chunk_threshold: Some("13".to_string()),
        retries: Some("14".to_string()),
        resume: Some("false".to_string()),
        state_dir: Some(PathBuf::from("/env")),
    }
}

fn some_file() -> FileConfig {
    FileConfig {
        jobs: Some(21),
        chunk_size: Some(22),
        chunk_threshold: Some(23),
        retries: Some(24),
        resume: Some(false),
        state_dir: Some(PathBuf::from("/file")),
    }
}

#[test]
fn command_line_goes_before_environment_and_file() {
    let cli = Cli {
        jobs: Some(1),
        chunk_size: Some(2),
        chunk_threshold: Some(3),
        retries: Some(4),
        resume: true,
        no_resume: false,
        state_dir: Some(PathBuf::from("/cli")),
    };
    let cfg = ResolvedConfig::from_cli(cli, some_env(), some_file(), 8);
    assert_eq!((cfg.jobs, cfg.chunk_size, cfg.chunk_threshold, cfg.retries), (1, 2, 3, 4));
    assert!(cfg.resume);
    assert_eq!(cfg.state_dir, Some(PathBuf::from("/cli")));
}

#[test]
fn environment_goes_before_file() {
    let mut env = some_env();
    env.resume = Some("true".to_string());
    let cfg = ResolvedConfig::from_cli(Cli::default(), env, some_file(), 8);
    assert_eq!((cfg.jobs, cfg.chunk_size, cfg.chunk_threshold, cfg.retries), (11, 12, 13, 14));
    assert!(cfg.resume);
    assert_eq!(cfg.state_dir, Some(PathBuf::from("/env")));
}

#[test]
fn file_goes_before_defaults() {
    let cfg =
        ResolvedConfig::from_cli(Cli::default(), EnvConfig::default(), some_file(), 8);
    assert_eq!((cfg.jobs, cfg.chunk_size, cfg.chunk_threshold, cfg.retries), (21, 22, 23, 24));
    assert!(!cfg.resume);
    assert_eq!(cfg.state_dir, Some(PathBuf::from("/file")));
}

#[test]
fn defaults_come_last() {
    let cfg = ResolvedConfig::from_cli(
        Cli::default(),
        EnvConfig::default(),
        FileConfig::default(),
        8,
    );
    assert_eq!(cfg.jobs, 8);
    assert_eq!(cfg.chunk_size, 8388608);
    assert_eq!(cfg.chunk_threshold, 67108864);
    assert_eq!(cfg.retries, 5);
    assert!(cfg.resume);
    assert_eq!(cfg.state_dir, None);
}

#[test]
fn counts_are_at_least_one() {
    let cli = Cli {
        jobs: Some(0),
        chunk_size: Some(0),
        chunk_threshold: Some(0),
        retries: Some(0),
        ..Cli::default()
    };
    let cfg = ResolvedConfig::from_cli(cli, some_env(), some_file(), 8);
    assert_eq!((cfg.jobs, cfg.chunk_size, cfg.chunk_threshold, cfg.retries), (1, 1, 1, 1));
    let none = ResolvedConfig::from_cli(
        Cli::default(),
        EnvConfig::default(),
        FileConfig::default(),
        0,
    );
    assert_eq!(none.jobs, 1);
}

#[test]
fn unreadable_environment_counts_as_not_set() {
    let env = EnvConfig {
        jobs: Some("many".to_string()),
        chunk_size: Some("-1".to_string()),
        chunk_threshold: Some("18446744073709551616".to_string()),
        retries: Some("".to_string()),
        resume: Some("yes".to_string()),
        state_dir: None,
    };
    let cfg = ResolvedConfig::from_cli(Cli::default(), env, some_file(), 8);
    assert_eq!((cfg.jobs, cfg.chunk_size, cfg.chunk_threshold, cfg.retries), (21, 22, 23, 24));
    assert!(!cfg.resume);
}

#[test]
fn resume_flags_override_the_rest() {
    let off = Cli { no_resume: true, ..Cli::default() };
    let env = EnvConfig { resume: Some("true".to_string()), ..EnvConfig::default() };
    assert!(!ResolvedConfig::from_cli(off, env, FileConfig::default(), 8).resume);
    let both = Cli { resume: true, no_resume: true, ..Cli::default() };
    assert!(ResolvedConfig::from_cli(both, EnvConfig::default(), some_file(), 8).resume);
}

#[test]
fn default_jobs_follow_the_processors() {
    assert_eq!(Cli::default_jobs(0), 4);
    assert_eq!(Cli::default_jobs(1), 4);
    assert_eq!(Cli::default_jobs(2), 4);
    assert_eq!(Cli::default_jobs(3), 6);
    assert_eq!(Cli::default_jobs(8), 16);
    assert_eq!(Cli::default_jobs(16), 32);
    assert_eq!(Cli::default_jobs(17), 32);
    assert_eq!(Cli::default_jobs(usize::MAX), 32);
}
