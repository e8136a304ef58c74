//! Settings: command line, environment, configuration file and defaults.
use std::path::PathBuf;
use vstd::prelude::*;

use crate::numerals::{
    flag_value, law_flags_are_two_words, parse_bool, parse_u64, parse_usize, unsigned_value,
};

verus! {

/// `std::path::PathBuf`, carried through unread.
#[verifier::external_type_specification]
#[verifier::external_body]
pub struct ExPathBuf(PathBuf);

/// Chunk size where none is configured: 8 MiB.
pub const DEFAULT_CHUNK_SIZE: u64 = 8 * 1024 * 1024;

/// Size from which a file is transferred in chunks, where none is configured:
/// 64 MiB.
pub const DEFAULT_CHUNK_THRESHOLD: u64 = 64 * 1024 * 1024;

/// Number of attempts where none is configured.
pub const DEFAULT_RETRIES: usize = 5;

/// The settings that the command line gives.
#[derive(Debug, Default)]
pub struct Cli {
    pub jobs: Option<usize>,
    pub chunk_size: Option<u64>,
    pub chunk_threshold: Option<u64>,
    pub retries: Option<usize>,
    pub resume: bool,
    pub no_resume: bool,
    pub state_dir: Option<PathBuf>,
}

/// The environment variables that override settings, as they are set:
/// `PRSYNC_JOBS`, `PRSYNC_CHUNK_SIZE`, `PRSYNC_CHUNK_THRESHOLD`,
/// `PRSYNC_RETRIES`, `PRSYNC_RESUME` and `PRSYNC_STATE_DIR`.
#[derive(Debug, Default)]
pub struct EnvConfig {
    pub jobs: Option<String>,
    pub chunk_size: Option<String>,
    pub chunk_threshold: Option<String>,
    pub retries: Option<String>,
    pub resume: Option<String>,
    pub state_dir: Option<PathBuf>,
}

/// The settings that the configuration file gives.
#[derive(Debug, Default)]
pub struct FileConfig {
    pub jobs: Option<usize>,
    pub chunk_size: Option<u64>,
    pub chunk_threshold: Option<u64>,
    pub retries: Option<usize>,
    pub resume: Option<bool>,
    pub state_dir: Option<PathBuf>,
}

/// The settings that a run goes by.
#[derive(Debug, Clone)]
pub struct ResolvedConfig {
    pub jobs: usize,
    pub chunk_size: u64,
    pub chunk_threshold: u64,
    pub retries: usize,
    pub resume: bool,
    pub state_dir: Option<PathBuf>,
}

/// The first of three that is given.
pub open spec fn first_given<T>(first: Option<T>, second: Option<T>, third: Option<T>) -> Option<
    T,
> {
    if first is Some {
        first
    } else if second is Some {
        second
    } else {
        third
    }
}

/// A setting that counts something: what the command line says, else the
/// environment, else the configuration file, else the default; never below one.
pub open spec fn count_setting(
    cli: Option<int>,
    env: Option<int>,
    file: Option<int>,
    default: int,
) -> int {
    let value = match first_given(cli, env, file) {
        Some(value) => value,
        None => default,
    };
    if value < 1 {
        1
    } else {
        value
    }
}

/// What an environment variable gives for a number no larger than `max`:
/// nothing if it is not set or not such a number.
pub open spec fn env_number(variable: Option<String>, max: int) -> Option<int> {
    match variable {
        Some(text) => unsigned_value(text@, max),
        None => None,
    }
}

/// What an environment variable gives for a flag: nothing if it is not set or
/// neither `true` nor `false`.
pub open spec fn env_flag(variable: Option<String>) -> Option<bool> {
    match variable {
        Some(text) => flag_value(text@),
        None => None,
    }
}

/// A `u64` setting as a mathematical integer.
pub open spec fn wide(setting: Option<u64>) -> Option<int> {
    match setting {
        Some(value) => Some(value as int),
        None => None,
    }
}

/// A `usize` setting as a mathematical integer.
pub open spec fn size_setting(setting: Option<usize>) -> Option<int> {
    match setting {
        Some(value) => Some(value as int),
        None => None,
    }
}

/// Reads an environment variable that should hold a `u64`.
fn env_u64(variable: &Option<String>) -> (value: Option<u64>)
    ensures
        wide(value) == env_number(*variable, u64::MAX as int),
{
    match variable {
        Some(text) => parse_u64(text.as_str()),
        None => None,
    }
}

/// Reads an environment variable that should hold a `usize`.
fn env_usize(variable: &Option<String>) -> (value: Option<usize>)
    ensures
        size_setting(value) == env_number(*variable, usize::MAX as int),
{
    match variable {
        Some(text) => parse_usize(text.as_str()),
        None => None,
    }
}

/// Reads an environment variable that should hold a flag.
fn env_bool(variable: &Option<String>) -> (value: Option<bool>)
    ensures
        value == env_flag(*variable),
{
    match variable {
        Some(text) => parse_bool(text.as_str()),
        None => None,
    }
}

/// Resolves one `u64` setting.
fn resolve_u64(cli: Option<u64>, env: Option<u64>, file: Option<u64>, default: u64) -> (value: u64)
    ensures
        value == count_setting(wide(cli), wide(env), wide(file), default as int),
{
    let value: u64 = match (cli, env, file) {
        (Some(value), _, _) => value,
        (None, Some(value), _) => value,
        (None, None, Some(value)) => value,
        (None, None, None) => default,
    };
    if value < 1 {
        1
    } else {
        value
    }
}

/// Resolves one `usize` setting.
fn resolve_usize(
    cli: Option<usize>,
    env: Option<usize>,
    file: Option<usize>,
    default: usize,
) -> (value: usize)
    ensures
        value == count_setting(
            size_setting(cli),
            size_setting(env),
            size_setting(file),
            default as int,
        ),
{
    let value: usize = match (cli, env, file) {
        (Some(value), _, _) => value,
        (None, Some(value), _) => value,
        (None, None, Some(value)) => value,
        (None, None, None) => default,
    };
    if value < 1 {
        1
    } else {
        value
    }
}

/// Whether `config` is what the settings resolve to.
pub open spec fn resolves(
    cli: Cli,
    env: EnvConfig,
    file_cfg: FileConfig,
    default_jobs: usize,
    config: ResolvedConfig,
) -> bool {
    &&& config.jobs == count_setting(
                size_setting(cli.jobs),
                env_number(env.jobs, usize::MAX as int),
                size_setting(file_cfg.jobs),
                default_jobs as int,
            )
    &&& config.chunk_size == count_setting(
                wide(cli.chunk_size),
                env_number(env.chunk_size, u64::MAX as int),
                wide(file_cfg.chunk_size),
                DEFAULT_CHUNK_SIZE as int,
            )
    &&& config.chunk_threshold == count_setting(
                wide(cli.chunk_threshold),
                env_number(env.chunk_threshold, u64::MAX as int),
                wide(file_cfg.chunk_threshold),
                DEFAULT_CHUNK_THRESHOLD as int,
            )
    &&& config.retries == count_setting(
                size_setting(cli.retries),
                env_number(env.retries, usize::MAX as int),
                size_setting(file_cfg.retries),
                DEFAULT_RETRIES as int,
            )
    &&& config.resume == (match first_given(
                if cli.resume {
                    Some(true)
                } else if cli.no_resume {
                    Some(false)
                } else {
                    None
                },
                env_flag(env.resume),
                file_cfg.resume,
            ) {
                Some(resume) => resume,
                None => true,
            })
    &&& config.state_dir == first_given(cli.state_dir, env.state_dir, file_cfg.state_dir)
}

/// Where every setting comes from. What the command line gives is taken as it
/// is, without any upper limit; only a count of zero is made one. What it does
/// not give is taken the same way from the environment, if the variable can be
/// read, else from the file, else from the defaults.
pub proof fn law_settings_are_taken_as_given(
    cli: Cli,
    env: EnvConfig,
    file_cfg: FileConfig,
    default_jobs: usize,
    config: ResolvedConfig,
)
    requires
        resolves(cli, env, file_cfg, default_jobs, config),
    ensures
        cli.jobs matches Some(given) ==> config.jobs == (if given >= 1 {
            given as int
        } else {
            1
        }),
        cli.jobs is None && env.jobs is Some ==> (unsigned_value(env.jobs->0@, usize::MAX as int) matches Some(given)
            ==> config.jobs == (if given >= 1 {
            given
        } else {
            1
        })),
        cli.jobs is None && (env.jobs is None || unsigned_value(env.jobs->0@, usize::MAX as int) is None)
            ==> (file_cfg.jobs matches Some(given) ==> config.jobs == (if given >= 1 {
            given as int
        } else {
            1
        })),
        cli.jobs is None && (env.jobs is None || unsigned_value(env.jobs->0@, usize::MAX as int) is None)
            && file_cfg.jobs is None ==> config.jobs == (if default_jobs >= 1 {
            default_jobs as int
        } else {
            1
        }),
        cli.chunk_size matches Some(given) ==> config.chunk_size == (if given >= 1 {
            given as int
        } else {
            1
        }),
        cli.chunk_size is None && env.chunk_size is Some ==> (unsigned_value(env.chunk_size->0@, u64::MAX as int) matches Some(given)
            ==> config.chunk_size == (if given >= 1 {
            given
        } else {
            1
        })),
        cli.chunk_size is None && (env.chunk_size is None || unsigned_value(env.chunk_size->0@, u64::MAX as int) is None)
            ==> (file_cfg.chunk_size matches Some(given) ==> config.chunk_size == (if given >= 1 {
            given as int
        } else {
            1
        })),
        cli.chunk_size is None && (env.chunk_size is None || unsigned_value(env.chunk_size->0@, u64::MAX as int) is None)
            && file_cfg.chunk_size is None ==> config.chunk_size == 8388608,
        cli.chunk_threshold matches Some(given) ==> config.chunk_threshold == (if given >= 1 {
            given as int
        } else {
            1
        }),
        cli.chunk_threshold is None && env.chunk_threshold is Some ==> (unsigned_value(env.chunk_threshold->0@, u64::MAX as int) matches Some(given)
            ==> config.chunk_threshold == (if given >= 1 {
            given
        } else {
            1
        })),
        cli.chunk_threshold is None && (env.chunk_threshold is None || unsigned_value(env.chunk_threshold->0@, u64::MAX as int) is None)
            ==> (file_cfg.chunk_threshold matches Some(given) ==> config.chunk_threshold == (if given >= 1 {
            given as int
        } else {
            1
        })),
        cli.chunk_threshold is None && (env.chunk_threshold is None || unsigned_value(env.chunk_threshold->0@, u64::MAX as int) is None)
            && file_cfg.chunk_threshold is None ==> config.chunk_threshold == 67108864,
        cli.retries matches Some(given) ==> config.retries == (if given >= 1 {
            given as int
        } else {
            1
        }),
        cli.retries is None && env.retries is Some ==> (unsigned_value(env.retries->0@, usize::MAX as int) matches Some(given)
            ==> config.retries == (if given >= 1 {
            given
        } else {
            1
        })),
        cli.retries is None && (env.retries is None || unsigned_value(env.retries->0@, usize::MAX as int) is None)
            ==> (file_cfg.retries matches Some(given) ==> config.retries == (if given >= 1 {
            given as int
        } else {
            1
        })),
        cli.retries is None && (env.retries is None || unsigned_value(env.retries->0@, usize::MAX as int) is None)
            && file_cfg.retries is None ==> config.retries == 5,
        cli.resume ==> config.resume,
        !cli.resume && cli.no_resume ==> !config.resume,
        !cli.resume && !cli.no_resume && env.resume is Some && env.resume->0@ == "true"@
            ==> config.resume,
        !cli.resume && !cli.no_resume && env.resume is Some && env.resume->0@ == "false"@
            ==> !config.resume,
        !cli.resume && !cli.no_resume && (env.resume is None || (env.resume->0@ != "true"@
            && env.resume->0@ != "false"@)) ==> config.resume == (file_cfg.resume != Some(false)),
        cli.state_dir is Some ==> config.state_dir == cli.state_dir,
        cli.state_dir is None && env.state_dir is Some ==> config.state_dir == env.state_dir,
        cli.state_dir is None && env.state_dir is None ==> config.state_dir == file_cfg.state_dir,
{
    if env.resume is Some {
        law_flags_are_two_words(env.resume->0@);
        reveal_strlit("true");
        reveal_strlit("false");
        assert("true"@ =~= seq!['t', 'r', 'u', 'e']);
        assert("false"@ =~= seq!['f', 'a', 'l', 's', 'e']);
    }
}

/// Two jobs for each processor, at least 4 and at most 32.
pub open spec fn jobs_for(processors: int) -> int {
    if 2 * processors < 4 {
        4
    } else if 2 * processors > 32 {
        32
    } else {
        2 * processors
    }
}

/// The number of jobs is the one between 4 and 32 that is nearest to twice the
/// number of processors.
pub proof fn law_jobs_follow_the_processors(processors: int, other: int)
    requires
        0 <= processors,
        4 <= other <= 32,
    ensures
        4 <= jobs_for(processors) <= 32,
        2 <= processors <= 16 ==> jobs_for(processors) == processors + processors,
        processors <= 2 ==> jobs_for(processors) <= other,
        processors >= 16 ==> other <= jobs_for(processors),
{
}

impl Cli {
    /// How many jobs run in parallel where none is configured: two for each
    /// processor, at least 4 and at most 32.
    pub fn default_jobs(processors: usize) -> (jobs: usize)
        ensures
            jobs == jobs_for(processors as int),
            jobs == (if 2 * processors < 4 {
                4
            } else if 2 * processors > 32 {
                32
            } else {
                2 * processors
            }),
    {
        if processors < 2 {
            4
        } else if processors > 16 {
            32
        } else {
            2 * processors
        }
    }
}

impl ResolvedConfig {
    /// Resolves every setting: the command line goes before the environment,
    /// the environment before the configuration file, and the file before the
    /// defaults. An environment variable that cannot be read counts as not set.
    pub fn from_cli(
        cli: Cli,
        env: EnvConfig,
        file_cfg: FileConfig,
        default_jobs: usize,
    ) -> (config: ResolvedConfig)
        ensures
            config.jobs == count_setting(
                size_setting(cli.jobs),
                env_number(env.jobs, usize::MAX as int),
                size_setting(file_cfg.jobs),
                default_jobs as int,
            ),
            config.chunk_size == count_setting(
                wide(cli.chunk_size),
                env_number(env.chunk_size, u64::MAX as int),
                wide(file_cfg.chunk_size),
                DEFAULT_CHUNK_SIZE as int,
            ),
            config.chunk_threshold == count_setting(
                wide(cli.chunk_threshold),
                env_number(env.chunk_threshold, u64::MAX as int),
                wide(file_cfg.chunk_threshold),
                DEFAULT_CHUNK_THRESHOLD as int,
            ),
            config.retries == count_setting(
                size_setting(cli.retries),
                env_number(env.retries, usize::MAX as int),
                size_setting(file_cfg.retries),
                DEFAULT_RETRIES as int,
            ),
            config.resume == (match first_given(
                if cli.resume {
                    Some(true)
                } else if cli.no_resume {
                    Some(false)
                } else {
                    None
                },
                env_flag(env.resume),
                file_cfg.resume,
            ) {
                Some(resume) => resume,
                None => true,
            }),
            config.state_dir == first_given(cli.state_dir, env.state_dir, file_cfg.state_dir),
            resolves(cli, env, file_cfg, default_jobs, config),
            cli.jobs matches Some(given) ==> config.jobs == (if given >= 1 {
                given as int
            } else {
                1
            }),
            cli.jobs is None && env.jobs is Some ==> (unsigned_value(env.jobs->0@, usize::MAX as int) matches Some(given)
                ==> config.jobs == (if given >= 1 {
                given
            } else {
                1
            })),
            cli.jobs is None && (env.jobs is None || unsigned_value(env.jobs->0@, usize::MAX as int) is None)
                ==> (file_cfg.jobs matches Some(given) ==> config.jobs == (if given >= 1 {
                given as int
            } else {
                1
            })),
            cli.jobs is None && (env.jobs is None || unsigned_value(env.jobs->0@, usize::MAX as int) is None)
                && file_cfg.jobs is None ==> config.jobs == (if default_jobs >= 1 {
                default_jobs as int
            } else {
                1
            }),
            cli.chunk_size matches Some(given) ==> config.chunk_size == (if given >= 1 {
                given as int
            } else {
                1
            }),
            cli.chunk_size is None && env.chunk_size is Some ==> (unsigned_value(env.chunk_size->0@, u64::MAX as int) matches Some(given)
                ==> config.chunk_size == (if given >= 1 {
                given
            } else {
                1
            })),
            cli.chunk_size is None && (env.chunk_size is None || unsigned_value(env.chunk_size->0@, u64::MAX as int) is None)
                ==> (file_cfg.chunk_size matches Some(given) ==> config.chunk_size == (if given >= 1 {
                given as int
            } else {
                1
            })),
            cli.chunk_size is None && (env.chunk_size is None || unsigned_value(env.chunk_size->0@, u64::MAX as int) is None)
                && file_cfg.chunk_size is None ==> config.chunk_size == 8388608,
            cli.chunk_threshold matches Some(given) ==> config.chunk_threshold == (if given >= 1 {
                given as int
            } else {
                1
            }),
            cli.chunk_threshold is None && env.chunk_threshold is Some ==> (unsigned_value(env.chunk_threshold->0@, u64::MAX as int) matches Some(given)
                ==> config.chunk_threshold == (if given >= 1 {
                given
            } else {
                1
            })),
            cli.chunk_threshold is None && (env.chunk_threshold is None || unsigned_value(env.chunk_threshold->0@, u64::MAX as int) is None)
                ==> (file_cfg.chunk_threshold matches Some(given) ==> config.chunk_threshold == (if given >= 1 {
                given as int
            } else {
                1
            })),
            cli.chunk_threshold is None && (env.chunk_threshold is None || unsigned_value(env.chunk_threshold->0@, u64::MAX as int) is None)
                && file_cfg.chunk_threshold is None ==> config.chunk_threshold == 67108864,
            cli.retries matches Some(given) ==> config.retries == (if given >= 1 {
                given as int
            } else {
                1
            }),
            cli.retries is None && env.retries is Some ==> (unsigned_value(env.retries->0@, usize::MAX as int) matches Some(given)
                ==> config.retries == (if given >= 1 {
                given
            } else {
                1
            })),
            cli.retries is None && (env.retries is None || unsigned_value(env.retries->0@, usize::MAX as int) is None)
                ==> (file_cfg.retries matches Some(given) ==> config.retries == (if given >= 1 {
                given as int
            } else {
                1
            })),
            cli.retries is None && (env.retries is None || unsigned_value(env.retries->0@, usize::MAX as int) is None)
                && file_cfg.retries is None ==> config.retries == 5,
            cli.resume ==> config.resume,
            !cli.resume && cli.no_resume ==> !config.resume,
            !cli.resume && !cli.no_resume && env.resume is Some && env.resume->0@ == "true"@
                ==> config.resume,
            !cli.resume && !cli.no_resume && env.resume is Some && env.resume->0@ == "false"@
                ==> !config.resume,
            !cli.resume && !cli.no_resume && (env.resume is None || (env.resume->0@ != "true"@
                && env.resume->0@ != "false"@)) ==> config.resume == (file_cfg.resume != Some(false)),
            cli.state_dir is Some ==> config.state_dir == cli.state_dir,
            cli.state_dir is None && env.state_dir is Some ==> config.state_dir == env.state_dir,
            cli.state_dir is None && env.state_dir is None ==> config.state_dir == file_cfg.state_dir,
            config.jobs >= 1,
            config.chunk_size >= 1,
            config.chunk_threshold >= 1,
            config.retries >= 1,
    {
        let jobs: usize = resolve_usize(cli.jobs, env_usize(&env.jobs), file_cfg.jobs, default_jobs);
        let chunk_size: u64 = resolve_u64(
            cli.chunk_size,
            env_u64(&env.chunk_size),
            file_cfg.chunk_size,
            DEFAULT_CHUNK_SIZE,
        );
        let chunk_threshold: u64 = resolve_u64(
            cli.chunk_threshold,
            env_u64(&env.chunk_threshold),
            file_cfg.chunk_threshold,
            DEFAULT_CHUNK_THRESHOLD,
        );
        let retries: usize = resolve_usize(
            cli.retries,
            env_usize(&env.retries),
            file_cfg.retries,
            DEFAULT_RETRIES,
        );
        let resume = if cli.resume {
            true
        } else if cli.no_resume {
            false
        } else {
            match (env_bool(&env.resume), file_cfg.resume) {
                (Some(resume), _) => resume,
                (None, Some(resume)) => resume,
                (None, None) => true,
            }
        };
        let state_dir = if cli.state_dir.is_some() {
            cli.state_dir
        } else if env.state_dir.is_some() {
            env.state_dir
        } else {
            file_cfg.state_dir
        };
        let config = ResolvedConfig {
            jobs,
            chunk_size,
            chunk_threshold,
            retries,
            resume,
            state_dir,
        };
        proof {
            law_settings_are_taken_as_given(cli, env, file_cfg, default_jobs, config);
        }
        config
    }
}

} // verus!
