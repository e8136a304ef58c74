//! Sources and the entries found in them.
use vstd::prelude::*;

use crate::numerals::{
    decimal, is_digit, is_digits, law_decimal_reads_back, lemma_decimal_is_digits, parse_u64,
    unsigned_value,
};
use crate::text::{
    begins_with, chars_of, find_from, first_at, has_prefix, law_trimmed_end_cuts_one_run,
    string_of, trim_end, trimmed_end,
};

verus! {

/// A source reached over SSH.
#[derive(Debug)]
pub struct SshSpec {
    pub user: Option<String>,
    pub host: String,
    pub port: Option<u16>,
    pub path: String,
}

/// A source in an S3 bucket.
#[derive(Debug)]
pub struct S3Spec {
    pub bucket: String,
    pub prefix: String,
    pub prefix_trailing_star: bool,
    pub region: Option<String>,
    pub endpoint_url: Option<String>,
    pub profile: Option<String>,
}

/// Where to pull from.
#[derive(Debug)]
pub enum SourceSpec {
    S3(S3Spec),
    Ssh(SshSpec),
    /// A path on this machine.
    Local(String),
}

/// Why a source cannot be made sense of.
#[derive(Clone, Copy, Debug, PartialEq, Eq, Structural)]
pub enum SourceError {
    /// An S3 source names no bucket.
    EmptyBucket,
    /// An SSH source names no host.
    EmptyHost,
    /// An SSH source names no path.
    EmptyPath,
    /// The port of an SSH source is not one.
    InvalidPort,
}

/// `SourceSpec` as mathematical values.
pub enum SourceModel {
    S3 {
        bucket: Seq<char>,
        prefix: Seq<char>,
        prefix_trailing_star: bool,
        region: Option<Seq<char>>,
        endpoint_url: Option<Seq<char>>,
        profile: Option<Seq<char>>,
    },
    Ssh { user: Option<Seq<char>>, host: Seq<char>, port: Option<u16>, path: Seq<char> },
    Local(Seq<char>),
}

/// The text of an optional string.
pub open spec fn optional_text(text: Option<String>) -> Option<Seq<char>> {
    match text {
        Some(text) => Some(text@),
        None => None,
    }
}

/// The text of an optional string slice.
pub open spec fn optional_slice(text: Option<&str>) -> Option<Seq<char>> {
    match text {
        Some(text) => Some(text@),
        None => None,
    }
}

impl View for SourceSpec {
    type V = SourceModel;

    open spec fn view(&self) -> SourceModel {
        match self {
            SourceSpec::S3(spec) => SourceModel::S3 {
                bucket: spec.bucket@,
                prefix: spec.prefix@,
                prefix_trailing_star: spec.prefix_trailing_star,
                region: optional_text(spec.region),
                endpoint_url: optional_text(spec.endpoint_url),
                profile: optional_text(spec.profile),
            },
            SourceSpec::Ssh(spec) => SourceModel::Ssh {
                user: optional_text(spec.user),
                host: spec.host@,
                port: spec.port,
                path: spec.path@,
            },
            SourceSpec::Local(path) => SourceModel::Local(path@),
        }
    }
}

/// How every S3 source begins.
pub open spec fn s3_scheme() -> Seq<char> {
    "s3://"@
}

/// The bucket of an S3 source, given what follows the scheme: all up to the
/// first slash.
pub open spec fn s3_bucket(rest: Seq<char>) -> Seq<char> {
    rest.take(first_at(rest, '/', 0))
}

/// What follows the slash behind the bucket; nothing if there is no slash.
pub open spec fn s3_key(rest: Seq<char>) -> Seq<char> {
    let slash = first_at(rest, '/', 0);
    if slash < rest.len() {
        rest.skip(slash + 1)
    } else {
        Seq::empty()
    }
}

/// Whether a key ends in a path component that is a lone star.
pub open spec fn has_trailing_star(key: Seq<char>) -> bool {
    &&& key.len() > 0
    &&& key.last() == '*'
    &&& key.len() == 1 || key[key.len() - 2] == '/'
}

/// The prefix that a key stands for: without the trailing star, and without
/// slashes at the end.
pub open spec fn key_prefix(key: Seq<char>) -> Seq<char> {
    trimmed_end(
        if has_trailing_star(key) {
            key.drop_last()
        } else {
            key
        },
        '/',
    )
}

/// The position behind the last `@` of `text`, 0 if there is none.
pub open spec fn behind_last_at(text: Seq<char>) -> int
    decreases text.len(),
{
    if text.len() == 0 {
        0
    } else if text.last() == '@' {
        text.len() as int
    } else {
        behind_last_at(text.drop_last())
    }
}

/// Whether what follows the host of an SSH source begins with a port: digits
/// up to another colon.
pub open spec fn has_port(rest: Seq<char>) -> bool {
    let colon = first_at(rest, ':', 0);
    colon < rest.len() && is_digits(rest.take(colon))
}

/// What an SSH source stands for, given what precedes and what follows its
/// first colon.
pub open spec fn ssh_source(login: Seq<char>, rest: Seq<char>) -> Result<SourceModel, SourceError> {
    let at = behind_last_at(login);
    let host = login.skip(at);
    let colon = first_at(rest, ':', 0);
    let port = unsigned_value(rest.take(colon), u16::MAX as int);
    let path = if has_port(rest) {
        rest.skip(colon + 1)
    } else {
        rest
    };
    if host.len() == 0 {
        Err(SourceError::EmptyHost)
    } else if has_port(rest) && (port is None || port == Some(0int)) {
        Err(SourceError::InvalidPort)
    } else if path.len() == 0 {
        Err(SourceError::EmptyPath)
    } else {
        Ok(
            SourceModel::Ssh {
                user: if at > 0 {
                    Some(login.take(at - 1))
                } else {
                    None
                },
                host,
                port: if has_port(rest) {
                    Some(port->0 as u16)
                } else {
                    None
                },
                path,
            },
        )
    }
}

/// What `raw` names: `s3://bucket/prefix`, with an optional `/*` at the end;
/// `[user@]host:[port:]path`; or else a local path.
pub open spec fn source_of(
    raw: Seq<char>,
    region: Option<Seq<char>>,
    endpoint_url: Option<Seq<char>>,
    profile: Option<Seq<char>>,
) -> Result<SourceModel, SourceError> {
    let colon = first_at(raw, ':', 0);
    if begins_with(raw, s3_scheme()) {
        let rest = raw.skip(5);
        if s3_bucket(rest).len() == 0 {
            Err(SourceError::EmptyBucket)
        } else {
            Ok(
                SourceModel::S3 {
                    bucket: s3_bucket(rest),
                    prefix: key_prefix(s3_key(rest)),
                    prefix_trailing_star: has_trailing_star(s3_key(rest)),
                    region,
                    endpoint_url,
                    profile,
                },
            )
        }
    } else if colon < raw.len() {
        ssh_source(raw.take(colon), raw.skip(colon + 1))
    } else {
        Ok(SourceModel::Local(raw))
    }
}

/// A copy of an optional text.
fn owned(text: Option<&str>) -> (copy: Option<String>)
    ensures
        optional_text(copy) == optional_slice(text),
{
    match text {
        Some(text) => Some(text.to_owned()),
        None => None,
    }
}

/// Finds the position behind the last `@` before `end`, 0 if there is none.
fn find_behind_last_at(chars: &Vec<char>, end: usize) -> (at: usize)
    requires
        end <= chars@.len(),
    ensures
        at == behind_last_at(chars@.take(end as int)),
        at <= end,
        at > 0 ==> chars@[at - 1] == '@',
{
    let mut at: usize = end;
    while at > 0 && chars[at - 1] != '@'
        invariant
            at <= end <= chars@.len(),
            behind_last_at(chars@.take(at as int)) == behind_last_at(chars@.take(end as int)),
        decreases at,
    {
        proof {
            assert(chars@.take(at as int).drop_last() =~= chars@.take(at - 1));
        }
        at = at - 1;
    }
    at
}

/// Whether `chars[from..to]` is digits only, at least one.
fn all_digits(chars: &Vec<char>, from: usize, to: usize) -> (yes: bool)
    requires
        from <= to <= chars@.len(),
    ensures
        yes == is_digits(chars@.subrange(from as int, to as int)),
{
    let ghost part = chars@.subrange(from as int, to as int);
    let mut i: usize = from;
    while i < to
        invariant
            from <= i <= to <= chars@.len(),
            part == chars@.subrange(from as int, to as int),
            forall|j: int| 0 <= j < i - from ==> is_digit(#[trigger] part[j]),
        decreases to - i,
    {
        let c = chars[i];
        proof {
            assert(part[i - from] == c);
        }
        if c < '0' || c > '9' {
            return false;
        }
        i = i + 1;
    }
    from < to
}

impl SourceSpec {
    /// Makes sense of a source. The region, endpoint and profile are kept for
    /// an S3 source and mean nothing for others.
    pub fn parse(
        raw: &str,
        region: Option<&str>,
        endpoint_url: Option<&str>,
        profile: Option<&str>,
    ) -> (source: Result<SourceSpec, SourceError>)
        ensures
            match source {
                Ok(source) => source_of(
                    raw@,
                    optional_slice(region),
                    optional_slice(endpoint_url),
                    optional_slice(profile),
                ) == Ok::<SourceModel, SourceError>(source@),
                Err(error) => source_of(
                    raw@,
                    optional_slice(region),
                    optional_slice(endpoint_url),
                    optional_slice(profile),
                ) == Err::<SourceModel, SourceError>(error),
            },
    {
        let chars = chars_of(raw);
        let scheme = chars_of("s3://");
        proof {
            reveal_strlit("s3://");
        }
        if has_prefix(&chars, &scheme) {
            let rest = SourceSpec::s3_rest(&chars);
            return SourceSpec::parse_s3(&rest, region, endpoint_url, profile);
        }
        let colon: usize = find_from(&chars, ':', 0);
        if colon < chars.len() {
            SourceSpec::parse_ssh(&chars, colon)
        } else {
            Ok(SourceSpec::Local(raw.to_owned()))
        }
    }

    /// What follows the scheme of an S3 source.
    fn s3_rest(chars: &Vec<char>) -> (rest: Vec<char>)
        requires
            chars@.len() >= 5,
        ensures
            rest@ == chars@.skip(5),
    {
        let mut rest: Vec<char> = Vec::new();
        let mut i: usize = 5;
        while i < chars.len()
            invariant
                5 <= i <= chars@.len(),
                rest@ == chars@.subrange(5, i as int),
            decreases chars@.len() - i,
        {
            rest.push(chars[i]);
            i = i + 1;
            proof {
                assert(chars@.subrange(5, i as int) =~= chars@.subrange(5, i - 1).push(
                    chars@[i - 1],
                ));
            }
        }
        proof {
            assert(chars@.skip(5) =~= chars@.subrange(5, chars@.len() as int));
        }
        rest
    }

    /// An S3 source, given what follows the scheme.
    fn parse_s3(
        rest: &Vec<char>,
        region: Option<&str>,
        endpoint_url: Option<&str>,
        profile: Option<&str>,
    ) -> (source: Result<SourceSpec, SourceError>)
        ensures
            match source {
                Ok(source) => {
                    &&& s3_bucket(rest@).len() > 0
                    &&& source@ == SourceModel::S3 {
                        bucket: s3_bucket(rest@),
                        prefix: key_prefix(s3_key(rest@)),
                        prefix_trailing_star: has_trailing_star(s3_key(rest@)),
                        region: optional_slice(region),
                        endpoint_url: optional_slice(endpoint_url),
                        profile: optional_slice(profile),
                    }
                },
                Err(error) => error == SourceError::EmptyBucket && s3_bucket(rest@).len() == 0,
            },
    {
        let slash: usize = find_from(rest, '/', 0);
        if slash == 0 {
            return Err(SourceError::EmptyBucket);
        }
        let bucket = string_of(rest, 0, slash);
        let len: usize = rest.len();
        let start: usize = if slash < len { slash + 1 } else { len };
        let star = start < len && rest[len - 1] == '*' && (len - start == 1 || rest[len - 2]
            == '/');
        let end: usize = if star { len - 1 } else { len };
        let prefix_end: usize = trim_end(rest, start, end, '/');
        let prefix = string_of(rest, start, prefix_end);
        proof {
            let key = s3_key(rest@);
            assert(rest@.subrange(0, slash as int) =~= s3_bucket(rest@));
            assert(rest@.subrange(start as int, len as int) =~= key);
            assert(star == has_trailing_star(key));
            assert(rest@.subrange(start as int, end as int) =~= (if star {
                key.drop_last()
            } else {
                key
            }));
        }
        Ok(
            SourceSpec::S3(
                S3Spec {
                    bucket,
                    prefix,
                    prefix_trailing_star: star,
                    region: owned(region),
                    endpoint_url: owned(endpoint_url),
                    profile: owned(profile),
                },
            ),
        )
    }

    /// An SSH source, whose first colon is at `colon`.
    fn parse_ssh(chars: &Vec<char>, colon: usize) -> (source: Result<SourceSpec, SourceError>)
        requires
            colon < chars@.len(),
        ensures
            ({
                let stated = ssh_source(chars@.take(colon as int), chars@.skip(colon + 1));
                match source {
                    Ok(source) => stated == Ok::<SourceModel, SourceError>(source@),
                    Err(error) => stated == Err::<SourceModel, SourceError>(error),
                }
            }),
    {
        let len: usize = chars.len();
        let ghost login = chars@.take(colon as int);
        let ghost rest = chars@.skip(colon + 1);
        let at: usize = find_behind_last_at(chars, colon);
        proof {
            assert(login.skip(at as int) =~= chars@.subrange(at as int, colon as int));
        }
        if at == colon {
            return Err(SourceError::EmptyHost);
        }
        let host = string_of(chars, at, colon);
        let user = if at > 0 {
            proof {
                assert(login.take(at - 1) =~= chars@.subrange(0, at - 1));
            }
            Some(string_of(chars, 0, at - 1))
        } else {
            None
        };
        let start: usize = colon + 1;
        let next: usize = find_from(chars, ':', start);
        proof {
            lemma_first_at_skip(chars@, ':', start as int, start as int);
            assert(rest.take(next - start) =~= chars@.subrange(start as int, next as int));
        }
        let mut port: Option<u16> = None;
        let mut path_start: usize = start;
        if next < len && all_digits(chars, start, next) {
            let digits = string_of(chars, start, next);
            match parse_u64(digits.as_str()) {
                Some(value) if 0 < value && value <= u16::MAX as u64 => {
                    port = Some(value as u16);
                    path_start = next + 1;
                },
                _ => {
                    return Err(SourceError::InvalidPort);
                },
            }
        }
        proof {
            assert(chars@.subrange(path_start as int, chars@.len() as int) =~= if has_port(rest) {
                rest.skip(first_at(rest, ':', 0) + 1)
            } else {
                rest
            });
        }
        if path_start == len {
            return Err(SourceError::EmptyPath);
        }
        let path = string_of(chars, path_start, len);
        Ok(SourceSpec::Ssh(SshSpec { user, host, port, path }))
    }
}

/// Searching behind a part that is cut off finds the same place.
proof fn lemma_first_at_skip(text: Seq<char>, c: char, cut: int, from: int)
    requires
        0 <= cut <= from <= text.len(),
    ensures
        first_at(text.skip(cut), c, from - cut) == first_at(text, c, from) - cut,
    decreases text.len() - from,
{
    if from < text.len() && text[from] != c {
        lemma_first_at_skip(text, c, cut, from + 1);
    }
}

/// The address of a prefix in a bucket names that bucket and that prefix, for
/// every bucket name without a slash and every prefix that neither ends in a
/// slash nor in a lone star.
pub proof fn law_s3_address_names_its_parts(
    bucket: Seq<char>,
    prefix: Seq<char>,
    region: Option<Seq<char>>,
    endpoint_url: Option<Seq<char>>,
    profile: Option<Seq<char>>,
)
    requires
        bucket.len() > 0,
        !bucket.contains('/'),
        prefix.len() > 0 ==> prefix.last() != '/',
        !has_trailing_star(prefix),
    ensures
        source_of(
            s3_scheme() + bucket + seq!['/'] + prefix,
            region,
            endpoint_url,
            profile,
        ) == Ok::<SourceModel, SourceError>(
            SourceModel::S3 {
                bucket,
                prefix,
                prefix_trailing_star: false,
                region,
                endpoint_url,
                profile,
            },
        ),
{
    reveal_strlit("s3://");
    let raw = s3_scheme() + bucket + seq!['/'] + prefix;
    let rest = bucket + seq!['/'] + prefix;
    assert(raw.take(5) =~= s3_scheme());
    assert(raw.skip(5) =~= rest);
    lemma_first_behind(bucket, '/', prefix, 0);
    assert(rest.take(bucket.len() as int) =~= bucket);
    assert(rest.skip(bucket.len() as int + 1) =~= prefix);
}

/// The same address with `/*` behind it names the same bucket and prefix, and
/// that the star was there.
pub proof fn law_s3_star_only_sets_the_mark(
    bucket: Seq<char>,
    prefix: Seq<char>,
    region: Option<Seq<char>>,
    endpoint_url: Option<Seq<char>>,
    profile: Option<Seq<char>>,
)
    requires
        bucket.len() > 0,
        !bucket.contains('/'),
        prefix.len() > 0,
        prefix.last() != '/',
    ensures
        source_of(
            s3_scheme() + bucket + seq!['/'] + prefix + seq!['/', '*'],
            region,
            endpoint_url,
            profile,
        ) == Ok::<SourceModel, SourceError>(
            SourceModel::S3 {
                bucket,
                prefix,
                prefix_trailing_star: true,
                region,
                endpoint_url,
                profile,
            },
        ),
{
    reveal_strlit("s3://");
    let key = prefix + seq!['/', '*'];
    let raw = s3_scheme() + bucket + seq!['/'] + prefix + seq!['/', '*'];
    let rest = bucket + seq!['/'] + key;
    assert(raw.take(5) =~= s3_scheme());
    assert(raw.skip(5) =~= rest);
    lemma_first_behind(bucket, '/', key, 0);
    assert(rest.take(bucket.len() as int) =~= bucket);
    assert(rest.skip(bucket.len() as int + 1) =~= key);
    assert(key.drop_last() =~= prefix.push('/'));
    assert(prefix.push('/').drop_last() =~= prefix);
    reveal_with_fuel(trimmed_end, 2);
}

/// What precedes the first colon of an SSH address: `[user@]host`.
pub open spec fn ssh_login(user: Option<Seq<char>>, host: Seq<char>) -> Seq<char> {
    match user {
        Some(user) => user.push('@') + host,
        None => host,
    }
}

/// What follows the first colon of an SSH address: `[port:]path`.
pub open spec fn ssh_place(port: Option<u16>, path: Seq<char>) -> Seq<char> {
    match port {
        Some(port) => decimal(port as int) + seq![':'] + path,
        None => path,
    }
}

/// The address `[user@]host:[port:]path` names that user, host, port and path,
/// for every user and host without a colon, every host without an `@` and every
/// port but 0. Without a port the path must not look as if it had one before
/// it, and nothing that begins as an S3 source is an SSH source.
pub proof fn law_ssh_address_names_its_parts(
    user: Option<Seq<char>>,
    host: Seq<char>,
    port: Option<u16>,
    path: Seq<char>,
)
    requires
        host.len() > 0,
        path.len() > 0,
        !host.contains('@'),
        !ssh_login(user, host).contains(':'),
        port != Some(0u16),
        port is None ==> !has_port(path),
        !begins_with(ssh_login(user, host) + seq![':'] + ssh_place(port, path), s3_scheme()),
    ensures
        source_of(
            ssh_login(user, host) + seq![':'] + ssh_place(port, path),
            None,
            None,
            None,
        ) == Ok::<SourceModel, SourceError>(SourceModel::Ssh { user, host, port, path }),
{
    let login = ssh_login(user, host);
    let place = ssh_place(port, path);
    let raw = login + seq![':'] + place;
    lemma_first_behind(login, ':', place, 0);
    assert(raw.take(login.len() as int) =~= login);
    assert(raw.skip(login.len() as int + 1) =~= place);
    let before_host = match user {
        Some(user) => user.push('@'),
        None => Seq::empty(),
    };
    assert(login =~= before_host + host);
    lemma_last_at_before(before_host, host);
    assert(login.skip(before_host.len() as int) =~= host);
    if let Some(user) = user {
        assert(login.take(user.len() as int) =~= user);
    }
    if let Some(port) = port {
        let digits = decimal(port as int);
        lemma_decimal_is_digits(port as int);
        law_decimal_reads_back(port as int, u16::MAX as int);
        if digits.contains(':') {
            let i = choose|i: int| 0 <= i < digits.len() && digits[i] == ':';
            assert(is_digit(digits[i]));
        }
        lemma_first_behind(digits, ':', path, 0);
        assert(place.take(digits.len() as int) =~= digits);
        assert(place.skip(digits.len() as int + 1) =~= path);
    }
}

/// What follows the bucket and a slash in an S3 source is read in full: a lone
/// star as its last component is only noted, and of the rest nothing is cut off
/// but slashes at the end. A bucket alone has no prefix. Without a bucket there
/// is no source.
pub proof fn law_s3_source_is_read_in_full(
    bucket: Seq<char>,
    key: Seq<char>,
    region: Option<Seq<char>>,
    endpoint_url: Option<Seq<char>>,
    profile: Option<Seq<char>>,
)
    requires
        !bucket.contains('/'),
    ensures
        ({
            let scheme = seq!['s', '3', ':', '/', '/'];
            let alone = source_of(scheme + bucket, region, endpoint_url, profile);
            let source = source_of(
                scheme + bucket + seq!['/'] + key,
                region,
                endpoint_url,
                profile,
            );
            let star = key == seq!['*'] || (key.len() >= 2 && key[key.len() - 1] == '*'
                && key[key.len() - 2] == '/');
            let end = if star {
                key.len() - 1
            } else {
                key.len() as int
            };
            &&& bucket.len() == 0 ==> alone == Err::<SourceModel, SourceError>(
                SourceError::EmptyBucket,
            )
            &&& bucket.len() == 0 ==> source == Err::<SourceModel, SourceError>(
                SourceError::EmptyBucket,
            )
            &&& bucket.len() > 0 ==> alone == Ok::<SourceModel, SourceError>(
                SourceModel::S3 {
                    bucket,
                    prefix: Seq::empty(),
                    prefix_trailing_star: false,
                    region,
                    endpoint_url,
                    profile,
                },
            )
            &&& bucket.len() > 0 ==> {
                &&& source is Ok
                &&& source->Ok_0 is S3
                &&& source->Ok_0->bucket == bucket
                &&& source->Ok_0->prefix_trailing_star == star
                &&& source->Ok_0->region == region
                &&& source->Ok_0->endpoint_url == endpoint_url
                &&& source->Ok_0->profile == profile
                &&& source->Ok_0->prefix.len() <= end
                &&& source->Ok_0->prefix == key.take(source->Ok_0->prefix.len() as int)
                &&& source->Ok_0->prefix.len() > 0 ==> source->Ok_0->prefix[
                    source->Ok_0->prefix.len() - 1] != '/'
                &&& forall|j: int|
                    source->Ok_0->prefix.len() <= j < end ==> #[trigger] key[j] == '/'
            }
        }),
{
    reveal_strlit("s3://");
    let scheme = seq!['s', '3', ':', '/', '/'];
    assert(s3_scheme() =~= scheme);
    let alone = scheme + bucket;
    let raw = scheme + bucket + seq!['/'] + key;
    let rest = bucket + seq!['/'] + key;
    assert(alone.take(5) =~= s3_scheme());
    assert(alone.skip(5) =~= bucket);
    assert(raw.take(5) =~= s3_scheme());
    assert(raw.skip(5) =~= rest);
    lemma_first_behind(bucket, '/', key, 0);
    lemma_never_found(bucket, '/', 0);
    assert(bucket.take(bucket.len() as int) =~= bucket);
    assert(rest.take(bucket.len() as int) =~= bucket);
    assert(rest.skip(bucket.len() as int + 1) =~= key);
    assert(trimmed_end(Seq::empty(), '/') == Seq::<char>::empty());
    if key.len() == 1 {
        assert(key =~= seq![key[0]]);
    }
    let stem = if has_trailing_star(key) {
        key.drop_last()
    } else {
        key
    };
    law_trimmed_end_cuts_one_run(stem, '/');
    let prefix = trimmed_end(stem, '/');
    assert(stem.take(prefix.len() as int) =~= key.take(prefix.len() as int));
    assert forall|j: int| prefix.len() <= j < stem.len() implies #[trigger] key[j] == '/' by {
        assert(stem[j] == key[j]);
    }
}

/// A source with digits and another colon behind the first one has them as its
/// port, which has to be between 1 and 65535. Host and path must not be empty.
/// The user is all before the last `@`.
pub proof fn law_ssh_source_with_a_port(
    user: Option<Seq<char>>,
    host: Seq<char>,
    digits: Seq<char>,
    path: Seq<char>,
    region: Option<Seq<char>>,
    endpoint_url: Option<Seq<char>>,
    profile: Option<Seq<char>>,
)
    requires
        !host.contains('@'),
        !host.contains(':'),
        user is Some ==> !user->0.contains(':'),
        digits.len() > 0,
        forall|i: int| 0 <= i < digits.len() ==> '0' <= #[trigger] digits[i] <= '9',
    ensures
        ({
            let login = match user {
                Some(user) => user + seq!['@'] + host,
                None => host,
            };
            let raw = login + seq![':'] + digits + seq![':'] + path;
            let source = source_of(raw, region, endpoint_url, profile);
            let port = unsigned_value(digits, 65535);
            &&& host.len() == 0 ==> source == Err::<SourceModel, SourceError>(
                SourceError::EmptyHost,
            )
            &&& host.len() > 0 && (port is None || port == Some(0int)) ==> source == Err::<
                SourceModel,
                SourceError,
            >(SourceError::InvalidPort)
            &&& host.len() > 0 && port is Some && port->0 > 0 && path.len() == 0 ==> source
                == Err::<SourceModel, SourceError>(SourceError::EmptyPath)
            &&& host.len() > 0 && port is Some && port->0 > 0 && path.len() > 0 ==> source is Ok
                && source->Ok_0 is Ssh && source->Ok_0->user == user && source->Ok_0->host == host
                && source->Ok_0->port is Some && source->Ok_0->port->0 == port->0
                && source->Ok_0->Ssh_path == path
        }),
{
    let login = ssh_login(user, host);
    let place = digits + seq![':'] + path;
    let other_login = match user {
        Some(user) => user + seq!['@'] + host,
        None => host,
    };
    assert(other_login =~= login);
    let raw = login + seq![':'] + digits + seq![':'] + path;
    assert(raw =~= login + seq![':'] + place);
    lemma_ssh_source(user, host, place, region, endpoint_url, profile);
    if digits.contains(':') {
        let i = choose|i: int| 0 <= i < digits.len() && digits[i] == ':';
        assert('0' <= digits[i] <= '9');
    }
    lemma_first_behind(digits, ':', path, 0);
    assert(place.take(digits.len() as int) =~= digits);
    assert(place.skip(digits.len() as int + 1) =~= path);
    assert forall|i: int| 0 <= i < digits.len() implies is_digit(#[trigger] digits[i]) by {}
    assert(is_digits(digits));
    lemma_no_colon(user, host);
    assert(raw.take(login.len() as int) =~= login);
    lemma_not_s3(login, digits[0], raw);
}

/// Any other source with a colon has all behind the first one as its path, and
/// no port. Host and path must not be empty. What begins with `s3://` is an S3
/// source instead.
pub proof fn law_ssh_source_without_a_port(
    user: Option<Seq<char>>,
    host: Seq<char>,
    path: Seq<char>,
    region: Option<Seq<char>>,
    endpoint_url: Option<Seq<char>>,
    profile: Option<Seq<char>>,
)
    requires
        !host.contains('@'),
        !host.contains(':'),
        user is Some ==> !user->0.contains(':'),
        user is None && host == seq!['s', '3'] ==> path.len() < 2 || path[0] != '/' || path[1]
            != '/',
        forall|c: int|
            #![trigger path[c]]
            0 < c < path.len() && path[c] == ':' ==> exists|i: int|
                0 <= i < c && !('0' <= #[trigger] path[i] <= '9'),
    ensures
        ({
            let login = match user {
                Some(user) => user + seq!['@'] + host,
                None => host,
            };
            let source = source_of(
                login + seq![':'] + path,
                region,
                endpoint_url,
                profile,
            );
            &&& host.len() == 0 ==> source == Err::<SourceModel, SourceError>(
                SourceError::EmptyHost,
            )
            &&& host.len() > 0 && path.len() == 0 ==> source == Err::<SourceModel, SourceError>(
                SourceError::EmptyPath,
            )
            &&& host.len() > 0 && path.len() > 0 ==> source == Ok::<SourceModel, SourceError>(
                SourceModel::Ssh { user, host, port: None, path },
            )
        }),
{
    let login = ssh_login(user, host);
    let other_login = match user {
        Some(user) => user + seq!['@'] + host,
        None => host,
    };
    assert(other_login =~= login);
    let raw = login + seq![':'] + path;
    lemma_ssh_source(user, host, path, region, endpoint_url, profile);
    if has_port(path) {
        let colon = first_at(path, ':', 0);
        lemma_found_there(path, ':', 0);
        assert(path[colon] == ':');
        let i = choose|i: int| 0 <= i < colon && !('0' <= #[trigger] path[i] <= '9');
        assert(is_digit(path.take(colon)[i]));
    }
    reveal_strlit("s3://");
    if begins_with(raw, s3_scheme()) {
        let start = raw.take(5);
        assert(start[0] == 's' && start[1] == '3' && start[2] == ':' && start[3] == '/'
            && start[4] == '/');
        assert(raw[0] == 's' && raw[1] == '3' && raw[2] == ':' && raw[3] == '/' && raw[4] == '/');
        lemma_no_colon(user, host);
        if login.len() > 2 {
            assert(login.contains(login[2]));
        } else if login.len() < 2 {
            assert(raw[login.len() as int] == ':');
        }
        assert(login.len() == 2);
        assert(login =~= seq!['s', '3']);
        if user is Some {
            assert(login[user->0.len() as int] == '@');
        }
        assert(path[0] == raw[3] && path[1] == raw[4]);
    }
}

/// A source without any colon is a path on this machine, as it stands.
pub proof fn law_source_without_a_colon_is_local(
    raw: Seq<char>,
    region: Option<Seq<char>>,
    endpoint_url: Option<Seq<char>>,
    profile: Option<Seq<char>>,
)
    requires
        !raw.contains(':'),
    ensures
        source_of(raw, region, endpoint_url, profile) == Ok::<SourceModel, SourceError>(
            SourceModel::Local(raw),
        ),
{
    lemma_never_found(raw, ':', 0);
    reveal_strlit("s3://");
    if begins_with(raw, s3_scheme()) {
        assert(raw.take(5)[2] == ':');
        assert(raw.contains(raw[2]));
    }
}

/// Neither user nor host have a colon, so their address has none.
proof fn lemma_no_colon(user: Option<Seq<char>>, host: Seq<char>)
    requires
        !host.contains(':'),
        user is Some ==> !user->0.contains(':'),
    ensures
        !ssh_login(user, host).contains(':'),
{
    let login = ssh_login(user, host);
    if login.contains(':') {
        let i = choose|i: int| 0 <= i < login.len() && login[i] == ':';
        match user {
            Some(user) => {
                if i < user.len() {
                    assert(user.contains(user[i]));
                } else if i > user.len() {
                    assert(host.contains(host[i - user.len() - 1]));
                }
            },
            None => {
                assert(host.contains(host[i]));
            },
        }
    }
}

/// A source that is not an S3 source is read at its first colon and its last
/// `@` before that.
proof fn lemma_ssh_source(
    user: Option<Seq<char>>,
    host: Seq<char>,
    place: Seq<char>,
    region: Option<Seq<char>>,
    endpoint_url: Option<Seq<char>>,
    profile: Option<Seq<char>>,
)
    requires
        !host.contains('@'),
        !host.contains(':'),
        user is Some ==> !user->0.contains(':'),
    ensures
        ({
            let login = ssh_login(user, host);
            let raw = login + seq![':'] + place;
            let at = behind_last_at(login);
            &&& !begins_with(raw, s3_scheme()) ==> source_of(raw, region, endpoint_url, profile)
                == ssh_source(login, place)
            &&& login.skip(at) == host
            &&& user is None ==> at == 0
            &&& user is Some ==> at == user->0.len() + 1 && login.take(at - 1) == user->0
        }),
{
    let login = ssh_login(user, host);
    let raw = login + seq![':'] + place;
    lemma_no_colon(user, host);
    lemma_first_behind(login, ':', place, 0);
    assert(raw.take(login.len() as int) =~= login);
    assert(raw.skip(login.len() as int + 1) =~= place);
    let before_host = match user {
        Some(user) => user.push('@'),
        None => Seq::empty(),
    };
    assert(login =~= before_host + host);
    lemma_last_at_before(before_host, host);
    assert(login.skip(before_host.len() as int) =~= host);
    if let Some(user) = user {
        assert(login.take(user.len() as int) =~= user);
    }
}

/// An address with a digit behind its first colon is not an S3 source.
proof fn lemma_not_s3(login: Seq<char>, digit: char, raw: Seq<char>)
    requires
        raw.len() > login.len() + 1,
        raw.take(login.len() as int) == login,
        !login.contains(':'),
        raw[login.len() as int] == ':',
        raw[login.len() as int + 1] == digit,
        '0' <= digit <= '9',
    ensures
        !begins_with(raw, s3_scheme()),
{
    reveal_strlit("s3://");
    if begins_with(raw, s3_scheme()) {
        let start = raw.take(5);
        assert(start[0] == 's' && start[1] == '3' && start[2] == ':' && start[3] == '/');
        assert(raw[0] == 's' && raw[1] == '3' && raw[2] == ':' && raw[3] == '/');
        if login.len() > 2 {
            assert(login[2] == raw[2]);
            assert(login.contains(login[2]));
        }
    }
}

/// What does not occur is not found.
proof fn lemma_never_found(text: Seq<char>, c: char, from: int)
    requires
        !text.contains(c),
        0 <= from <= text.len(),
    ensures
        first_at(text, c, from) == text.len(),
    decreases text.len() - from,
{
    if from < text.len() {
        assert(text.contains(text[from]));
        lemma_never_found(text, c, from + 1);
    }
}

/// What is found is there.
proof fn lemma_found_there(text: Seq<char>, c: char, from: int)
    requires
        0 <= from <= text.len(),
    ensures
        from <= first_at(text, c, from) <= text.len(),
        first_at(text, c, from) < text.len() ==> text[first_at(text, c, from)] == c,
    decreases text.len() - from,
{
    if from < text.len() && text[from] != c {
        lemma_found_there(text, c, from + 1);
    }
}

/// The separator behind a name that does not contain it is the first one.
proof fn lemma_first_behind(name: Seq<char>, separator: char, rest: Seq<char>, from: int)
    requires
        !name.contains(separator),
        0 <= from <= name.len(),
    ensures
        first_at(name + seq![separator] + rest, separator, from) == name.len(),
    decreases name.len() - from,
{
    let all = name + seq![separator] + rest;
    if from < name.len() {
        assert(all[from] == name[from]);
        assert(name.contains(name[from]));
        lemma_first_behind(name, separator, rest, from + 1);
    }
}

/// A host without an `@` begins behind the last one.
proof fn lemma_last_at_before(before: Seq<char>, host: Seq<char>)
    requires
        !host.contains('@'),
    ensures
        behind_last_at(before + host) == behind_last_at(before),
    decreases host.len(),
{
    if host.len() > 0 {
        assert(host.contains(host.last()));
        assert forall|i: int| 0 <= i < host.drop_last().len() implies host.drop_last()[i]
            != '@' by {
            assert(host.contains(host[i]));
        }
        lemma_last_at_before(before, host.drop_last());
        assert((before + host).drop_last() =~= before + host.drop_last());
        assert((before + host).last() == host.last());
    } else {
        assert(before + host =~= before);
    }
}

/// What kind of thing an entry is.
#[derive(Clone, Copy, Debug, PartialEq, Eq, Structural)]
pub enum EntryKind {
    File,
    Dir,
    Symlink,
}

/// Something found in a source.
#[derive(Debug)]
pub struct RemoteEntry {
    pub relative_path: String,
    pub kind: EntryKind,
    pub size: u64,
    pub mtime_secs: i64,
    pub mode: u32,
    pub uid: Option<u32>,
    pub gid: Option<u32>,
    pub link_target: Option<String>,
}

/// `RemoteEntry` as mathematical values.
#[verifier::ext_equal]
pub struct EntryModel {
    pub relative_path: Seq<char>,
    pub kind: EntryKind,
    pub size: u64,
    pub mtime_secs: i64,
    pub mode: u32,
    pub uid: Option<u32>,
    pub gid: Option<u32>,
    pub link_target: Option<Seq<char>>,
}

impl View for RemoteEntry {
    type V = EntryModel;

    open spec fn view(&self) -> EntryModel {
        EntryModel {
            relative_path: self.relative_path@,
            kind: self.kind,
            size: self.size,
            mtime_secs: self.mtime_secs,
            mode: self.mode,
            uid: self.uid,
            gid: self.gid,
            link_target: optional_text(self.link_target),
        }
    }
}

/// Size and modification time of a remote file.
#[derive(Clone, Copy, Debug, PartialEq, Eq, Structural)]
pub struct RemoteFileStat {
    pub size: u64,
    pub mtime_secs: i64,
}

/// Whether a path component that leads up begins at position `i`.
pub open spec fn leads_up_at(path: Seq<char>, i: int) -> bool {
    &&& 0 <= i && i + 2 <= path.len()
    &&& path[i] == '.' && path[i + 1] == '.'
    &&& i == 0 || path[i - 1] == '/'
    &&& i + 2 == path.len() || path[i + 2] == '/'
}

/// Whether a path stays below the directory that it is taken from: it names
/// something, does not begin at the root, and has no component `..`.
pub open spec fn stays_below(path: Seq<char>) -> bool {
    &&& path.len() > 0
    &&& path[0] != '/'
    &&& forall|i: int| !#[trigger] leads_up_at(path, i)
}

/// Whether the file at the destination, last modified at `local_mtime_secs`, is
/// newer than one that was last modified at `mtime_secs`.
pub open spec fn is_newer(local_mtime_secs: Option<i64>, mtime_secs: i64) -> bool {
    local_mtime_secs is Some && local_mtime_secs->0 > mtime_secs
}

/// Of two different times exactly one is newer than the other, the later one,
/// no time is newer than itself, and a file that is not there is never newer.
pub proof fn law_newer_is_later(a: i64, b: i64, c: i64)
    ensures
        !is_newer(None, a),
        !is_newer(Some(a), a),
        a < b ==> is_newer(Some(b), a) && !is_newer(Some(a), b),
        is_newer(Some(b), a) && c >= b ==> is_newer(Some(c), a),
{
}

/// A path is refused if it has a component `..`, wherever it stands, if it
/// begins at the root, or if it is empty.
pub proof fn law_paths_that_lead_out_are_refused(before: Seq<char>, after: Seq<char>)
    requires
        before.len() > 0 ==> before[before.len() - 1] == '/',
        after.len() > 0 ==> after[0] == '/',
    ensures
        !stays_below(before + seq!['.', '.'] + after),
        !stays_below(seq!['/'] + after),
        !stays_below(Seq::empty()),
{
    let path = before + seq!['.', '.'] + after;
    assert(leads_up_at(path, before.len() as int));
}

/// Every other path is let through, whatever else it has in it.
pub proof fn law_other_paths_are_let_through(path: Seq<char>)
    requires
        path.len() > 0,
        path[0] != '/',
        forall|i: int, j: int|
            0 <= i && j == i + 2 && j <= path.len() && (i == 0 || path[i - 1] == '/') && (j
                == path.len() || path[j] == '/') ==> #[trigger] path.subrange(i, j) != seq![
                '.',
                '.',
            ],
    ensures
        stays_below(path),
{
    assert forall|i: int| !#[trigger] leads_up_at(path, i) by {
        if leads_up_at(path, i) {
            assert(path.subrange(i, i + 2) =~= seq!['.', '.']);
        }
    }
}

impl RemoteEntry {
    /// Whether the entry may be written below the destination.
    pub fn has_safe_path(&self) -> (safe: bool)
        ensures
            safe == stays_below(self.relative_path@),
    {
        let chars = chars_of(self.relative_path.as_str());
        if chars.len() == 0 || chars[0] == '/' {
            return false;
        }
        let mut i: usize = 0;
        while i < chars.len() - 1
            invariant
                chars@ == self.relative_path@,
                i < chars@.len(),
                forall|j: int| 0 <= j < i ==> !#[trigger] leads_up_at(chars@, j),
            decreases chars@.len() - i,
        {
            if chars[i] == '.' && chars[i + 1] == '.' && (i == 0 || chars[i - 1] == '/') && (i
                == chars.len() - 2 || chars[i + 2] == '/') {
                proof {
                    assert(leads_up_at(chars@, i as int));
                }
                return false;
            }
            i = i + 1;
        }
        true
    }

    /// Whether the entry is left alone because the file at the destination,
    /// last modified at `local_mtime_secs`, is newer.
    pub fn is_older_than(&self, local_mtime_secs: Option<i64>) -> (older: bool)
        ensures
            older == is_newer(local_mtime_secs, self.mtime_secs),
            older == (local_mtime_secs is Some && local_mtime_secs->0 > self.mtime_secs),
    {
        match local_mtime_secs {
            Some(secs) => secs > self.mtime_secs,
            None => false,
        }
    }
}

/// The model of an entry holds all of its fields, unchanged.
pub proof fn law_entry_is_seen_in_full(entry: RemoteEntry)
    ensures
        entry@.relative_path == entry.relative_path@,
        entry@.kind == entry.kind,
        entry@.size == entry.size,
        entry@.mtime_secs == entry.mtime_secs,
        entry@.mode == entry.mode,
        entry@.uid == entry.uid,
        entry@.gid == entry.gid,
        entry.link_target is None <==> entry@.link_target is None,
        entry.link_target is Some ==> entry@.link_target->0 == entry.link_target->0@,
{
}

/// The model of a source holds all of its fields, unchanged.
pub proof fn law_source_is_seen_in_full(source: SourceSpec)
    ensures
        source matches SourceSpec::Local(path) ==> source@ == SourceModel::Local(path@),
        source matches SourceSpec::S3(spec) ==> source@ is S3 && source@->bucket == spec.bucket@
            && source@->prefix == spec.prefix@ && source@->prefix_trailing_star
            == spec.prefix_trailing_star && (spec.region is Some <==> source@->region is Some)
            && (spec.region is Some ==> source@->region->0 == spec.region->0@) && (
        spec.endpoint_url is Some <==> source@->endpoint_url is Some) && (spec.endpoint_url is Some
            ==> source@->endpoint_url->0 == spec.endpoint_url->0@) && (spec.profile is Some
            <==> source@->profile is Some) && (spec.profile is Some ==> source@->profile->0
            == spec.profile->0@),
        source matches SourceSpec::Ssh(spec) ==> source@ is Ssh && source@->host == spec.host@
            && source@->Ssh_path == spec.path@ && source@->port == spec.port && (spec.user is Some
            <==> source@->user is Some) && (spec.user is Some ==> source@->user->0
            == spec.user->0@),
{
}

} // verus!
