//! Sources in S3: keys and paths, listings, and what is asked of the service.
use vstd::prelude::*;
use vstd::string::StringExecFns;

use crate::numerals::{decimal, push_decimal};
use crate::remote::{
    optional_text, EntryKind, EntryModel, RemoteEntry, RemoteFileStat, S3Spec,
};
use crate::text::{
    begins_with, chars_of, has_prefix, law_trimmed_end_cuts_one_run, string_of, trim_end,
    trimmed_end,
};

verus! {

/// Permissions reported for an object.
pub const FILE_MODE: u32 = 0o644;

/// Permissions reported for a common prefix.
pub const DIR_MODE: u32 = 0o755;

/// A prefix in a bucket, as a place to pull from.
#[derive(Debug)]
pub struct S3Remote {
    pub bucket: String,
    pub prefix: String,
    pub prefix_trailing_star: bool,
}

/// Why an S3 source cannot be used.
#[derive(Debug)]
pub enum S3Error {
    /// The service does not let us into the bucket, or there is none.
    BucketNotAccessible { bucket: String },
}

/// What is asked of the service to list a page of objects.
#[derive(Debug)]
pub struct ListRequest {
    pub bucket: String,
    pub prefix: String,
    pub delimiter: Option<String>,
    pub continuation_token: Option<String>,
}

/// What is asked of the service to read a part of an object.
#[derive(Debug)]
pub struct RangeRequest {
    pub bucket: String,
    pub key: String,
    pub range: String,
}

/// What is asked of the service to find out about an object.
#[derive(Debug)]
pub struct HeadRequest {
    pub bucket: String,
    pub key: String,
}

/// An object as the service lists it.
#[derive(Debug)]
pub struct ListedObject {
    pub key: Option<String>,
    pub size: Option<i64>,
    pub last_modified_secs: Option<i64>,
}

/// One page of a listing, as the service answers it.
#[derive(Debug)]
pub struct ListPage {
    pub objects: Vec<ListedObject>,
    pub common_prefixes: Vec<Option<String>>,
    pub is_truncated: Option<bool>,
    pub next_continuation_token: Option<String>,
}

/// A listing under way.
#[derive(Debug)]
pub struct Listing {
    /// What has been found so far.
    pub entries: Vec<RemoteEntry>,
    /// Where the next page begins.
    pub continuation_token: Option<String>,
    /// Whether the last page has been seen.
    pub done: bool,
}

/// The prefix of all keys below `prefix`, as a directory has it.
pub open spec fn listing_prefix_of(prefix: Seq<char>) -> Seq<char> {
    if prefix.len() == 0 {
        Seq::empty()
    } else {
        prefix.push('/')
    }
}

/// The path of `key` below `prefix`; the whole key if it lies elsewhere.
pub open spec fn relative_path_of(prefix: Seq<char>, key: Seq<char>) -> Seq<char> {
    let stripped = listing_prefix_of(prefix);
    if begins_with(key, stripped) {
        key.skip(stripped.len() as int)
    } else {
        key
    }
}

/// The key of a path below `prefix`.
pub open spec fn full_key_of(prefix: Seq<char>, relative_path: Seq<char>) -> Seq<char> {
    listing_prefix_of(prefix) + relative_path
}

/// A size as it is listed, read as an unsigned number.
pub open spec fn listed_size(size: Option<i64>) -> int {
    match size {
        Some(size) => if size >= 0 {
            size as int
        } else {
            size + 0x1_0000_0000_0000_0000
        },
        None => 0,
    }
}

/// A time as it is listed; the epoch where there is none.
pub open spec fn listed_time(last_modified_secs: Option<i64>) -> i64 {
    match last_modified_secs {
        Some(secs) => secs,
        None => 0,
    }
}

/// Size and time of a file, as they are told: a size that is missing or
/// negative counts as none.
pub open spec fn stat_of(
    content_length: Option<i64>,
    last_modified_secs: Option<i64>,
) -> RemoteFileStat {
    RemoteFileStat {
        size: match content_length {
            Some(length) => if length > 0 {
                length as u64
            } else {
                0
            },
            None => 0,
        },
        mtime_secs: listed_time(last_modified_secs),
    }
}

/// How the range of `len` bytes from `offset` on is named.
pub open spec fn range_text(offset: int, len: int) -> Seq<char> {
    "bytes="@ + decimal(offset) + "-"@ + decimal(offset + len - 1)
}

/// The entry that an object makes: none if its key is a directory marker or
/// the listing prefix itself.
pub open spec fn file_entry(prefix: Seq<char>, object: ListedObject) -> Option<EntryModel> {
    let key = match object.key {
        Some(key) => key@,
        None => Seq::empty(),
    };
    let relative_path = relative_path_of(prefix, key);
    if (key.len() > 0 && key.last() == '/') || relative_path.len() == 0 {
        None
    } else {
        Some(
            EntryModel {
                relative_path,
                kind: EntryKind::File,
                size: listed_size(object.size) as u64,
                mtime_secs: listed_time(object.last_modified_secs),
                mode: FILE_MODE,
                uid: None,
                gid: None,
                link_target: None,
            },
        )
    }
}

/// The entry that a common prefix makes: none if there is no such prefix, or
/// nothing is left of it.
pub open spec fn dir_entry(prefix: Seq<char>, common_prefix: Option<String>) -> Option<EntryModel> {
    match common_prefix {
        None => None,
        Some(found) => {
            let relative_path = relative_path_of(prefix, trimmed_end(found@, '/'));
            if relative_path.len() == 0 {
                None
            } else {
                Some(
                    EntryModel {
                        relative_path,
                        kind: EntryKind::Dir,
                        size: 0,
                        mtime_secs: 0,
                        mode: DIR_MODE,
                        uid: None,
                        gid: None,
                        link_target: None,
                    },
                )
            }
        },
    }
}

/// `entries` and then `found`, if there is one.
pub open spec fn with_found(entries: Seq<EntryModel>, found: Option<EntryModel>) -> Seq<EntryModel> {
    match found {
        Some(entry) => entries.push(entry),
        None => entries,
    }
}

/// The entries that the objects make, in order.
pub open spec fn file_entries(prefix: Seq<char>, objects: Seq<ListedObject>) -> Seq<EntryModel>
    decreases objects.len(),
{
    if objects.len() == 0 {
        Seq::empty()
    } else {
        with_found(
            file_entries(prefix, objects.drop_last()),
            file_entry(prefix, objects.last()),
        )
    }
}

/// The entries that the common prefixes make, in order.
pub open spec fn dir_entries(
    prefix: Seq<char>,
    common_prefixes: Seq<Option<String>>,
) -> Seq<EntryModel>
    decreases common_prefixes.len(),
{
    if common_prefixes.len() == 0 {
        Seq::empty()
    } else {
        with_found(
            dir_entries(prefix, common_prefixes.drop_last()),
            dir_entry(prefix, common_prefixes.last()),
        )
    }
}

/// The entries that a page makes: its objects, and behind them, unless the
/// listing goes into directories, its common prefixes.
pub open spec fn page_entries(prefix: Seq<char>, recursive: bool, page: ListPage) -> Seq<
    EntryModel,
> {
    file_entries(prefix, page.objects@) + if recursive {
        Seq::empty()
    } else {
        dir_entries(prefix, page.common_prefixes@)
    }
}

/// A list of entries as mathematical values.
pub open spec fn entry_models(entries: Seq<RemoteEntry>) -> Seq<EntryModel> {
    Seq::new(entries.len(), |i: int| entries[i]@)
}

/// `ListRequest` as mathematical values.
#[verifier::ext_equal]
pub struct RequestModel {
    pub bucket: Seq<char>,
    pub prefix: Seq<char>,
    pub delimiter: Option<Seq<char>>,
    pub continuation_token: Option<Seq<char>>,
}

impl View for ListRequest {
    type V = RequestModel;

    open spec fn view(&self) -> RequestModel {
        RequestModel {
            bucket: self.bucket@,
            prefix: self.prefix@,
            delimiter: optional_text(self.delimiter),
            continuation_token: optional_text(self.continuation_token),
        }
    }
}

/// `Listing` as mathematical values.
#[verifier::ext_equal]
pub struct ListingModel {
    pub entries: Seq<EntryModel>,
    pub continuation_token: Option<Seq<char>>,
    pub done: bool,
}

impl View for Listing {
    type V = ListingModel;

    open spec fn view(&self) -> ListingModel {
        ListingModel {
            entries: entry_models(self.entries@),
            continuation_token: optional_text(self.continuation_token),
            done: self.done,
        }
    }
}

/// What is asked for the page that begins at `continuation_token`.
pub open spec fn page_request(
    bucket: Seq<char>,
    prefix: Seq<char>,
    recursive: bool,
    continuation_token: Option<Seq<char>>,
) -> RequestModel {
    RequestModel {
        bucket,
        prefix: listing_prefix_of(prefix),
        delimiter: if recursive {
            None
        } else {
            Some("/"@)
        },
        continuation_token,
    }
}

impl ListingModel {
    /// The listing once `page` has been taken in.
    pub open spec fn with_page(
        self,
        prefix: Seq<char>,
        recursive: bool,
        page: ListPage,
    ) -> ListingModel {
        ListingModel {
            entries: self.entries + page_entries(prefix, recursive, page),
            continuation_token: if page.is_truncated == Some(true) {
                optional_text(page.next_continuation_token)
            } else {
                self.continuation_token
            },
            done: page.is_truncated != Some(true),
        }
    }
}

/// A copy of a text.
fn copy_of(text: &String) -> (copy: String)
    ensures
        copy@ == text@,
{
    text.clone()
}

/// Reads a signed size as an unsigned number, bit for bit.
fn unsigned_size(size: Option<i64>) -> (value: u64)
    ensures
        value == listed_size(size),
{
    match size {
        Some(size) => {
            let value: u64 = size as u64;
            proof {
                assert(size >= 0 ==> value == size) by (bit_vector)
                    requires
                        value == size as u64,
                ;
                assert(size < 0 ==> value == size + 0x1_0000_0000_0000_0000) by (bit_vector)
                    requires
                        value == size as u64,
                ;
            }
            value
        },
        None => 0,
    }
}

impl S3Spec {
    /// Whether buckets are named in the path of a request rather than in the
    /// host name: with an endpoint of one's own they are.
    pub fn force_path_style(&self) -> (force: bool)
        ensures
            force == (self.endpoint_url is Some),
    {
        self.endpoint_url.is_some()
    }
}

impl S3Error {
    /// What to tell the user.
    pub fn message(&self) -> (text: String)
        ensures
            match self {
                S3Error::BucketNotAccessible { bucket } => text@ == "S3 bucket '"@ + bucket@
                    + "' is not accessible"@,
            },
    {
        match self {
            S3Error::BucketNotAccessible { bucket } => {
                let mut text = "S3 bucket '".to_owned();
                text.append(bucket.as_str());
                text.append("' is not accessible");
                text
            },
        }
    }
}

impl S3Remote {
    /// A place to pull from, once the service has been asked for the bucket.
    pub fn connect(spec: S3Spec, bucket_accessible: bool) -> (remote: Result<S3Remote, S3Error>)
        ensures
            match remote {
                Ok(remote) => {
                    &&& bucket_accessible
                    &&& remote.bucket@ == spec.bucket@
                    &&& remote.prefix@ == spec.prefix@
                    &&& remote.prefix_trailing_star == spec.prefix_trailing_star
                },
                Err(S3Error::BucketNotAccessible { bucket }) => {
                    !bucket_accessible && bucket@ == spec.bucket@
                },
            },
    {
        if bucket_accessible {
            Ok(
                S3Remote {
                    bucket: spec.bucket,
                    prefix: spec.prefix,
                    prefix_trailing_star: spec.prefix_trailing_star,
                },
            )
        } else {
            Err(S3Error::BucketNotAccessible { bucket: spec.bucket })
        }
    }

    /// Block-level transfers need ranged reads and nothing more, which S3 has.
    pub fn supports_block_delta(&self) -> (supported: bool)
        ensures
            supported,
    {
        true
    }

    /// The prefix of all keys to list, with a slash at the end as a directory
    /// has it.
    pub fn listing_prefix(&self) -> (prefix: String)
        ensures
            prefix@ == listing_prefix_of(self.prefix@),
            self.prefix@.len() == 0 ==> prefix@.len() == 0,
            self.prefix@.len() > 0 ==> prefix@ == self.prefix@ + seq!['/'],
    {
        let mut prefix = copy_of(&self.prefix);
        if !self.prefix.as_str().is_empty() {
            prefix.push('/');
        }
        proof {
            assert(self.prefix@.len() == 0 ==> prefix@ =~= Seq::empty());
        }
        prefix
    }

    /// The path of a key below the listing prefix.
    pub fn relative_path(&self, key: &str) -> (path: String)
        ensures
            path@ == relative_path_of(self.prefix@, key@),
            self.prefix@.len() == 0 ==> path@ == key@,
            self.prefix@.len() > 0 ==> path@ == (if begins_with(key@, self.prefix@ + seq!['/']) {
                key@.skip(self.prefix@.len() as int + 1)
            } else {
                key@
            }),
    {
        let chars = chars_of(key);
        proof {
            assert(chars@.take(chars@.len() as int) =~= chars@);
            assert(self.prefix@.push('/') =~= self.prefix@ + seq!['/']);
            assert(key@.skip(0) =~= key@);
        }
        self.relative_part(&chars, chars.len())
    }

    /// The path of the key `chars[..end]` below the listing prefix.
    fn relative_part(&self, chars: &Vec<char>, end: usize) -> (path: String)
        requires
            end <= chars@.len(),
        ensures
            path@ == relative_path_of(self.prefix@, chars@.take(end as int)),
    {
        let prefix = chars_of(self.listing_prefix().as_str());
        let ghost key = chars@.take(end as int);
        let start: usize = if prefix.len() <= end && has_prefix(chars, &prefix) {
            prefix.len()
        } else {
            0
        };
        proof {
            if prefix@.len() <= end {
                assert(key.take(prefix@.len() as int) =~= chars@.take(prefix@.len() as int));
            }
            assert(chars@.subrange(start as int, end as int) =~= key.skip(start as int));
            assert(key.skip(0) =~= key);
        }
        string_of(chars, start, end)
    }

    /// The key of a path below the prefix.
    pub fn full_key(&self, relative_path: &str) -> (key: String)
        ensures
            key@ == full_key_of(self.prefix@, relative_path@),
            self.prefix@.len() == 0 ==> key@ == relative_path@,
            self.prefix@.len() > 0 ==> key@ == self.prefix@ + seq!['/'] + relative_path@,
    {
        proof {
            law_keys_have_one_slash_behind_the_prefix(self.prefix@, relative_path@);
        }
        let mut key = self.listing_prefix();
        key.append(relative_path);
        key
    }

    /// What to ask for the next page of a listing. A listing that does not go
    /// into directories has everything behind the next slash folded together.
    pub fn list_request(&self, recursive: bool, listing: &Listing) -> (request: ListRequest)
        ensures
            request@ == page_request(
                self.bucket@,
                self.prefix@,
                recursive,
                listing@.continuation_token,
            ),
            request.bucket@ == self.bucket@,
            self.prefix@.len() == 0 ==> request.prefix@.len() == 0,
            self.prefix@.len() > 0 ==> request.prefix@ == self.prefix@ + seq!['/'],
            request.delimiter is None <==> recursive,
            !recursive ==> request.delimiter->0@ == "/"@,
            optional_text(request.continuation_token) == optional_text(
                listing.continuation_token,
            ),
    {
        let delimiter = if recursive {
            None
        } else {
            Some("/".to_owned())
        };
        let continuation_token = match &listing.continuation_token {
            Some(token) => Some(copy_of(token)),
            None => None,
        };
        ListRequest {
            bucket: copy_of(&self.bucket),
            prefix: self.listing_prefix(),
            delimiter,
            continuation_token,
        }
    }

    /// Takes in one page of a listing: its entries are added, and the listing
    /// goes on where the service says, or is done if nothing was left out. The
    /// number of entries found so far is returned.
    pub fn list_entries_with_progress(
        &self,
        recursive: bool,
        listing: &mut Listing,
        page: ListPage,
    ) -> (found: usize)
        ensures
            entry_models(final(listing).entries@) == entry_models(old(listing).entries@)
                + page_entries(self.prefix@, recursive, page),
            final(listing).done == (page.is_truncated != Some(true)),
            final(listing).continuation_token == if page.is_truncated == Some(true) {
                page.next_continuation_token
            } else {
                old(listing).continuation_token
            },
            final(listing)@ == old(listing)@.with_page(self.prefix@, recursive, page),
            found == final(listing).entries@.len(),
    {
        let ghost before = entry_models(listing.entries@);
        let ghost token = listing.continuation_token;
        let mut i: usize = 0;
        while i < page.objects.len()
            invariant
                i <= page.objects@.len(),
                listing.continuation_token == token,
                entry_models(listing.entries@) == before + file_entries(
                    self.prefix@,
                    page.objects@.take(i as int),
                ),
            decreases page.objects@.len() - i,
        {
            let ghost sofar = listing.entries@;
            let ghost earlier = page.objects@.take(i as int);
            proof {
                assert(page.objects@.take(i + 1).drop_last() =~= earlier);
                assert(page.objects@.take(i + 1).last() == page.objects@[i as int]);
            }
            let found = self.object_entry(&page.objects[i]);
            if let Some(entry) = found {
                listing.entries.push(entry);
                proof {
                    assert(entry_models(listing.entries@) =~= entry_models(sofar).push(entry@));
                    assert(entry_models(sofar).push(entry@) =~= before + file_entries(
                        self.prefix@,
                        earlier,
                    ).push(entry@));
                }
            }
            i = i + 1;
        }
        proof {
            assert(page.objects@.take(i as int) =~= page.objects@);
        }
        let ghost files = file_entries(self.prefix@, page.objects@);
        if !recursive {
            let mut j: usize = 0;
            proof {
                assert(before + files =~= before + (files + dir_entries(
                    self.prefix@,
                    page.common_prefixes@.take(0),
                )));
            }
            while j < page.common_prefixes.len()
                invariant
                    j <= page.common_prefixes@.len(),
                    listing.continuation_token == token,
                    entry_models(listing.entries@) == before + (files + dir_entries(
                        self.prefix@,
                        page.common_prefixes@.take(j as int),
                    )),
                decreases page.common_prefixes@.len() - j,
            {
                let ghost sofar = listing.entries@;
                let ghost earlier = page.common_prefixes@.take(j as int);
                proof {
                    assert(page.common_prefixes@.take(j + 1).drop_last() =~= earlier);
                    assert(page.common_prefixes@.take(j + 1).last()
                        == page.common_prefixes@[j as int]);
                }
                let found = self.prefix_entry(&page.common_prefixes[j]);
                if let Some(entry) = found {
                    listing.entries.push(entry);
                    proof {
                        assert(entry_models(listing.entries@) =~= entry_models(sofar).push(
                            entry@,
                        ));
                        assert(entry_models(sofar).push(entry@) =~= before + (files
                            + dir_entries(self.prefix@, earlier).push(entry@)));
                    }
                }
                j = j + 1;
            }
            proof {
                assert(page.common_prefixes@.take(j as int) =~= page.common_prefixes@);
            }
        } else {
            proof {
                assert(files + Seq::<EntryModel>::empty() =~= files);
            }
        }
        match page.is_truncated {
            Some(true) => {
                listing.continuation_token = page.next_continuation_token;
                listing.done = false;
            },
            _ => {
                listing.done = true;
            },
        }
        listing.entries.len()
    }

    /// The entry that an object makes.
    fn object_entry(&self, object: &ListedObject) -> (entry: Option<RemoteEntry>)
        ensures
            match entry {
                Some(entry) => file_entry(self.prefix@, *object) == Some(entry@),
                None => file_entry(self.prefix@, *object) is None,
            },
    {
        let key = match &object.key {
            Some(key) => chars_of(key.as_str()),
            None => Vec::new(),
        };
        if key.len() > 0 && key[key.len() - 1] == '/' {
            return None;
        }
        proof {
            assert(key@.take(key@.len() as int) =~= key@);
        }
        let relative_path = self.relative_part(&key, key.len());
        if relative_path.as_str().is_empty() {
            return None;
        }
        let mtime_secs: i64 = match object.last_modified_secs {
            Some(secs) => secs,
            None => 0,
        };
        Some(
            RemoteEntry {
                relative_path,
                kind: EntryKind::File,
                size: unsigned_size(object.size),
                mtime_secs,
                mode: FILE_MODE,
                uid: None,
                gid: None,
                link_target: None,
            },
        )
    }

    /// The entry that a common prefix makes.
    fn prefix_entry(&self, common_prefix: &Option<String>) -> (entry: Option<RemoteEntry>)
        ensures
            match entry {
                Some(entry) => dir_entry(self.prefix@, *common_prefix) == Some(entry@),
                None => dir_entry(self.prefix@, *common_prefix) is None,
            },
    {
        match common_prefix {
            None => None,
            Some(found) => {
                let chars = chars_of(found.as_str());
                let end: usize = trim_end(&chars, 0, chars.len(), '/');
                proof {
                    assert(chars@.subrange(0, chars@.len() as int) =~= chars@);
                    assert(chars@.subrange(0, end as int) =~= chars@.take(end as int));
                }
                let relative_path = self.relative_part(&chars, end);
                if relative_path.as_str().is_empty() {
                    return None;
                }
                Some(
                    RemoteEntry {
                        relative_path,
                        kind: EntryKind::Dir,
                        size: 0,
                        mtime_secs: 0,
                        mode: DIR_MODE,
                        uid: None,
                        gid: None,
                        link_target: None,
                    },
                )
            },
        }
    }

    /// What to ask for `len` bytes of a file from `offset` on: both ends of the
    /// range are named, the last byte included.
    pub fn range_request(&self, relative_path: &str, offset: u64, len: u64) -> (request:
        RangeRequest)
        requires
            0 < offset + len <= u64::MAX,
        ensures
            request.bucket@ == self.bucket@,
            request.key@ == full_key_of(self.prefix@, relative_path@),
            self.prefix@.len() == 0 ==> request.key@ == relative_path@,
            self.prefix@.len() > 0 ==> request.key@ == self.prefix@ + seq!['/'] + relative_path@,
            request.range@ == range_text(offset as int, len as int),
            request.range@ == "bytes="@ + decimal(offset as int) + "-"@ + decimal(
                offset + len - 1,
            ),
    {
        let mut range = "bytes=".to_owned();
        push_decimal(&mut range, offset);
        range.append("-");
        push_decimal(&mut range, offset + len - 1);
        RangeRequest { bucket: copy_of(&self.bucket), key: self.full_key(relative_path), range }
    }

    /// What to ask for the size and time of a file.
    pub fn head_request(&self, relative_path: &str) -> (request: HeadRequest)
        ensures
            request.bucket@ == self.bucket@,
            request.key@ == full_key_of(self.prefix@, relative_path@),
            self.prefix@.len() == 0 ==> request.key@ == relative_path@,
            self.prefix@.len() > 0 ==> request.key@ == self.prefix@ + seq!['/'] + relative_path@,
    {
        HeadRequest { bucket: copy_of(&self.bucket), key: self.full_key(relative_path) }
    }

    /// Size and time of a file, as the service tells them: a size that is
    /// missing or negative counts as none, a missing time as the epoch.
    pub fn file_stat(content_length: Option<i64>, last_modified_secs: Option<i64>) -> (stat:
        RemoteFileStat)
        ensures
            stat.size == (match content_length {
                Some(length) if length > 0 => length as int,
                _ => 0,
            }),
            stat.mtime_secs == listed_time(last_modified_secs),
            stat == stat_of(content_length, last_modified_secs),
            last_modified_secs matches Some(secs) ==> stat.mtime_secs == secs,
            last_modified_secs is None ==> stat.mtime_secs == 0,
    {
        let size: u64 = match content_length {
            Some(length) if length > 0 => length as u64,
            _ => 0,
        };
        let mtime_secs: i64 = match last_modified_secs {
            Some(secs) => secs,
            None => 0,
        };
        RemoteFileStat { size, mtime_secs }
    }
}

impl Listing {
    /// A listing of which no page has been seen.
    pub fn new() -> (listing: Listing)
        ensures
            listing@ == (ListingModel {
                entries: Seq::empty(),
                continuation_token: None,
                done: false,
            }),
    {
        Listing { entries: Vec::new(), continuation_token: None, done: false }
    }
}

/// All keys below a prefix begin with it and one slash, whatever characters the
/// prefix has: the key of a path is the prefix, the slash and the path. Without
/// a prefix the key is the path.
pub proof fn law_keys_have_one_slash_behind_the_prefix(prefix: Seq<char>, path: Seq<char>)
    ensures
        prefix.len() > 0 ==> listing_prefix_of(prefix) == prefix + seq!['/'],
        prefix.len() > 0 ==> full_key_of(prefix, path) == prefix + seq!['/'] + path,
        prefix.len() == 0 ==> listing_prefix_of(prefix) == Seq::<char>::empty(),
        prefix.len() == 0 ==> full_key_of(prefix, path) == path,
{
    if prefix.len() > 0 {
        assert(prefix.push('/') =~= prefix + seq!['/']);
    } else {
        assert(full_key_of(prefix, path) =~= path);
    }
}

/// The path of a key is what follows the prefix and one slash. A key that does
/// not begin with both is its own path, and so is every key if there is no
/// prefix.
pub proof fn law_paths_follow_the_prefix_and_a_slash(
    prefix: Seq<char>,
    path: Seq<char>,
    key: Seq<char>,
)
    ensures
        prefix.len() > 0 ==> relative_path_of(prefix, prefix + seq!['/'] + path) == path,
        prefix.len() > 0 && (key.len() <= prefix.len() || key.take(prefix.len() as int) != prefix
            || key[prefix.len() as int] != '/') ==> relative_path_of(prefix, key) == key,
        prefix.len() == 0 ==> relative_path_of(prefix, key) == key,
{
    let whole = prefix + seq!['/'] + path;
    let stripped = listing_prefix_of(prefix);
    if prefix.len() > 0 {
        assert(whole.take(stripped.len() as int) =~= stripped);
        assert(whole.skip(stripped.len() as int) =~= path);
        if begins_with(key, stripped) {
            assert(key.take(prefix.len() as int) =~= prefix) by {
                assert forall|i: int| 0 <= i < prefix.len() implies key[i] == prefix[i] by {
                    assert(key.take(stripped.len() as int)[i] == stripped[i]);
                }
            }
            assert(key.take(stripped.len() as int)[prefix.len() as int] == '/');
        }
    } else {
        assert(key.skip(0) =~= key);
    }
}

/// What the service tells of a file is reported as it is: a positive size and
/// any time exactly, a size that is missing or negative as zero, a missing time
/// as the epoch.
pub proof fn law_stat_is_what_the_service_tells(
    content_length: Option<i64>,
    last_modified_secs: Option<i64>,
)
    ensures
        ({
            let stat = stat_of(content_length, last_modified_secs);
            &&& content_length matches Some(length) ==> (length >= 0 ==> stat.size == length)
            &&& content_length matches Some(length) ==> (length < 0 ==> stat.size == 0)
            &&& content_length is None ==> stat.size == 0
            &&& last_modified_secs matches Some(secs) ==> stat.mtime_secs == secs
            &&& last_modified_secs is None ==> stat.mtime_secs == 0
        }),
{
}

/// A range is named by its first and its last byte, both in decimal.
pub proof fn law_range_names_its_first_and_last_byte(first: int, last: int)
    requires
        0 <= first <= last,
    ensures
        range_text(first, last - first + 1) == seq!['b', 'y', 't', 'e', 's', '='] + decimal(first)
            + seq!['-'] + decimal(last),
{
    reveal_strlit("bytes=");
    reveal_strlit("-");
    assert("bytes="@ =~= seq!['b', 'y', 't', 'e', 's', '=']);
    assert("-"@ =~= seq!['-']);
}

/// In a list of places in ascending order, the last place before `count` is at
/// the end, and what precedes it are the other places.
proof fn lemma_last_place(kept: Seq<int>, count: int)
    requires
        forall|k: int, l: int| 0 <= k < l < kept.len() ==> kept[k] < kept[l],
        forall|k: int| 0 <= k < kept.len() ==> 0 <= #[trigger] kept[k] < count,
        kept.contains(count - 1),
    ensures
        kept.len() > 0,
        kept.last() == count - 1,
        forall|i: int| kept.drop_last().contains(i) <==> kept.contains(i) && i != count - 1,
{
    let at = choose|k: int| 0 <= k < kept.len() && kept[k] == count - 1;
    if at < kept.len() - 1 {
        assert(kept[at] < kept[kept.len() - 1]);
    }
    assert forall|i: int| kept.drop_last().contains(i) <==> kept.contains(i) && i != count
        - 1 by {
        if kept.drop_last().contains(i) {
            let k = choose|k: int|
                0 <= k < kept.drop_last().len() && kept.drop_last()[k] == i;
            assert(kept[k] == i);
            assert(kept[k] < kept[kept.len() - 1]);
        }
        if kept.contains(i) && i != count - 1 {
            let k = choose|k: int| 0 <= k < kept.len() && kept[k] == i;
            assert(kept.drop_last()[k] == i);
        }
    }
}

/// Nothing is left out of a listing, and nothing is listed twice: the objects
/// whose key is not empty and does not end in a slash, `kept` in their order,
/// make one file each, whatever their size and time. It has the path that
/// follows the prefix and a slash, and the size and time that are listed.
pub proof fn law_every_file_is_listed_once(
    prefix: Seq<char>,
    objects: Seq<ListedObject>,
    kept: Seq<int>,
)
    requires
        forall|k: int, l: int| 0 <= k < l < kept.len() ==> kept[k] < kept[l],
        forall|i: int|
            #![trigger kept.contains(i)]
            kept.contains(i) <==> {
                &&& 0 <= i < objects.len()
                &&& objects[i].key is Some
                &&& objects[i].key->0@.len() > 0
                &&& objects[i].key->0@[objects[i].key->0@.len() - 1] != '/'
            },
    ensures
        file_entries(prefix, objects).len() == kept.len(),
        forall|k: int|
            #![trigger file_entries(prefix, objects)[k]]
            0 <= k < kept.len() ==> {
                let object = objects[kept[k]];
                let key = object.key->0@;
                let entry = file_entries(prefix, objects)[k];
                &&& entry.kind == EntryKind::File
                &&& prefix.len() == 0 ==> entry.relative_path == key
                &&& prefix.len() > 0 ==> entry.relative_path == (if key.len() > prefix.len()
                    && key.take(prefix.len() as int) == prefix && key[prefix.len() as int]
                    == '/' {
                    key.skip(prefix.len() as int + 1)
                } else {
                    key
                })
                &&& object.size matches Some(size) ==> (size >= 0 ==> entry.size == size)
                &&& object.size matches Some(size) ==> (size < 0 ==> entry.size == size
                    + 0x1_0000_0000_0000_0000)
                &&& object.size is None ==> entry.size == 0
                &&& object.last_modified_secs matches Some(secs) ==> entry.mtime_secs == secs
                &&& object.last_modified_secs is None ==> entry.mtime_secs == 0
                &&& entry.mode == 0o644
                &&& entry.uid is None && entry.gid is None && entry.link_target is None
            },
    decreases objects.len(),
{
    let count = objects.len() as int;
    assert forall|k: int| 0 <= k < kept.len() implies 0 <= #[trigger] kept[k] < count by {
        assert(kept.contains(kept[k]));
    }
    if count == 0 {
        if kept.len() > 0 {
            assert(0 <= kept[0] < count);
        }
    } else {
        let earlier = objects.drop_last();
        let object = objects.last();
        let stripped = listing_prefix_of(prefix);
        let key = match object.key {
            Some(key) => key@,
            None => Seq::empty(),
        };
        if prefix.len() > 0 {
            if begins_with(key, stripped) {
                assert(key.skip(stripped.len() as int) == relative_path_of(prefix, key));
                assert(key == prefix + seq!['/'] + key.skip(stripped.len() as int)) by {
                    assert(key =~= key.take(stripped.len() as int) + key.skip(
                        stripped.len() as int,
                    ));
                }
                if key.len() == stripped.len() {
                    assert(key.last() == '/');
                }
                assert(key.take(prefix.len() as int) =~= prefix);
                assert(key[prefix.len() as int] == '/');
            } else if key.len() > prefix.len() && key.take(prefix.len() as int) == prefix
                && key[prefix.len() as int] == '/' {
                assert forall|i: int| 0 <= i < prefix.len() implies key[i] == prefix[i] by {
                    assert(key.take(prefix.len() as int)[i] == prefix[i]);
                }
                assert(key.take(stripped.len() as int) =~= stripped);
            }
        } else {
            assert(key.skip(0) =~= key);
        }
        if kept.contains(count - 1) {
            lemma_last_place(kept, count);
            let fewer = kept.drop_last();
            assert forall|i: int| #![trigger fewer.contains(i)] fewer.contains(i) <==> {
                &&& 0 <= i < earlier.len()
                &&& earlier[i].key is Some
                &&& earlier[i].key->0@.len() > 0
                &&& earlier[i].key->0@[earlier[i].key->0@.len() - 1] != '/'
            } by {
                assert(fewer.contains(i) <==> kept.contains(i) && i != count - 1);
                if 0 <= i < earlier.len() {
                    assert(earlier[i] == objects[i]);
                }
            }
            law_every_file_is_listed_once(prefix, earlier, fewer);
            assert forall|k: int| 0 <= k < kept.len() - 1 implies file_entries(prefix, objects)[k]
                == file_entries(prefix, earlier)[k] && objects[kept[k]]
                == earlier[kept.drop_last()[k]] by {
                assert(kept[k] < kept[kept.len() - 1]);
            }
        } else {
            assert(file_entry(prefix, object) is None);
            assert forall|i: int| #![trigger kept.contains(i)] kept.contains(i) <==> {
                &&& 0 <= i < earlier.len()
                &&& earlier[i].key is Some
                &&& earlier[i].key->0@.len() > 0
                &&& earlier[i].key->0@[earlier[i].key->0@.len() - 1] != '/'
            } by {
                if 0 <= i < earlier.len() {
                    assert(earlier[i] == objects[i]);
                }
            }
            law_every_file_is_listed_once(prefix, earlier, kept);
            assert forall|k: int| 0 <= k < kept.len() implies objects[#[trigger] kept[k]]
                == earlier[kept[k]] by {
                assert(kept.contains(kept[k]));
            }
        }
    }
}

/// The common prefixes that have more to them than slashes, `kept` in their
/// order, make one directory each, and no other does. `names` are the common
/// prefixes without the slashes at their end; a directory has the path that
/// follows the prefix and a slash in its name.
pub proof fn law_every_directory_is_listed_once(
    prefix: Seq<char>,
    common_prefixes: Seq<Option<String>>,
    names: Seq<Seq<char>>,
    kept: Seq<int>,
)
    requires
        names.len() == common_prefixes.len(),
        forall|i: int|
            #![trigger names[i]]
            0 <= i < names.len() && common_prefixes[i] is Some ==> {
                let found = common_prefixes[i]->0@;
                &&& names[i].len() <= found.len()
                &&& found.take(names[i].len() as int) == names[i]
                &&& names[i].len() > 0 ==> names[i][names[i].len() - 1] != '/'
                &&& forall|j: int| names[i].len() <= j < found.len() ==> #[trigger] found[j] == '/'
            },
        forall|k: int, l: int| 0 <= k < l < kept.len() ==> kept[k] < kept[l],
        forall|i: int|
            #![trigger kept.contains(i)]
            kept.contains(i) <==> 0 <= i < common_prefixes.len() && common_prefixes[i] is Some
                && names[i].len() > 0,
    ensures
        dir_entries(prefix, common_prefixes).len() == kept.len(),
        forall|k: int|
            #![trigger dir_entries(prefix, common_prefixes)[k]]
            0 <= k < kept.len() ==> {
                let name = names[kept[k]];
                let entry = dir_entries(prefix, common_prefixes)[k];
                &&& entry.kind == EntryKind::Dir
                &&& prefix.len() == 0 ==> entry.relative_path == name
                &&& prefix.len() > 0 ==> entry.relative_path == (if name.len() > prefix.len()
                    && name.take(prefix.len() as int) == prefix && name[prefix.len() as int]
                    == '/' {
                    name.skip(prefix.len() as int + 1)
                } else {
                    name
                })
                &&& entry.size == 0 && entry.mtime_secs == 0 && entry.mode == 0o755
                &&& entry.uid is None && entry.gid is None && entry.link_target is None
            },
    decreases common_prefixes.len(),
{
    let count = common_prefixes.len() as int;
    assert forall|k: int| 0 <= k < kept.len() implies 0 <= #[trigger] kept[k] < count by {
        assert(kept.contains(kept[k]));
    }
    if count == 0 {
        if kept.len() > 0 {
            assert(0 <= kept[0] < count);
        }
    } else {
        let earlier = common_prefixes.drop_last();
        let earlier_names = names.drop_last();
        let name = names[count - 1];
        assert forall|i: int| 0 <= i < earlier.len() implies #[trigger] earlier_names[i] == names[i]
            && earlier[i] == common_prefixes[i] by {}
        assert forall|i: int|
            #![trigger earlier_names[i]]
            0 <= i < earlier_names.len() && earlier[i] is Some implies {
            let found = earlier[i]->0@;
            &&& earlier_names[i].len() <= found.len()
            &&& found.take(earlier_names[i].len() as int) == earlier_names[i]
            &&& earlier_names[i].len() > 0 ==> earlier_names[i][earlier_names[i].len() - 1] != '/'
            &&& forall|j: int|
                earlier_names[i].len() <= j < found.len() ==> #[trigger] found[j] == '/'
        } by {
            assert(names[i] == earlier_names[i]);
        }
        if common_prefixes[count - 1] is Some {
            let found = common_prefixes[count - 1]->0@;
            assert(names[count - 1].len() <= found.len());
            lemma_trimmed_is(found, '/', name);
            lemma_path_below(prefix, name);
        }
        if kept.contains(count - 1) {
            lemma_last_place(kept, count);
            let fewer = kept.drop_last();
            assert forall|i: int| #![trigger fewer.contains(i)] fewer.contains(i) <==> 0 <= i
                < earlier.len() && earlier[i] is Some && earlier_names[i].len() > 0 by {
                assert(fewer.contains(i) <==> kept.contains(i) && i != count - 1);
            }
            law_every_directory_is_listed_once(prefix, earlier, earlier_names, fewer);
            assert forall|k: int| 0 <= k < kept.len() - 1 implies dir_entries(
                prefix,
                common_prefixes,
            )[k] == dir_entries(prefix, earlier)[k] && names[kept[k]]
                == earlier_names[kept.drop_last()[k]] by {
                assert(kept[k] < kept[kept.len() - 1]);
            }
        } else {
            law_every_directory_is_listed_once(prefix, earlier, earlier_names, kept);
            assert forall|k: int| 0 <= k < kept.len() implies names[#[trigger] kept[k]]
                == earlier_names[kept[k]] by {
                assert(kept.contains(kept[k]));
            }
        }
    }
}

/// There is only one way to cut the run of `c` off the end of a text.
proof fn lemma_trimmed_is(text: Seq<char>, c: char, cut: Seq<char>)
    requires
        cut.len() <= text.len(),
        text.take(cut.len() as int) == cut,
        cut.len() > 0 ==> cut[cut.len() - 1] != c,
        forall|j: int| cut.len() <= j < text.len() ==> #[trigger] text[j] == c,
    ensures
        trimmed_end(text, c) == cut,
{
    law_trimmed_end_cuts_one_run(text, c);
    let other = trimmed_end(text, c);
    if other.len() < cut.len() {
        assert(cut[cut.len() - 1] == text[cut.len() - 1]);
    } else if cut.len() < other.len() {
        assert(other[other.len() - 1] == text[other.len() - 1]);
    }
}

/// The path of a name that does not end in a slash, and that it is empty only
/// if the name is.
proof fn lemma_path_below(prefix: Seq<char>, name: Seq<char>)
    requires
        name.len() > 0 ==> name[name.len() - 1] != '/',
    ensures
        name.len() == 0 <==> relative_path_of(prefix, name).len() == 0,
        relative_path_of(prefix, name) == (if prefix.len() > 0 && name.len() > prefix.len()
            && name.take(prefix.len() as int) == prefix && name[prefix.len() as int] == '/' {
            name.skip(prefix.len() as int + 1)
        } else {
            name
        }),
{
    let stripped = listing_prefix_of(prefix);
    if prefix.len() > 0 {
        if begins_with(name, stripped) {
            assert(name.take(stripped.len() as int)[prefix.len() as int] == '/');
            assert forall|i: int| 0 <= i < prefix.len() implies name[i] == prefix[i] by {
                assert(name.take(stripped.len() as int)[i] == stripped[i]);
            }
            assert(name.take(prefix.len() as int) =~= prefix);
        } else if name.len() > prefix.len() && name.take(prefix.len() as int) == prefix
            && name[prefix.len() as int] == '/' {
            assert forall|i: int| 0 <= i < prefix.len() implies name[i] == prefix[i] by {
                assert(name.take(prefix.len() as int)[i] == prefix[i]);
            }
            assert(name.take(stripped.len() as int) =~= stripped);
        }
    } else {
        assert(name.skip(0) =~= name);
    }
}

/// A page makes its files first. A listing that goes into directories has no
/// more of it, any other has its directories behind them.
pub proof fn law_page_is_files_and_then_directories(prefix: Seq<char>, page: ListPage)
    ensures
        page_entries(prefix, true, page) == file_entries(prefix, page.objects@),
        page_entries(prefix, false, page) == file_entries(prefix, page.objects@) + dir_entries(
            prefix,
            page.common_prefixes@,
        ),
{
    assert(page_entries(prefix, true, page) =~= file_entries(prefix, page.objects@));
}

/// A page is added behind what has been found. The listing goes on from where
/// the page says if the service says that more follows, and is done if not.
pub proof fn law_page_is_added_behind_the_listing(
    listing: ListingModel,
    prefix: Seq<char>,
    recursive: bool,
    page: ListPage,
)
    ensures
        ({
            let after = listing.with_page(prefix, recursive, page);
            &&& after.entries.len() == listing.entries.len() + page_entries(
                prefix,
                recursive,
                page,
            ).len()
            &&& after.entries.take(listing.entries.len() as int) == listing.entries
            &&& after.entries.skip(listing.entries.len() as int) == page_entries(
                prefix,
                recursive,
                page,
            )
            &&& after.done <==> !(page.is_truncated is Some && page.is_truncated->0)
            &&& !after.done && page.next_continuation_token is Some ==> after.continuation_token
                == Some(page.next_continuation_token->0@)
            &&& !after.done && page.next_continuation_token is None
                ==> after.continuation_token is None
        }),
{
    let after = listing.with_page(prefix, recursive, page);
    assert(after.entries.take(listing.entries.len() as int) =~= listing.entries);
    assert(after.entries.skip(listing.entries.len() as int) =~= page_entries(
        prefix,
        recursive,
        page,
    ));
}

/// A page is asked for in the bucket, below the prefix and one slash, from the
/// given token on, with directories folded at the slash unless the listing goes
/// into them.
pub proof fn law_page_request_names_what_is_asked(
    bucket: Seq<char>,
    prefix: Seq<char>,
    recursive: bool,
    continuation_token: Option<Seq<char>>,
)
    ensures
        ({
            let request = page_request(bucket, prefix, recursive, continuation_token);
            &&& request.bucket == bucket
            &&& prefix.len() > 0 ==> request.prefix == prefix + seq!['/']
            &&& prefix.len() == 0 ==> request.prefix.len() == 0
            &&& recursive ==> request.delimiter is None
            &&& !recursive ==> request.delimiter == Some(seq!['/'])
            &&& request.continuation_token == continuation_token
        }),
{
    reveal_strlit("/");
    assert("/"@ =~= seq!['/']);
    law_keys_have_one_slash_behind_the_prefix(prefix, Seq::empty());
}

/// A path and its key lead back to each other: the path of the key of a path
/// is that path.
pub proof fn law_path_of_key_of_path(prefix: Seq<char>, relative_path: Seq<char>)
    ensures
        relative_path_of(prefix, full_key_of(prefix, relative_path)) == relative_path,
{
    let stripped = listing_prefix_of(prefix);
    let key = full_key_of(prefix, relative_path);
    assert(key.take(stripped.len() as int) =~= stripped);
    assert(key.skip(stripped.len() as int) =~= relative_path);
}

/// The key of the path of a key is that key, for every key below the prefix.
pub proof fn law_key_of_path_of_key(prefix: Seq<char>, key: Seq<char>)
    requires
        begins_with(key, listing_prefix_of(prefix)),
    ensures
        full_key_of(prefix, relative_path_of(prefix, key)) == key,
{
    let stripped = listing_prefix_of(prefix);
    assert(stripped + key.skip(stripped.len() as int) =~= key) by {
        assert(key =~= key.take(stripped.len() as int) + key.skip(stripped.len() as int));
    }
}

/// What is listed can be asked for: no entry has an empty path or, being a
/// file, the path of a directory, and a listing that goes into directories
/// lists files only.
pub proof fn law_listed_entries_are_named(
    prefix: Seq<char>,
    recursive: bool,
    page: ListPage,
    i: int,
)
    requires
        0 <= i < page_entries(prefix, recursive, page).len(),
    ensures
        ({
            let entry = page_entries(prefix, recursive, page)[i];
            &&& entry.relative_path.len() > 0
            &&& entry.kind == EntryKind::File ==> entry.relative_path.last() != '/'
            &&& recursive ==> entry.kind == EntryKind::File
            &&& entry.kind == EntryKind::File || entry.kind == EntryKind::Dir
        }),
{
    let files = file_entries(prefix, page.objects@);
    if i < files.len() {
        lemma_file_entries_are_named(prefix, page.objects@, i);
    } else {
        lemma_dir_entries_are_named(prefix, page.common_prefixes@, i - files.len());
    }
}

proof fn lemma_file_entries_are_named(prefix: Seq<char>, objects: Seq<ListedObject>, i: int)
    requires
        0 <= i < file_entries(prefix, objects).len(),
    ensures
        file_entries(prefix, objects)[i].relative_path.len() > 0,
        file_entries(prefix, objects)[i].relative_path.last() != '/',
        file_entries(prefix, objects)[i].kind == EntryKind::File,
    decreases objects.len(),
{
    let earlier = file_entries(prefix, objects.drop_last());
    if i < earlier.len() {
        lemma_file_entries_are_named(prefix, objects.drop_last(), i);
    }
}

proof fn lemma_dir_entries_are_named(
    prefix: Seq<char>,
    common_prefixes: Seq<Option<String>>,
    i: int,
)
    requires
        0 <= i < dir_entries(prefix, common_prefixes).len(),
    ensures
        dir_entries(prefix, common_prefixes)[i].relative_path.len() > 0,
        dir_entries(prefix, common_prefixes)[i].kind == EntryKind::Dir,
    decreases common_prefixes.len(),
{
    let earlier = dir_entries(prefix, common_prefixes.drop_last());
    if i < earlier.len() {
        lemma_dir_entries_are_named(prefix, common_prefixes.drop_last(), i);
    }
}

/// Where the service ends a page does not matter: the objects of two pages make
/// the entries that they make on one.
pub proof fn law_pages_join(
    prefix: Seq<char>,
    first: Seq<ListedObject>,
    second: Seq<ListedObject>,
)
    ensures
        file_entries(prefix, first + second) == file_entries(prefix, first) + file_entries(
            prefix,
            second,
        ),
    decreases second.len(),
{
    if second.len() == 0 {
        assert(first + second =~= first);
        assert(file_entries(prefix, first) + Seq::<EntryModel>::empty() =~= file_entries(
            prefix,
            first,
        ));
    } else {
        law_pages_join(prefix, first, second.drop_last());
        assert((first + second).drop_last() =~= first + second.drop_last());
        assert((first + second).last() == second.last());
        if let Some(entry) = file_entry(prefix, second.last()) {
            let left = file_entries(prefix, first);
            let right = file_entries(prefix, second.drop_last());
            assert((left + right).push(entry) =~= left + right.push(entry));
        }
    }
}

/// The models of a request and of a listing hold all of their fields, unchanged.
pub proof fn law_requests_and_listings_are_seen_in_full(request: ListRequest, listing: Listing)
    ensures
        request@.bucket == request.bucket@,
        request@.prefix == request.prefix@,
        request.delimiter is Some <==> request@.delimiter is Some,
        request.delimiter is Some ==> request@.delimiter->0 == request.delimiter->0@,
        request.continuation_token is Some <==> request@.continuation_token is Some,
        request.continuation_token is Some ==> request@.continuation_token->0
            == request.continuation_token->0@,
        listing@.done == listing.done,
        listing.continuation_token is Some <==> listing@.continuation_token is Some,
        listing.continuation_token is Some ==> listing@.continuation_token->0
            == listing.continuation_token->0@,
        listing@.entries.len() == listing.entries@.len(),
        forall|i: int|
            0 <= i < listing.entries@.len() ==> #[trigger] listing@.entries[i]
                == listing.entries@[i]@,
{
}

} // verus!
