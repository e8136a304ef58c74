//! What a whole S3 listing yields, from the first request to the last page.
//!
//! The laws here set the requests and the pages against a service that answers
//! every request with some page, whichever it is.
use vstd::prelude::*;

use crate::remote::{optional_text, EntryModel};
use crate::s3::{page_entries, page_request, ListPage, ListingModel, RequestModel};

verus! {

/// A listing with the requests that were made for it, in order.
pub struct ListingRun {
    pub listing: ListingModel,
    pub requests: Seq<RequestModel>,
}

/// The listing of a prefix by a service whose answers are `answers`, one for
/// each request: pages are asked for and taken in until the listing is done or
/// the service has answered no further request yet.
pub open spec fn listed(
    bucket: Seq<char>,
    prefix: Seq<char>,
    recursive: bool,
    answers: Seq<ListPage>,
) -> ListingRun
    decreases answers.len(),
{
    if answers.len() == 0 {
        ListingRun {
            listing: ListingModel {
                entries: Seq::empty(),
                continuation_token: None,
                done: false,
            },
            requests: Seq::empty(),
        }
    } else {
        let before = listed(bucket, prefix, recursive, answers.drop_last());
        if before.listing.done {
            before
        } else {
            ListingRun {
                listing: before.listing.with_page(prefix, recursive, answers.last()),
                requests: before.requests.push(
                    page_request(bucket, prefix, recursive, before.listing.continuation_token),
                ),
            }
        }
    }
}

/// The entries that the pages make, one page after the other.
pub open spec fn entries_of_pages(
    prefix: Seq<char>,
    recursive: bool,
    pages: Seq<ListPage>,
) -> Seq<EntryModel>
    decreases pages.len(),
{
    if pages.len() == 0 {
        Seq::empty()
    } else {
        entries_of_pages(prefix, recursive, pages.drop_last()) + page_entries(
            prefix,
            recursive,
            pages.last(),
        )
    }
}

/// Where page number `index` begins: the first at the beginning, every other
/// where the page before it says.
pub open spec fn token_of_page(pages: Seq<ListPage>, index: int) -> Option<Seq<char>> {
    if index == 0 {
        None
    } else {
        optional_text(pages[index - 1].next_continuation_token)
    }
}

/// Whether the service says that more follows behind every one of the pages.
pub open spec fn all_truncated(pages: Seq<ListPage>) -> bool {
    forall|k: int| 0 <= k < pages.len() ==> (#[trigger] pages[k]).is_truncated == Some(true)
}

/// As long as every page says that more follows, the listing goes on: it has
/// the entries of all pages so far, made one request for each of them, every
/// request from where the page before it ended, and will ask on from where the
/// last one ended.
pub proof fn law_listing_goes_on_while_truncated(
    bucket: Seq<char>,
    prefix: Seq<char>,
    recursive: bool,
    answers: Seq<ListPage>,
)
    requires
        all_truncated(answers),
    ensures
        ({
            let run = listed(bucket, prefix, recursive, answers);
            &&& !run.listing.done
            &&& run.listing.entries == entries_of_pages(prefix, recursive, answers)
            &&& run.listing.continuation_token == token_of_page(answers, answers.len() as int)
            &&& run.requests.len() == answers.len()
            &&& forall|k: int|
                0 <= k < answers.len() ==> #[trigger] run.requests[k] == page_request(
                    bucket,
                    prefix,
                    recursive,
                    token_of_page(answers, k),
                )
        }),
    decreases answers.len(),
{
    if answers.len() > 0 {
        let earlier = answers.drop_last();
        assert forall|k: int| 0 <= k < earlier.len() implies (
        #[trigger] earlier[k]).is_truncated == Some(true) by {
            assert(answers[k].is_truncated == Some(true));
        }
        law_listing_goes_on_while_truncated(bucket, prefix, recursive, earlier);
        assert(answers[answers.len() - 1].is_truncated == Some(true));
        let run = listed(bucket, prefix, recursive, answers);
        let before = listed(bucket, prefix, recursive, earlier);
        assert forall|k: int| 0 <= k < answers.len() implies #[trigger] run.requests[k]
            == page_request(bucket, prefix, recursive, token_of_page(answers, k)) by {
            assert(token_of_page(answers, k) == token_of_page(earlier, k));
            if k < earlier.len() {
                assert(run.requests[k] == before.requests[k]);
            }
        }
    }
}

/// A listing is done exactly at `last`, the first page behind which nothing
/// follows: before that page it is not done, and from then on nothing more is
/// asked for. It has the entries of all pages up to that one, in order. The
/// first request asks from the beginning, and every other from where the page
/// before it ended.
pub proof fn law_listing_joins_all_pages(
    bucket: Seq<char>,
    prefix: Seq<char>,
    recursive: bool,
    answers: Seq<ListPage>,
    last: int,
)
    requires
        0 <= last < answers.len(),
        all_truncated(answers.take(last)),
        answers[last].is_truncated != Some(true),
    ensures
        ({
            let run = listed(bucket, prefix, recursive, answers);
            &&& run.listing.done
            &&& forall|n: int|
                0 <= n <= last ==> !(#[trigger] listed(
                    bucket,
                    prefix,
                    recursive,
                    answers.take(n),
                )).listing.done
            &&& run == listed(bucket, prefix, recursive, answers.take(last + 1))
            &&& run.listing.entries == entries_of_pages(prefix, recursive, answers.take(last + 1))
            &&& run.requests.len() == last + 1
            &&& forall|k: int|
                0 <= k <= last ==> #[trigger] run.requests[k] == page_request(
                    bucket,
                    prefix,
                    recursive,
                    token_of_page(answers, k),
                )
        }),
    decreases answers.len(),
{
    let run = listed(bucket, prefix, recursive, answers);
    assert forall|n: int| 0 <= n <= last implies !(#[trigger] listed(
        bucket,
        prefix,
        recursive,
        answers.take(n),
    )).listing.done by {
        assert forall|k: int| 0 <= k < n implies (#[trigger] answers.take(n)[k]).is_truncated
            == Some(true) by {
            assert(answers.take(last)[k].is_truncated == Some(true));
        }
        law_listing_goes_on_while_truncated(bucket, prefix, recursive, answers.take(n));
    }
    let earlier = answers.drop_last();
    if last == earlier.len() {
        assert(answers.take(last + 1) =~= answers);
        assert(answers.take(last) =~= earlier);
        law_listing_goes_on_while_truncated(bucket, prefix, recursive, earlier);
        let before = listed(bucket, prefix, recursive, earlier);
        assert forall|k: int| 0 <= k <= last implies #[trigger] run.requests[k] == page_request(
            bucket,
            prefix,
            recursive,
            token_of_page(answers, k),
        ) by {
            assert(token_of_page(answers, k) == token_of_page(earlier, k));
            if k < last {
                assert(run.requests[k] == before.requests[k]);
            }
        }
    } else {
        assert(earlier.take(last) =~= answers.take(last));
        assert(earlier.take(last + 1) =~= answers.take(last + 1));
        law_listing_joins_all_pages(bucket, prefix, recursive, earlier, last);
        assert forall|k: int| 0 <= k <= last implies #[trigger] run.requests[k] == page_request(
            bucket,
            prefix,
            recursive,
            token_of_page(answers, k),
        ) by {
            assert(token_of_page(answers, k) == token_of_page(earlier, k));
        }
    }
}

/// The entries of more pages follow those of the pages before them, and one
/// page alone has its own.
pub proof fn law_entries_of_pages_follow_each_other(
    prefix: Seq<char>,
    recursive: bool,
    first: Seq<ListPage>,
    second: Seq<ListPage>,
    page: ListPage,
)
    ensures
        entries_of_pages(prefix, recursive, first + second) == entries_of_pages(
            prefix,
            recursive,
            first,
        ) + entries_of_pages(prefix, recursive, second),
        entries_of_pages(prefix, recursive, seq![page]) == page_entries(prefix, recursive, page),
    decreases second.len(),
{
    let alone = seq![page];
    assert(alone.drop_last() =~= Seq::empty());
    assert(entries_of_pages(prefix, recursive, alone.drop_last()) =~= Seq::empty());
    assert(entries_of_pages(prefix, recursive, alone) =~= page_entries(prefix, recursive, page));
    if second.len() == 0 {
        assert(first + second =~= first);
        assert(entries_of_pages(prefix, recursive, first) + Seq::<EntryModel>::empty()
            =~= entries_of_pages(prefix, recursive, first));
    } else {
        law_entries_of_pages_follow_each_other(
            prefix,
            recursive,
            first,
            second.drop_last(),
            page,
        );
        assert((first + second).drop_last() =~= first + second.drop_last());
        assert((first + second).last() == second.last());
        assert(entries_of_pages(prefix, recursive, first + second) =~= entries_of_pages(
            prefix,
            recursive,
            first,
        ) + entries_of_pages(prefix, recursive, second));
    }
}

} // verus!
