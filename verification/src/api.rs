//! Decisions of the page fetcher and the chapter collector: how one HTTP
//! status is handled (accept, back off, fail), and when pagination stops.
//! The binary performs the requests and hands the outcomes back here.

use vstd::prelude::*;

use crate::models::{ChapterQuery, ChapterResponse, Verse};
use crate::text::{dec_digits, push_dec};

verus! {

/// How a chapter fetch can fail.
#[derive(Clone, Debug)]
pub enum FetchError {
    /// The retry budget for rate-limited responses is exhausted.
    RateLimited,
    /// The upstream answered with a non-success status.
    Upstream { status: u16 },
    /// The response did not decode against the expected schema.
    ContractViolation,
    /// The transport itself failed (connect, DNS, timeout).
    Transport,
}

/// What to do with one HTTP response status.
#[derive(Clone, Debug)]
pub enum RetryStep {
    /// Decode the body as a page.
    Accept,
    /// Wait this many milliseconds and send the request again.
    Backoff { delay_ms: u64 },
    /// Give up with this error.
    Fail(FetchError),
}

pub open spec fn pow2(n: nat) -> nat
    decreases n,
{
    if n == 0 {
        1
    } else {
        2 * pow2((n - 1) as nat)
    }
}

/// The backoff before retry number `tries + 1`: 250ms doubled each time.
pub open spec fn backoff_ms(tries: nat) -> nat {
    250 * pow2(tries)
}

/// The number of rate-limit retries granted to one page request.
pub open spec fn retry_budget() -> nat {
    5
}

/// Classifies one response status for a page request that has already been
/// retried `tries` times: a rate-limited response is retried with
/// exponential backoff until the budget is spent, any other non-success
/// status fails at once, and a success is decoded.
pub fn classify_status(status: u16, tries: u32) -> (r: RetryStep)
    ensures
        status == 429 && tries < retry_budget() ==> r == (RetryStep::Backoff {
            delay_ms: backoff_ms(tries as nat) as u64,
        }),
        status == 429 && tries >= retry_budget() ==> r == RetryStep::Fail(FetchError::RateLimited),
        status != 429 && 200 <= status < 300 ==> r == RetryStep::Accept,
        status != 429 && !(200 <= status < 300) ==> r == RetryStep::Fail(
            FetchError::Upstream { status },
        ),
{
    if status == 429 {
        if tries < 5 {
            let delay_ms: u64 = if tries == 0 {
                250
            } else if tries == 1 {
                500
            } else if tries == 2 {
                1000
            } else if tries == 3 {
                2000
            } else {
                4000
            };
            proof {
                assert(pow2(0) == 1);
                assert(pow2(1) == 2);
                assert(pow2(2) == 4);
                assert(pow2(3) == 8);
                assert(pow2(4) == 16);
            }
            RetryStep::Backoff { delay_ms }
        } else {
            RetryStep::Fail(FetchError::RateLimited)
        }
    } else if 200 <= status && status < 300 {
        RetryStep::Accept
    } else {
        RetryStep::Fail(FetchError::Upstream { status })
    }
}

/// The page number pagination starts at.
pub fn first_page() -> (r: u32)
    ensures
        r == 1,
{
    1
}

/// The query of one verse-list page: the recitation id, the page, the fixed
/// page size, embedded word data disabled, and a minimal field projection.
pub fn chapter_query(audio: u32, page: u32) -> (r: ChapterQuery)
    ensures
        r.audio == audio,
        r.page == Some(page),
        r.per_page == Some(50u32),
        r.words == Some(false),
        r.fields matches Some(f) && f@
            == "juz_number,hizb_number,verse_key,verse_number,rub_el_hizb_number"@,
{
    ChapterQuery {
        audio,
        page: Some(page),
        per_page: Some(50),
        words: Some(false),
        fields: Some(
            String::from_str("juz_number,hizb_number,verse_key,verse_number,rub_el_hizb_number"),
        ),
    }
}

/// The root of the upstream REST API.
pub open spec fn api_base() -> Seq<char> {
    "https://api.quran.com/api/v4"@
}

/// The URL of the verse listing of one chapter.
pub fn verses_by_chapter_url(chapter: u32) -> (r: String)
    ensures
        r@ == api_base() + "/verses/by_chapter/"@ + dec_digits(chapter as nat),
{
    let mut url = String::from_str("https://api.quran.com/api/v4");
    url.append("/verses/by_chapter/");
    push_dec(&mut url, chapter);
    url
}

/// Folds one fetched page into the verse accumulator and decides whether to
/// continue. An empty page contributes nothing and stops; a non-empty page
/// is appended whole, and collection goes on exactly when the pagination
/// metadata names a next page. Stopping on either signal alone guards
/// against upstream inconsistency between the two.
pub fn collect_page(acc: &mut Vec<Verse>, page: ChapterResponse) -> (next: Option<u32>)
    ensures
        page.verses@.len() == 0 ==> final(acc)@ == old(acc)@ && next is None,
        page.verses@.len() > 0 ==> final(acc)@ == old(acc)@ + page.verses@ && next == (
        match page.pagination {
            Some(p) => p.next_page,
            None => None::<u32>,
        }),
{
    let ChapterResponse { verses, pagination } = page;
    if verses.len() == 0 {
        proof {
            assert(acc@ =~= old(acc)@ + verses@);
        }
        return None;
    }
    let mut verses = verses;
    acc.append(&mut verses);
    match pagination {
        Some(p) => p.next_page,
        None => None,
    }
}

} // verus!
