//! What a request is answered.

use crate::crawl::{ChapterItem, ChapterItemView};
use crate::text::{trim, trimmed};
use crate::url::{is_valid_url, valid_url};
use vstd::prelude::*;

verus! {

/// The answer to a request for a single page.
pub struct ScrapeResponse {
    pub success: bool,
    /// A rich-text fragment with all its styles inline, for an editor to take as it is.
    pub html: Option<String>,
    pub title: Option<String>,
    pub error: Option<String>,
}

/// What a [`ScrapeResponse`] holds.
pub struct ScrapeResponseView {
    pub success: bool,
    pub html: Option<Seq<char>>,
    pub title: Option<Seq<char>>,
    pub error: Option<Seq<char>>,
}

impl DeepView for ScrapeResponse {
    type V = ScrapeResponseView;

    open spec fn deep_view(&self) -> ScrapeResponseView {
        ScrapeResponseView {
            success: self.success,
            html: self.html.deep_view(),
            title: self.title.deep_view(),
            error: self.error.deep_view(),
        }
    }
}

/// The answer to a request for a text of several chapters.
pub struct ScrapeAllResponse {
    pub success: bool,
    pub total: Option<usize>,
    pub items: Option<Vec<ChapterItem>>,
    pub error: Option<String>,
}

/// What a [`ScrapeAllResponse`] holds.
pub struct ScrapeAllResponseView {
    pub success: bool,
    pub total: Option<nat>,
    pub items: Option<Seq<ChapterItemView>>,
    pub error: Option<Seq<char>>,
}

impl DeepView for ScrapeAllResponse {
    type V = ScrapeAllResponseView;

    open spec fn deep_view(&self) -> ScrapeAllResponseView {
        ScrapeAllResponseView {
            success: self.success,
            total: match self.total {
                Some(n) => Some(n as nat),
                None => None,
            },
            items: self.items.deep_view(),
            error: self.error.deep_view(),
        }
    }
}

// ---------------------------------------------------------------------------
// Requests that are refused
// ---------------------------------------------------------------------------

/// An answer without a page, for the reason `cause`.
pub open spec fn without_page(cause: Seq<char>) -> ScrapeResponseView {
    ScrapeResponseView { success: false, html: None, title: None, error: Some(cause) }
}

/// The status and the answer of a request that is refused for the reason `msg`.
pub fn bad_request(msg: &str) -> (r: (u16, ScrapeResponse))
    ensures
        r.0 == 400,
        r.1.deep_view() == without_page(msg@),
{
    (
        400,
        ScrapeResponse { success: false, html: None, title: None, error: Some(msg.to_owned()) },
    )
}

/// The address that a request speaks of: what it gives, without the white space at its
/// ends, where that is an accepted address. Any other request is refused.
pub fn requested_url(raw: &str) -> (r: Result<String, (u16, ScrapeResponse)>)
    ensures
        match r {
            Ok(url) => valid_url(trimmed(raw@)) && url@ == trimmed(raw@),
            Err(refusal) => !valid_url(trimmed(raw@)) && refusal.0 == 400
                && refusal.1.deep_view() == without_page("URL 必须以 http:// 或 https:// 开头"@),
        },
{
    let url = trim(raw);
    if is_valid_url(url.as_str()) {
        Ok(url)
    } else {
        Err(bad_request("URL 必须以 http:// 或 https:// 开头"))
    }
}

// ---------------------------------------------------------------------------
// Requests that are answered
// ---------------------------------------------------------------------------

/// The status and the answer for what came of scraping a page.
pub open spec fn page_reply(outcome: Result<(Seq<char>, Seq<char>), Seq<char>>) -> (
    int,
    ScrapeResponseView,
) {
    match outcome {
        Ok(page) => (
            200,
            ScrapeResponseView {
                success: true,
                html: Some(page.1),
                title: Some(page.0),
                error: None,
            },
        ),
        Err(e) => (500, without_page(e)),
    }
}

/// The status and the answer for what came of scraping a page: its title and its fragment,
/// or why there are none.
pub fn scrape_reply(outcome: Result<(String, String), String>) -> (r: (u16, ScrapeResponse))
    ensures
        (r.0 as int, r.1.deep_view()) == page_reply(
            match outcome {
                Ok(page) => Ok((page.0@, page.1@)),
                Err(e) => Err(e@),
            },
        ),
{
    match outcome {
        Ok((title, html)) => (
            200,
            ScrapeResponse { success: true, html: Some(html), title: Some(title), error: None },
        ),
        Err(e) => (500, ScrapeResponse { success: false, html: None, title: None, error: Some(e) }),
    }
}

/// The status and the answer for what came of scraping a text.
pub open spec fn text_reply(outcome: Result<Seq<ChapterItemView>, Seq<char>>) -> (
    int,
    ScrapeAllResponseView,
) {
    match outcome {
        Ok(items) => (
            200,
            ScrapeAllResponseView {
                success: true,
                total: Some(items.len()),
                items: Some(items),
                error: None,
            },
        ),
        Err(e) => (
            500,
            ScrapeAllResponseView { success: false, total: None, items: None, error: Some(e) },
        ),
    }
}

/// The status and the answer for what came of scraping a text: its chapters and how many
/// they are, or why there are none.
pub fn scrape_all_reply(outcome: Result<Vec<ChapterItem>, String>) -> (r: (u16, ScrapeAllResponse))
    ensures
        (r.0 as int, r.1.deep_view()) == text_reply(
            match outcome {
                Ok(items) => Ok(items.deep_view()),
                Err(e) => Err(e@),
            },
        ),
{
    match outcome {
        Ok(items) => {
            assert(items.deep_view().len() == items@.len());
            let total: usize = items.len();
            (
                200,
                ScrapeAllResponse {
                    success: true,
                    total: Some(total),
                    items: Some(items),
                    error: None,
                },
            )
        },
        Err(e) => (
            500,
            ScrapeAllResponse { success: false, total: None, items: None, error: Some(e) },
        ),
    }
}

// ---------------------------------------------------------------------------
// Laws
// ---------------------------------------------------------------------------

/// An answer about a page has either the page or the error, and says which by its flag and
/// its status.
pub proof fn law_page_or_error(outcome: Result<(Seq<char>, Seq<char>), Seq<char>>)
    ensures
        ({
            let (status, answer) = page_reply(outcome);
            &&& answer.success <==> status == 200
            &&& answer.success <==> answer.html is Some
            &&& answer.success <==> answer.title is Some
            &&& answer.success <==> answer.error is None
        }),
{
}

/// An answer about a text has either the chapters, counted, or the error, and says which by
/// its flag and its status.
pub proof fn law_text_or_error(outcome: Result<Seq<ChapterItemView>, Seq<char>>)
    ensures
        ({
            let (status, answer) = text_reply(outcome);
            &&& answer.success <==> status == 200
            &&& answer.success <==> answer.items is Some
            &&& answer.success <==> answer.error is None
            &&& answer.items matches Some(items) ==> answer.total == Some(items.len())
            &&& answer.items is None ==> answer.total is None
        }),
{
}

/// An answer about a page that was scraped holds just its title and its fragment, and one about a
/// page that was not holds just the error.
pub proof fn law_page_replied(title: Seq<char>, html: Seq<char>, cause: Seq<char>)
    ensures
        page_reply(Ok((title, html))).0 == 200,
        page_reply(Ok((title, html))).1.success,
        page_reply(Ok((title, html))).1.title == Some(title),
        page_reply(Ok((title, html))).1.html == Some(html),
        page_reply(Ok((title, html))).1.error is None,
        page_reply(Err(cause)).0 == 500,
        !page_reply(Err(cause)).1.success,
        page_reply(Err(cause)).1.title is None,
        page_reply(Err(cause)).1.html is None,
        page_reply(Err(cause)).1.error == Some(cause),
{
}

/// An answer about a text that was scraped holds all its chapters and how many they are, and one
/// about a text that was not holds just the error.
pub proof fn law_text_replied(items: Seq<ChapterItemView>, cause: Seq<char>)
    ensures
        text_reply(Ok(items)).0 == 200,
        text_reply(Ok(items)).1.success,
        text_reply(Ok(items)).1.items == Some(items),
        text_reply(Ok(items)).1.total == Some(items.len()),
        text_reply(Ok(items)).1.error is None,
        text_reply(Err(cause)).0 == 500,
        !text_reply(Err(cause)).1.success,
        text_reply(Err(cause)).1.items is None,
        text_reply(Err(cause)).1.total is None,
        text_reply(Err(cause)).1.error == Some(cause),
{
}

/// An answer that refuses a request holds just the reason.
pub proof fn law_refused(cause: Seq<char>)
    ensures
        !without_page(cause).success,
        without_page(cause).title is None,
        without_page(cause).html is None,
        without_page(cause).error == Some(cause),
{
}

/// An answer is given out as it is, field by field.
pub proof fn law_reply_given(page: ScrapeResponse, text: ScrapeAllResponse)
    ensures
        page.deep_view().success == page.success,
        page.deep_view().html == page.html.deep_view(),
        page.deep_view().title == page.title.deep_view(),
        page.deep_view().error == page.error.deep_view(),
        text.deep_view().success == text.success,
        text.total matches Some(n) ==> text.deep_view().total == Some(n as nat),
        text.total is None ==> text.deep_view().total is None,
        text.deep_view().items == text.items.deep_view(),
        text.deep_view().error == text.error.deep_view(),
{
}

} // verus!
