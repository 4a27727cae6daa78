//! The course of a scrape: what is to be done next, and what has come of it.
//!
//! Fetching and waiting happen elsewhere. A state says what to do ([`Action`]), and the
//! next state follows from what came of that ([`Event`]).

use crate::dom::{document_selection, is_parseable, parseable, NodeView};
use crate::division::{div_to_p, has_division_tag, law_no_division_left, paragraphed};
use crate::image::{image_requests, law_requests_are_valid, plan_images, replace_img_src};
use crate::image::{with_images, Image};
use crate::markup::{apply_inline_styles, build_rich_fragment_single, inline_styled, rich_fragment};
use crate::page::{chapter_links, distinct_urls, extract_chapter_links, page_body, page_title};
use crate::page::{has_url, law_chapter_links, law_chapters_listed, law_title, lists, parse_html};
use crate::page::{picked, title_selectors, Link};
use crate::url::{absolute, base_url, extract_base_url, law_base_is_valid, valid_url};
use vstd::prelude::*;

verus! {

// ---------------------------------------------------------------------------
// What is done and what comes of it
// ---------------------------------------------------------------------------

/// What is to be done next.
pub enum Action {
    /// Fetch the page at this address.
    FetchPage(String),
    /// Fetch these images, each by its source and its address.
    FetchImages(Vec<(String, String)>),
    /// Wait for so many milliseconds.
    Rest(u64),
    /// Nothing: the course is over.
    Stop,
}

/// What an [`Action`] holds.
pub enum ActionView {
    FetchPage(Seq<char>),
    FetchImages(Seq<(Seq<char>, Seq<char>)>),
    Rest(u64),
    Stop,
}

impl DeepView for Action {
    type V = ActionView;

    open spec fn deep_view(&self) -> ActionView {
        match self {
            Action::FetchPage(url) => ActionView::FetchPage(url@),
            Action::FetchImages(requests) => ActionView::FetchImages(requests.deep_view()),
            Action::Rest(millis) => ActionView::Rest(*millis),
            Action::Stop => ActionView::Stop,
        }
    }
}

/// What came of an action.
pub enum Event {
    /// The text of the page, or why it did not come.
    Page(Result<String, String>),
    /// The images that came, each by its source.
    Images(Vec<(String, String)>),
    /// The wait is over.
    Rested,
}

/// What an [`Event`] holds.
pub enum EventView {
    Page(Result<Seq<char>, Seq<char>>),
    Images(Seq<Image>),
    Rested,
}

impl DeepView for Event {
    type V = EventView;

    open spec fn deep_view(&self) -> EventView {
        match self {
            Event::Page(Ok(html)) => EventView::Page(Ok(html@)),
            Event::Page(Err(e)) => EventView::Page(Err(e@)),
            Event::Images(images) => EventView::Images(images.deep_view()),
            Event::Rested => EventView::Rested,
        }
    }
}

/// The body of a page with its images, in the style and with the tags of the editor.
pub open spec fn finished_body(body: Seq<char>, images: Seq<Image>) -> Seq<char> {
    paragraphed(inline_styled(with_images(body, images)))
}

/// The body of a page with its images, in the style and with the tags of the editor; none
/// where it has become too large for the parser.
pub fn finish_body(body: &str, images: &Vec<(String, String)>) -> (r: Option<String>)
    ensures
        r is Some <==> parseable(with_images(body@, images.deep_view())),
        r matches Some(text) ==> text@ == finished_body(body@, images.deep_view()),
{
    let whole = replace_img_src(body, images);
    if is_parseable(whole.as_str()) {
        Some(div_to_p(apply_inline_styles(whole.as_str()).as_str()))
    } else {
        None
    }
}

// ---------------------------------------------------------------------------
// A single page
// ---------------------------------------------------------------------------

/// The course of scraping a single page.
pub enum Scrape {
    /// The page is to be fetched.
    Page { url: String },
    /// The images of its body are to be fetched.
    Images { url: String, title: String, body: String },
    /// The title and the fragment of the page, or why there are none.
    Finished { outcome: Result<(String, String), String> },
    /// The page is too large for the parser.
    TooLarge,
}

/// What a [`Scrape`] holds.
pub enum ScrapeView {
    Page { url: Seq<char> },
    Images { url: Seq<char>, title: Seq<char>, body: Seq<char> },
    Finished { outcome: Result<(Seq<char>, Seq<char>), Seq<char>> },
    TooLarge,
}

impl DeepView for Scrape {
    type V = ScrapeView;

    open spec fn deep_view(&self) -> ScrapeView {
        match self {
            Scrape::Page { url } => ScrapeView::Page { url: url@ },
            Scrape::Images { url, title, body } => ScrapeView::Images {
                url: url@,
                title: title@,
                body: body@,
            },
            Scrape::Finished { outcome: Ok(page) } => ScrapeView::Finished {
                outcome: Ok((page.0@, page.1@)),
            },
            Scrape::Finished { outcome: Err(e) } => ScrapeView::Finished { outcome: Err(e@) },
            Scrape::TooLarge => ScrapeView::TooLarge,
        }
    }
}

impl ScrapeView {
    /// A body whose images are looked for is not too large for the parser.
    pub open spec fn well_formed(self) -> bool {
        self matches ScrapeView::Images { body, .. } ==> parseable(body)
    }

    /// What is to be done in this state.
    pub open spec fn action(self) -> ActionView {
        match self {
            ScrapeView::Page { url } => ActionView::FetchPage(url),
            ScrapeView::Images { url, body, .. } => ActionView::FetchImages(
                image_requests(body, base_url(url)),
            ),
            ScrapeView::Finished { .. } => ActionView::Stop,
            ScrapeView::TooLarge => ActionView::Stop,
        }
    }

    /// The state after `event`. An event that nothing was done for changes nothing.
    pub open spec fn next(self, event: EventView) -> ScrapeView {
        match (self, event) {
            (ScrapeView::Page { .. }, EventView::Page(Err(e))) => ScrapeView::Finished {
                outcome: Err(e),
            },
            (ScrapeView::Page { url }, EventView::Page(Ok(raw))) => if parseable(raw) && parseable(
                page_body(raw),
            ) {
                ScrapeView::Images { url, title: page_title(raw), body: page_body(raw) }
            } else {
                ScrapeView::TooLarge
            },
            (ScrapeView::Images { title, body, .. }, EventView::Images(images)) => if parseable(
                with_images(body, images),
            ) {
                ScrapeView::Finished {
                    outcome: Ok((title, rich_fragment(title, finished_body(body, images)))),
                }
            } else {
                ScrapeView::TooLarge
            },
            _ => self,
        }
    }
}

/// The course of scraping the page `url`, at its start.
pub fn do_scrape(url: &str) -> (r: Scrape)
    ensures
        r.deep_view() == (ScrapeView::Page { url: url@ }),
        r.deep_view().well_formed(),
{
    Scrape::Page { url: url.to_owned() }
}

/// What is to be done in the state `state`.
pub fn scrape_action(state: &Scrape) -> (r: Action)
    requires
        state.deep_view().well_formed(),
    ensures
        r.deep_view() == state.deep_view().action(),
{
    match state {
        Scrape::Page { url } => Action::FetchPage(url.clone()),
        Scrape::Images { url, title: _, body } => {
            let base = extract_base_url(url.as_str());
            Action::FetchImages(plan_images(body.as_str(), base.as_str()))
        },
        Scrape::Finished { outcome: _ } => Action::Stop,
        Scrape::TooLarge => Action::Stop,
    }
}

/// The state after `event`.
pub fn scrape_next(state: Scrape, event: Event) -> (r: Scrape)
    requires
        state.deep_view().well_formed(),
    ensures
        r.deep_view() == state.deep_view().next(event.deep_view()),
        r.deep_view().well_formed(),
{
    match state {
        Scrape::Page { url } => match event {
            Event::Page(Ok(raw)) => {
                if !is_parseable(raw.as_str()) {
                    return Scrape::TooLarge;
                }
                let (title, body) = parse_html(raw.as_str());
                if is_parseable(body.as_str()) {
                    Scrape::Images { url, title, body }
                } else {
                    Scrape::TooLarge
                }
            },
            Event::Page(Err(e)) => Scrape::Finished { outcome: Err(e) },
            _ => Scrape::Page { url },
        },
        Scrape::Images { url, title, body } => match event {
            Event::Images(images) => match finish_body(body.as_str(), &images) {
                Some(styled) => {
                    let fragment = build_rich_fragment_single(title.as_str(), styled.as_str());
                    Scrape::Finished { outcome: Ok((title, fragment)) }
                },
                None => Scrape::TooLarge,
            },
            _ => Scrape::Images { url, title, body },
        },
        Scrape::Finished { outcome } => Scrape::Finished { outcome },
        Scrape::TooLarge => Scrape::TooLarge,
    }
}

// ---------------------------------------------------------------------------
// A text of several chapters
// ---------------------------------------------------------------------------

/// A chapter: its title and its content.
pub struct ChapterItem {
    pub title: String,
    pub content: String,
}

/// What a [`ChapterItem`] holds.
pub struct ChapterItemView {
    pub title: Seq<char>,
    pub content: Seq<char>,
}

impl DeepView for ChapterItem {
    type V = ChapterItemView;

    open spec fn deep_view(&self) -> ChapterItemView {
        ChapterItemView { title: self.title@, content: self.content@ }
    }
}

/// The course of scraping a text chapter by chapter. The chapter at hand is the one behind
/// those that have their item.
pub enum Crawl {
    /// The first page is to be fetched.
    First { url: String },
    /// The page of the chapter at hand is to be fetched.
    Chapter { links: Vec<(String, String)>, items: Vec<ChapterItem> },
    /// The images of the chapter at hand are to be fetched.
    Images {
        links: Vec<(String, String)>,
        items: Vec<ChapterItem>,
        title: String,
        body: String,
    },
    /// The chapter at hand is done, and it is time for a pause.
    Rest { links: Vec<(String, String)>, items: Vec<ChapterItem> },
    /// The chapters, or why there are none.
    Finished { outcome: Result<Vec<ChapterItem>, String> },
    /// A page is too large for the parser.
    TooLarge,
}

/// What a [`Crawl`] holds.
pub enum CrawlView {
    First { url: Seq<char> },
    Chapter { links: Seq<Link>, items: Seq<ChapterItemView> },
    Images {
        links: Seq<Link>,
        items: Seq<ChapterItemView>,
        title: Seq<char>,
        body: Seq<char>,
    },
    Rest { links: Seq<Link>, items: Seq<ChapterItemView> },
    Finished { outcome: Result<Seq<ChapterItemView>, Seq<char>> },
    TooLarge,
}

impl DeepView for Crawl {
    type V = CrawlView;

    open spec fn deep_view(&self) -> CrawlView {
        match self {
            Crawl::First { url } => CrawlView::First { url: url@ },
            Crawl::Chapter { links, items } => CrawlView::Chapter {
                links: links.deep_view(),
                items: items.deep_view(),
            },
            Crawl::Images { links, items, title, body } => CrawlView::Images {
                links: links.deep_view(),
                items: items.deep_view(),
                title: title@,
                body: body@,
            },
            Crawl::Rest { links, items } => CrawlView::Rest {
                links: links.deep_view(),
                items: items.deep_view(),
            },
            Crawl::Finished { outcome: Ok(items) } => CrawlView::Finished {
                outcome: Ok(items.deep_view()),
            },
            Crawl::Finished { outcome: Err(e) } => CrawlView::Finished { outcome: Err(e@) },
            Crawl::TooLarge => CrawlView::TooLarge,
        }
    }
}

/// The chapters of the text that starts with the page `html` at `url`: those in its
/// sidebar, or, where it has none, that page alone.
pub open spec fn crawl_links(url: Seq<char>, html: Seq<char>) -> Seq<Link> {
    let links = chapter_links(html, base_url(url));
    if links.len() == 0 {
        seq![(page_title(html), url)]
    } else {
        links
    }
}

/// The title of a chapter: that of its link, or, where the link has none, that of its page.
pub open spec fn chapter_title(link: Link, raw: Seq<char>) -> Seq<char> {
    if link.0.len() == 0 {
        page_title(raw)
    } else {
        link.0
    }
}

/// The item of a chapter whose page did not come.
pub open spec fn failed_item(link: Link, cause: Seq<char>) -> ChapterItemView {
    ChapterItemView {
        title: link.0,
        content: "<p style=\"color:#e53e3e;\">抓取失败: "@ + cause + "</p>"@,
    }
}

impl CrawlView {
    /// There is a chapter at hand where one is fetched, and one with its item where there
    /// is a pause; a body whose images are looked for is not too large for the parser.
    pub open spec fn well_formed(self) -> bool {
        match self {
            CrawlView::First { .. } => true,
            CrawlView::Chapter { links, items } => items.len() < links.len(),
            CrawlView::Images { links, items, body, .. } => items.len() < links.len() && parseable(
                body,
            ),
            CrawlView::Rest { links, items } => 0 < items.len() <= links.len(),
            CrawlView::Finished { .. } => true,
            CrawlView::TooLarge => true,
        }
    }

    /// What is to be done in this state.
    pub open spec fn action(self) -> ActionView {
        match self {
            CrawlView::First { url } => ActionView::FetchPage(url),
            CrawlView::Chapter { links, items } => ActionView::FetchPage(
                links[items.len() as int].1,
            ),
            CrawlView::Images { links, items, body, .. } => ActionView::FetchImages(
                image_requests(body, base_url(links[items.len() as int].1)),
            ),
            CrawlView::Rest { .. } => ActionView::Rest(300),
            CrawlView::Finished { .. } => ActionView::Stop,
            CrawlView::TooLarge => ActionView::Stop,
        }
    }

    /// The state after `event`. An event that nothing was done for changes nothing.
    pub open spec fn next(self, event: EventView) -> CrawlView {
        match (self, event) {
            (CrawlView::First { .. }, EventView::Page(Err(e))) => CrawlView::Finished {
                outcome: Err(e),
            },
            (CrawlView::First { url }, EventView::Page(Ok(html))) => if parseable(html) {
                CrawlView::Chapter { links: crawl_links(url, html), items: Seq::empty() }
            } else {
                CrawlView::TooLarge
            },
            (CrawlView::Chapter { links, items }, EventView::Page(Err(e))) => CrawlView::Rest {
                links,
                items: items.push(failed_item(links[items.len() as int], e)),
            },
            (CrawlView::Chapter { links, items }, EventView::Page(Ok(raw))) => if parseable(raw)
                && parseable(page_body(raw)) {
                CrawlView::Images {
                    links,
                    items,
                    title: chapter_title(links[items.len() as int], raw),
                    body: page_body(raw),
                }
            } else {
                CrawlView::TooLarge
            },
            (CrawlView::Images { links, items, title, body }, EventView::Images(images)) => {
                if parseable(with_images(body, images)) {
                    CrawlView::Rest {
                        links,
                        items: items.push(
                            ChapterItemView { title, content: finished_body(body, images) },
                        ),
                    }
                } else {
                    CrawlView::TooLarge
                }
            },
            (CrawlView::Rest { links, items }, EventView::Rested) => if items.len() < links.len() {
                CrawlView::Chapter { links, items }
            } else {
                CrawlView::Finished { outcome: Ok(items) }
            },
            _ => self,
        }
    }
}

/// The course of scraping the text that starts at `first_url`, at its start.
pub fn do_scrape_all(first_url: &str) -> (r: Crawl)
    ensures
        r.deep_view() == (CrawlView::First { url: first_url@ }),
        r.deep_view().well_formed(),
{
    Crawl::First { url: first_url.to_owned() }
}

/// What is to be done in the state `state`.
pub fn crawl_action(state: &Crawl) -> (r: Action)
    requires
        state.deep_view().well_formed(),
    ensures
        r.deep_view() == state.deep_view().action(),
{
    match state {
        Crawl::First { url } => Action::FetchPage(url.clone()),
        Crawl::Chapter { links, items } => {
            assert(items.deep_view().len() == items@.len());
            assert(links.deep_view()[items@.len() as int] == links[items@.len() as int].deep_view());
            Action::FetchPage(links[items.len()].1.clone())
        },
        Crawl::Images { links, items, title: _, body } => {
            assert(items.deep_view().len() == items@.len());
            assert(links.deep_view()[items@.len() as int] == links[items@.len() as int].deep_view());
            let base = extract_base_url(links[items.len()].1.as_str());
            Action::FetchImages(plan_images(body.as_str(), base.as_str()))
        },
        Crawl::Rest { links: _, items: _ } => Action::Rest(300),
        Crawl::Finished { outcome: _ } => Action::Stop,
        Crawl::TooLarge => Action::Stop,
    }
}

/// The chapters of the text that starts with the page `html` at `url`.
pub fn list_chapters(url: &str, html: &str) -> (r: Vec<(String, String)>)
    requires
        parseable(html@),
    ensures
        r.deep_view() == crawl_links(url@, html@),
{
    let base = extract_base_url(url);
    let links = extract_chapter_links(html, base.as_str());
    assert(links.deep_view().len() == links@.len());
    if links.len() > 0 {
        links
    } else {
        let (title, _) = parse_html(html);
        let mut only: Vec<(String, String)> = Vec::new();
        only.push((title, url.to_owned()));
        assert(only.deep_view() =~= seq![(page_title(html@), url@)]);
        only
    }
}

fn add_item(items: Vec<ChapterItem>, item: ChapterItem) -> (r: Vec<ChapterItem>)
    ensures
        r.deep_view() == items.deep_view().push(item.deep_view()),
{
    let mut out = items;
    let ghost before = out.deep_view();
    out.push(item);
    assert(out.deep_view() =~= before.push(item.deep_view()));
    out
}

/// The state after `event`.
pub fn crawl_next(state: Crawl, event: Event) -> (r: Crawl)
    requires
        state.deep_view().well_formed(),
    ensures
        r.deep_view() == state.deep_view().next(event.deep_view()),
        r.deep_view().well_formed(),
{
    match state {
        Crawl::First { url } => match event {
            Event::Page(Ok(html)) => {
                if !is_parseable(html.as_str()) {
                    return Crawl::TooLarge;
                }
                let links = list_chapters(url.as_str(), html.as_str());
                let items: Vec<ChapterItem> = Vec::new();
                assert(items.deep_view() =~= Seq::empty());
                Crawl::Chapter { links, items }
            },
            Event::Page(Err(e)) => Crawl::Finished { outcome: Err(e) },
            _ => Crawl::First { url },
        },
        Crawl::Chapter { links, items } => {
            assert(items.deep_view().len() == items@.len());
            assert(links.deep_view()[items@.len() as int] == links[items@.len() as int].deep_view());
            match event {
                Event::Page(Ok(raw)) => {
                    if !is_parseable(raw.as_str()) {
                        return Crawl::TooLarge;
                    }
                    let (page_title, body) = parse_html(raw.as_str());
                    if !is_parseable(body.as_str()) {
                        return Crawl::TooLarge;
                    }
                    let title = if links[items.len()].0.as_str().is_empty() {
                        page_title
                    } else {
                        links[items.len()].0.clone()
                    };
                    Crawl::Images { links, items, title, body }
                },
                Event::Page(Err(e)) => {
                    let content = "<p style=\"color:#e53e3e;\">抓取失败: ".to_owned().concat(
                        e.as_str(),
                    ).concat("</p>");
                    let title = links[items.len()].0.clone();
                    let items = add_item(items, ChapterItem { title, content });
                    Crawl::Rest { links, items }
                },
                _ => Crawl::Chapter { links, items },
            }
        },
        Crawl::Images { links, items, title, body } => match event {
            Event::Images(images) => match finish_body(body.as_str(), &images) {
                Some(content) => {
                    let items = add_item(items, ChapterItem { title, content });
                    Crawl::Rest { links, items }
                },
                None => Crawl::TooLarge,
            },
            _ => Crawl::Images { links, items, title, body },
        },
        Crawl::Rest { links, items } => match event {
            Event::Rested => {
                assert(items.deep_view().len() == items@.len());
                assert(links.deep_view().len() == links@.len());
                if items.len() < links.len() {
                    Crawl::Chapter { links, items }
                } else {
                    Crawl::Finished { outcome: Ok(items) }
                }
            },
            _ => Crawl::Rest { links, items },
        },
        Crawl::Finished { outcome } => Crawl::Finished { outcome },
        Crawl::TooLarge => Crawl::TooLarge,
    }
}

// ---------------------------------------------------------------------------
// Laws
// ---------------------------------------------------------------------------

/// The finished body of a page holds no division tag, which the editor does not know.
pub proof fn law_finished_without_division(body: Seq<char>, images: Seq<Image>)
    ensures
        !has_division_tag(finished_body(body, images)),
{
    law_no_division_left(inline_styled(with_images(body, images)));
}

impl ScrapeView {
    /// The page that is scraped has an accepted address.
    pub open spec fn admitted(self) -> bool {
        match self {
            ScrapeView::Page { url } => valid_url(url),
            ScrapeView::Images { url, .. } => valid_url(url),
            ScrapeView::Finished { .. } => true,
            ScrapeView::TooLarge => true,
        }
    }

    /// How many answers are still to come at most.
    pub open spec fn rank(self) -> nat {
        match self {
            ScrapeView::Page { .. } => 2,
            ScrapeView::Images { .. } => 1,
            ScrapeView::Finished { .. } => 0,
            ScrapeView::TooLarge => 0,
        }
    }
}

/// Everything that is asked for has an accepted address.
pub open spec fn asks_accepted(action: ActionView) -> bool {
    match action {
        ActionView::FetchPage(url) => valid_url(url),
        ActionView::FetchImages(requests) => forall|i: int|
            0 <= i < requests.len() ==> valid_url((#[trigger] requests[i]).1),
        ActionView::Rest(_) => true,
        ActionView::Stop => true,
    }
}

/// `event` is what can come of `action`.
pub open spec fn answers(event: EventView, action: ActionView) -> bool {
    match action {
        ActionView::FetchPage(_) => event is Page,
        ActionView::FetchImages(_) => event is Images,
        ActionView::Rest(_) => event is Rested,
        ActionView::Stop => false,
    }
}

proof fn lemma_images_accepted(body: Seq<char>, url: Seq<char>)
    requires
        valid_url(url),
    ensures
        asks_accepted(ActionView::FetchImages(image_requests(body, base_url(url)))),
{
    let base = base_url(url);
    law_base_is_valid(url);
    assert forall|i: int| 0 <= i < image_requests(body, base).len() implies valid_url(
        (#[trigger] image_requests(body, base)[i]).1,
    ) by {
        law_requests_are_valid(body, base, i);
    }
}

/// A scrape that starts with an accepted address asks for accepted addresses only.
pub proof fn law_scrape_asks_accepted(state: ScrapeView, event: EventView)
    requires
        state.admitted(),
    ensures
        asks_accepted(state.action()),
        state.next(event).admitted(),
{
    if let ScrapeView::Images { url, body, .. } = state {
        lemma_images_accepted(body, url);
    }
}

/// A scrape comes nearer to its end with every answer, stays as it is at any other event,
/// and has nothing left to do only at its end.
pub proof fn law_scrape_ends(state: ScrapeView, event: EventView)
    ensures
        answers(event, state.action()) ==> state.next(event).rank() < state.rank(),
        !answers(event, state.action()) ==> state.next(event) == state,
        state.action() is Stop <==> state.rank() == 0,
{
}

/// A page that comes, of a size for the parser, is scraped: to its title and the fragment
/// of its body with the images that came. A page that does not come is the error.
pub proof fn law_scrape(
    url: Seq<char>,
    page: Result<Seq<char>, Seq<char>>,
    images: Seq<Image>,
)
    requires
        page matches Ok(raw) ==> parseable(raw) && parseable(page_body(raw)) && parseable(
            with_images(page_body(raw), images),
        ),
    ensures
        ({
            let fetched = (ScrapeView::Page { url }).next(EventView::Page(page));
            match page {
                Ok(raw) => {
                    &&& fetched.action() == ActionView::FetchImages(
                        image_requests(page_body(raw), base_url(url)),
                    )
                    &&& fetched.next(EventView::Images(images)) == (ScrapeView::Finished {
                        outcome: Ok(
                            (
                                page_title(raw),
                                rich_fragment(
                                    page_title(raw),
                                    finished_body(page_body(raw), images),
                                ),
                            ),
                        ),
                    })
                },
                Err(e) => fetched == (ScrapeView::Finished { outcome: Err(e) }),
            }
        }),
{
}

impl CrawlView {
    /// All the pages of the text have accepted addresses.
    pub open spec fn admitted(self) -> bool {
        match self {
            CrawlView::First { url } => valid_url(url),
            CrawlView::Chapter { links, .. } => accepted_links(links),
            CrawlView::Images { links, .. } => accepted_links(links),
            CrawlView::Rest { links, .. } => accepted_links(links),
            CrawlView::Finished { .. } => true,
            CrawlView::TooLarge => true,
        }
    }

    /// How many answers are still to come at most, once the chapters are known.
    pub open spec fn rank(self) -> int {
        match self {
            CrawlView::First { .. } => 0,
            CrawlView::Chapter { links, items } => 3 * (links.len() - items.len()),
            CrawlView::Images { links, items, .. } => 3 * (links.len() - items.len()) - 1,
            CrawlView::Rest { links, items } => 3 * (links.len() - items.len()) + 1,
            CrawlView::Finished { .. } => 0,
            CrawlView::TooLarge => 0,
        }
    }

    /// The state after `events`, one after the other.
    pub open spec fn run(self, events: Seq<EventView>) -> CrawlView
        decreases events.len(),
    {
        if events.len() == 0 {
            self
        } else {
            self.next(events[0]).run(events.skip(1))
        }
    }
}

/// All of `links` have accepted addresses.
pub open spec fn accepted_links(links: Seq<Link>) -> bool {
    forall|i: int| 0 <= i < links.len() ==> valid_url((#[trigger] links[i]).1)
}

/// A crawl stays well-formed at every event.
pub proof fn law_crawl_well_formed(state: CrawlView, event: EventView)
    requires
        state.well_formed(),
    ensures
        state.next(event).well_formed(),
{
}

/// A crawl that starts with an accepted address asks for accepted addresses only.
pub proof fn law_crawl_asks_accepted(state: CrawlView, event: EventView)
    requires
        state.well_formed(),
        state.admitted(),
    ensures
        asks_accepted(state.action()),
        state.next(event).admitted(),
{
    match state {
        CrawlView::First { url } => {
            law_base_is_valid(url);
            if let EventView::Page(Ok(html)) = event {
                law_chapter_links(html, base_url(url));
            }
        },
        CrawlView::Images { links, items, body, .. } => {
            lemma_images_accepted(body, links[items.len() as int].1);
        },
        _ => {},
    }
}

/// A crawl stays as it is at an event that nothing was done for, and comes nearer to its end
/// with every answer, once it knows its chapters, of which there is at least one.
pub proof fn law_crawl_ends(state: CrawlView, event: EventView)
    requires
        state.well_formed(),
    ensures
        !answers(event, state.action()) ==> state.next(event) == state,
        answers(event, state.action()) ==> state.next(event) !is First,
        answers(event, state.action()) && state !is First ==> 0 <= state.next(event).rank()
            < state.rank(),
        state.action() is Stop <==> state is Finished || state is TooLarge,
{
}

/// What came of a chapter: why its page did not come, or its page and the images that came.
pub enum Chapter {
    Failed { cause: Seq<char> },
    Loaded { raw: Seq<char>, images: Seq<Image> },
}

impl Chapter {
    /// Nothing of the chapter is too large for the parser.
    pub open spec fn fits(self) -> bool {
        match self {
            Chapter::Failed { .. } => true,
            Chapter::Loaded { raw, images } => parseable(raw) && parseable(page_body(raw))
                && parseable(with_images(page_body(raw), images)),
        }
    }

    /// The events of the chapter.
    pub open spec fn events(self) -> Seq<EventView> {
        match self {
            Chapter::Failed { cause } => seq![EventView::Page(Err(cause)), EventView::Rested],
            Chapter::Loaded { raw, images } => seq![
                EventView::Page(Ok(raw)),
                EventView::Images(images),
                EventView::Rested,
            ],
        }
    }

    /// The item that the chapter is to have.
    pub open spec fn item(self, link: Link) -> ChapterItemView {
        match self {
            Chapter::Failed { cause } => failed_item(link, cause),
            Chapter::Loaded { raw, images } => ChapterItemView {
                title: chapter_title(link, raw),
                content: finished_body(page_body(raw), images),
            },
        }
    }
}

/// The events of `chapters`, one after the other.
pub open spec fn all_events(chapters: Seq<Chapter>) -> Seq<EventView>
    decreases chapters.len(),
{
    if chapters.len() == 0 {
        Seq::empty()
    } else {
        chapters[0].events() + all_events(chapters.skip(1))
    }
}

/// The items that `chapters` are to have.
pub open spec fn all_items(links: Seq<Link>, chapters: Seq<Chapter>) -> Seq<ChapterItemView> {
    Seq::new(chapters.len(), |i: int| chapters[i].item(links[i]))
}

#[verifier::rlimit(40)]
#[verifier::spinoff_prover]
proof fn lemma_run_chapter(
    links: Seq<Link>,
    items: Seq<ChapterItemView>,
    chapter: Chapter,
    more: Seq<EventView>,
)
    requires
        items.len() < links.len(),
        chapter.fits(),
    ensures
        (CrawlView::Chapter { links, items }).run(chapter.events() + more) == (CrawlView::Rest {
            links,
            items: items.push(chapter.item(links[items.len() as int])),
        }).next(EventView::Rested).run(more),
{
    reveal_with_fuel(CrawlView::run, 4);
    let all = chapter.events() + more;
    match chapter {
        Chapter::Failed { .. } => {
            assert(all.skip(1).skip(1) =~= more);
        },
        Chapter::Loaded { .. } => {
            assert(all.skip(1).skip(1).skip(1) =~= more);
        },
    }
}

#[verifier::rlimit(40)]
#[verifier::spinoff_prover]
proof fn lemma_run_chapters(
    links: Seq<Link>,
    items: Seq<ChapterItemView>,
    chapters: Seq<Chapter>,
)
    requires
        items.len() < links.len(),
        chapters.len() == links.len() - items.len(),
        forall|i: int| 0 <= i < chapters.len() ==> (#[trigger] chapters[i]).fits(),
    ensures
        (CrawlView::Chapter { links, items }).run(all_events(chapters)) == (CrawlView::Finished {
            outcome: Ok(items + all_items(links.skip(items.len() as int), chapters)),
        }),
    decreases chapters.len(),
{
    let rest = chapters.skip(1);
    let n = items.len() as int;
    let next = items.push(chapters[0].item(links[n]));
    assert(chapters[0].fits());
    lemma_run_chapter(links, items, chapters[0], all_events(rest));
    assert(items + all_items(links.skip(n), chapters) =~= next + all_items(
        links.skip(n + 1),
        rest,
    ));
    if next.len() < links.len() {
        assert forall|i: int| 0 <= i < rest.len() implies (#[trigger] rest[i]).fits() by {
            assert(rest[i] == chapters[i + 1]);
        }
        lemma_run_chapters(links, next, rest);
    } else {
        assert(next + all_items(links.skip(n + 1), rest) =~= next);
    }
}

/// A text whose first page comes is scraped to its end: each of its chapters has its item,
/// in order, whatever came of it. A chapter that does not come stops none of the others.
pub proof fn law_crawl(url: Seq<char>, html: Seq<char>, chapters: Seq<Chapter>)
    requires
        parseable(html),
        chapters.len() == crawl_links(url, html).len(),
        forall|i: int| 0 <= i < chapters.len() ==> (#[trigger] chapters[i]).fits(),
    ensures
        (CrawlView::First { url }).run(
            seq![EventView::Page(Ok(html))] + all_events(chapters),
        ) == (CrawlView::Finished { outcome: Ok(all_items(crawl_links(url, html), chapters)) }),
{
    let links = crawl_links(url, html);
    let events = seq![EventView::Page(Ok(html))] + all_events(chapters);
    let none = Seq::<ChapterItemView>::empty();
    assert(events.skip(1) =~= all_events(chapters));
    lemma_run_chapters(links, none, chapters);
    assert(links.skip(0) =~= links);
    assert(none + all_items(links, chapters) =~= all_items(links, chapters));
}

/// A text whose first page does not come is not scraped, for the reason that the page
/// did not come for.
pub proof fn law_crawl_refused(url: Seq<char>, cause: Seq<char>)
    ensures
        (CrawlView::First { url }).next(EventView::Page(Err(cause))) == (CrawlView::Finished {
            outcome: Err(cause),
        }),
{
}

/// No two chapters of a text are on the same page.
pub proof fn law_chapters_distinct(url: Seq<char>, html: Seq<char>)
    ensures
        crawl_links(url, html).len() > 0,
        distinct_urls(crawl_links(url, html)),
{
    law_chapter_links(html, base_url(url));
}

/// Every chapter of a text whose page came has a title.
pub proof fn law_chapter_titled(link: Link, raw: Seq<char>)
    ensures
        chapter_title(link, raw).len() > 0,
{
    law_title(picked(raw, title_selectors(), None));
}

/// Where the sidebar of the first page has chapters, the chapters of the text are just those, all
/// of them and in their order, whatever address the first page has. Where it has none, the only
/// chapter is the first page itself, under its own title.
pub proof fn law_chapters_of_text(url: Seq<char>, html: Seq<char>)
    ensures
        chapter_links(html, base_url(url)).len() > 0 ==> crawl_links(url, html) == chapter_links(
            html,
            base_url(url),
        ),
        chapter_links(html, base_url(url)).len() == 0 ==> crawl_links(url, html) == seq![
            (page_title(html), url),
        ],
{
}

/// The chapters of a text are the links at the first of the known places in the sidebar of its
/// first page that has any: every element there that has an address has it among the chapters,
/// and each chapter is the first element with its address, under the title of that element, in
/// the order of the elements.
pub proof fn law_every_chapter_listed(
    url: Seq<char>,
    html: Seq<char>,
    places: Seq<Seq<char>>,
    k: int,
    nodes: Seq<NodeView>,
) -> (from: Seq<int>)
    requires
        places == seq![
            ".rul ul.show li a"@,
            ".sidebar ul li a"@,
            ".catalog ul li a"@,
            ".nav-list li a"@,
        ],
        0 <= k < places.len(),
        document_selection(html, places[k], Some("href"@)) == Some(nodes),
        exists|i: int| 0 <= i < nodes.len() && (#[trigger] nodes[i]).value is Some,
        forall|j: int, i: int|
            0 <= j < k && document_selection(html, #[trigger] places[j], Some("href"@)) is Some && 0
                <= i < document_selection(html, places[j], Some("href"@))->0.len() ==> (
            #[trigger] document_selection(html, places[j], Some("href"@))->0[i]).value is None,
    ensures
        lists(crawl_links(url, html), nodes, nodes.len() as int, base_url(url), from),
        forall|i: int|
            0 <= i < nodes.len() && (#[trigger] nodes[i]).value is Some ==> exists|n: int|
                0 <= n < crawl_links(url, html).len() && (#[trigger] crawl_links(url, html)[n]).1
                    == absolute(nodes[i].value->0, base_url(url)),
{
    let from = law_chapters_listed(html, base_url(url), places, k, nodes);
    law_chapters_of_text(url, html);
    assert forall|i: int| 0 <= i < nodes.len() && (#[trigger] nodes[i]).value is Some implies exists|
        n: int,
    |
        0 <= n < crawl_links(url, html).len() && (#[trigger] crawl_links(url, html)[n]).1
            == absolute(nodes[i].value->0, base_url(url)) by {
        assert(has_url(chapter_links(html, base_url(url)), absolute(nodes[i].value->0, base_url(url))));
    }
    from
}

impl CrawlView {
    /// What is done while `events` come, one after the other, and then.
    pub open spec fn actions(self, events: Seq<EventView>) -> Seq<ActionView>
        decreases events.len(),
    {
        if events.len() == 0 {
            seq![self.action()]
        } else {
            seq![self.action()] + self.next(events[0]).actions(events.skip(1))
        }
    }
}

impl Chapter {
    /// What is to be done for the chapter: its page is fetched, and, if that comes, the images of
    /// its body, on the site of the chapter; then there is a pause of 300 milliseconds.
    pub open spec fn actions(self, link: Link) -> Seq<ActionView> {
        match self {
            Chapter::Failed { .. } => seq![ActionView::FetchPage(link.1), ActionView::Rest(300)],
            Chapter::Loaded { raw, .. } => seq![
                ActionView::FetchPage(link.1),
                ActionView::FetchImages(image_requests(page_body(raw), base_url(link.1))),
                ActionView::Rest(300),
            ],
        }
    }
}

/// What is to be done for `chapters`, one after the other.
pub open spec fn all_actions(links: Seq<Link>, chapters: Seq<Chapter>) -> Seq<ActionView>
    decreases chapters.len(),
{
    if chapters.len() == 0 {
        Seq::empty()
    } else {
        chapters[0].actions(links[0]) + all_actions(links.skip(1), chapters.skip(1))
    }
}

#[verifier::rlimit(40)]
#[verifier::spinoff_prover]
proof fn lemma_chapter_actions(
    links: Seq<Link>,
    items: Seq<ChapterItemView>,
    chapter: Chapter,
    more: Seq<EventView>,
)
    requires
        items.len() < links.len(),
        chapter.fits(),
    ensures
        (CrawlView::Chapter { links, items }).actions(chapter.events() + more) == chapter.actions(
            links[items.len() as int],
        ) + (CrawlView::Rest {
            links,
            items: items.push(chapter.item(links[items.len() as int])),
        }).next(EventView::Rested).actions(more),
{
    reveal_with_fuel(CrawlView::actions, 4);
    let link = links[items.len() as int];
    let all = chapter.events() + more;
    let rest = (CrawlView::Rest { links, items: items.push(chapter.item(link)) }).next(
        EventView::Rested,
    ).actions(more);
    let start = CrawlView::Chapter { links, items };
    match chapter {
        Chapter::Failed { .. } => {
            assert(all.skip(1).skip(1) =~= more);
            assert(start.actions(all) =~= chapter.actions(link) + rest);
        },
        Chapter::Loaded { .. } => {
            assert(all.skip(1).skip(1).skip(1) =~= more);
            assert(start.actions(all) =~= chapter.actions(link) + rest);
        },
    }
}

#[verifier::rlimit(40)]
#[verifier::spinoff_prover]
proof fn lemma_chapters_actions(
    links: Seq<Link>,
    items: Seq<ChapterItemView>,
    chapters: Seq<Chapter>,
)
    requires
        items.len() < links.len(),
        chapters.len() == links.len() - items.len(),
        forall|i: int| 0 <= i < chapters.len() ==> (#[trigger] chapters[i]).fits(),
    ensures
        (CrawlView::Chapter { links, items }).actions(all_events(chapters)) == all_actions(
            links.skip(items.len() as int),
            chapters,
        ) + seq![ActionView::Stop],
    decreases chapters.len(),
{
    let rest = chapters.skip(1);
    let n = items.len() as int;
    let next = items.push(chapters[0].item(links[n]));
    let own = links.skip(n);
    assert(chapters[0].fits());
    lemma_chapter_actions(links, items, chapters[0], all_events(rest));
    assert(own[0] == links[n]);
    assert(own.skip(1) =~= links.skip(n + 1));
    let first = chapters[0].actions(links[n]);
    if next.len() < links.len() {
        assert forall|i: int| 0 <= i < rest.len() implies (#[trigger] rest[i]).fits() by {
            assert(rest[i] == chapters[i + 1]);
        }
        lemma_chapters_actions(links, next, rest);
        let after = all_actions(links.skip(n + 1), rest);
        assert(first + (after + seq![ActionView::Stop]) =~= first + after + seq![ActionView::Stop]);
    } else {
        assert(rest.len() == 0);
        assert(all_events(rest) =~= Seq::empty());
        assert(all_actions(links.skip(n + 1), rest) =~= Seq::empty());
        assert(first + seq![ActionView::Stop] =~= first + Seq::empty() + seq![ActionView::Stop]);
    }
}

/// A text whose first page comes is fetched whole: its first page, then the page of each chapter,
/// in order, and the images of each page that comes, with a pause behind each chapter; and then
/// nothing more.
pub proof fn law_crawl_fetches(url: Seq<char>, html: Seq<char>, chapters: Seq<Chapter>)
    requires
        parseable(html),
        chapters.len() == crawl_links(url, html).len(),
        forall|i: int| 0 <= i < chapters.len() ==> (#[trigger] chapters[i]).fits(),
    ensures
        (CrawlView::First { url }).actions(
            seq![EventView::Page(Ok(html))] + all_events(chapters),
        ) == seq![ActionView::FetchPage(url)] + all_actions(crawl_links(url, html), chapters)
            + seq![ActionView::Stop],
{
    let links = crawl_links(url, html);
    let events = seq![EventView::Page(Ok(html))] + all_events(chapters);
    let none = Seq::<ChapterItemView>::empty();
    assert(events.skip(1) =~= all_events(chapters));
    lemma_chapters_actions(links, none, chapters);
    assert(links.skip(0) =~= links);
    let all = all_actions(links, chapters);
    assert(seq![ActionView::FetchPage(url)] + (all + seq![ActionView::Stop]) =~= seq![
        ActionView::FetchPage(url),
    ] + all + seq![ActionView::Stop]);
}

/// Each chapter of a text has its item at its place. A chapter that came has the title of its
/// link, or, where the link has none, that of its page, and the body of its page, with the images
/// that came, the styles of the editor, and paragraphs for divisions. A chapter that did not come
/// has the title of its link, and says why it did not come.
pub proof fn law_chapter_item(url: Seq<char>, html: Seq<char>, chapters: Seq<Chapter>, i: int)
    requires
        parseable(html),
        chapters.len() == crawl_links(url, html).len(),
        forall|j: int| 0 <= j < chapters.len() ==> (#[trigger] chapters[j]).fits(),
        0 <= i < chapters.len(),
    ensures
        ({
            let end = (CrawlView::First { url }).run(
                seq![EventView::Page(Ok(html))] + all_events(chapters),
            );
            let link = crawl_links(url, html)[i];
            &&& end matches CrawlView::Finished { outcome: Ok(items) }
            &&& items.len() == crawl_links(url, html).len()
            &&& match chapters[i] {
                Chapter::Failed { cause } => items[i].title == link.0 && items[i].content
                    == "<p style=\"color:#e53e3e;\">抓取失败: "@ + cause + "</p>"@,
                Chapter::Loaded { raw, images } => {
                    &&& link.0.len() > 0 ==> items[i].title == link.0
                    &&& link.0.len() == 0 ==> items[i].title == page_title(raw)
                    &&& items[i].content == paragraphed(
                        inline_styled(with_images(page_body(raw), images)),
                    )
                },
            }
        }),
{
    law_crawl(url, html, chapters);
}

/// A page is fetched, then the images of its body, on the site of the page, and then nothing more.
/// The fragment of a page that was scraped is its title as a heading in the style of the editor,
/// a rule, and its body, with the images that came, the styles of the editor, and paragraphs for
/// divisions.
pub proof fn law_scraped_fragment(url: Seq<char>, raw: Seq<char>, images: Seq<Image>)
    requires
        parseable(raw),
        parseable(page_body(raw)),
        parseable(with_images(page_body(raw), images)),
    ensures
        ({
            let fetched = (ScrapeView::Page { url }).next(EventView::Page(Ok(raw)));
            let end = fetched.next(EventView::Images(images));
            &&& (ScrapeView::Page { url }).action() == ActionView::FetchPage(url)
            &&& fetched.action() == ActionView::FetchImages(
                image_requests(page_body(raw), base_url(url)),
            )
            &&& end.action() is Stop
            &&& end matches ScrapeView::Finished { outcome: Ok(page) }
            &&& page.0 == page_title(raw)
            &&& page.1 == "<h1 style=\""@
                + "font-size:20px; font-weight:bold; text-align:center; \
                   letter-spacing:2px; margin:16px 0 10px; \
                   font-family:Microsoft YaHei,SimSun,Arial,sans-serif; color:#222"@ + "\">"@
                + page_title(raw) + "</h1><hr style=\""@
                + "border:none; border-top:1px solid #e0e0e0; margin:12px 0"@ + "\"/>"@
                + paragraphed(inline_styled(with_images(page_body(raw), images)))
        }),
{
}

/// A page is given up as too large only where the page, its body, or the body with its images is
/// too large for the parser.
pub proof fn law_too_large(
    url: Seq<char>,
    raw: Seq<char>,
    title: Seq<char>,
    body: Seq<char>,
    images: Seq<Image>,
    links: Seq<Link>,
    items: Seq<ChapterItemView>,
)
    ensures
        (ScrapeView::Page { url }).next(EventView::Page(Ok(raw))) is TooLarge <==> !parseable(raw)
            || !parseable(page_body(raw)),
        (ScrapeView::Images { url, title, body }).next(EventView::Images(images)) is TooLarge
            <==> !parseable(with_images(body, images)),
        (CrawlView::First { url }).next(EventView::Page(Ok(raw))) is TooLarge <==> !parseable(raw),
        (CrawlView::Chapter { links, items }).next(EventView::Page(Ok(raw))) is TooLarge
            <==> !parseable(raw) || !parseable(page_body(raw)),
        (CrawlView::Images { links, items, title, body }).next(
            EventView::Images(images),
        ) is TooLarge <==> !parseable(with_images(body, images)),
{
}

/// What came of an action counts as it came: the text of a page, and all the images.
pub proof fn law_event_taken(html: String, cause: String, images: Vec<(String, String)>)
    ensures
        Event::Page(Ok(html)).deep_view() == EventView::Page(Ok(html@)),
        Event::Page(Err(cause)).deep_view() == EventView::Page(Err(cause@)),
        Event::Images(images).deep_view() == EventView::Images(images.deep_view()),
        Event::Rested.deep_view() == EventView::Rested,
{
}

/// What is to be done is done as it is given: the address of a page, and all the images.
pub proof fn law_action_given(url: String, requests: Vec<(String, String)>, millis: u64)
    ensures
        Action::FetchPage(url).deep_view() == ActionView::FetchPage(url@),
        Action::FetchImages(requests).deep_view() == ActionView::FetchImages(requests.deep_view()),
        Action::Rest(millis).deep_view() == ActionView::Rest(millis),
        Action::Stop.deep_view() == ActionView::Stop,
{
}

/// What comes of scraping is given out as it is: the title and the fragment of a page, all the
/// items of a text, each with its title and its content, or the error.
pub proof fn law_outcome_given(
    page: (String, String),
    items: Vec<ChapterItem>,
    cause: String,
    i: int,
)
    requires
        0 <= i < items@.len(),
    ensures
        (Scrape::Finished { outcome: Ok(page) }).deep_view() == (ScrapeView::Finished {
            outcome: Ok((page.0@, page.1@)),
        }),
        (Scrape::Finished { outcome: Err(cause) }).deep_view() == (ScrapeView::Finished {
            outcome: Err(cause@),
        }),
        (Crawl::Finished { outcome: Ok(items) }).deep_view() == (CrawlView::Finished {
            outcome: Ok(items.deep_view()),
        }),
        (Crawl::Finished { outcome: Err(cause) }).deep_view() == (CrawlView::Finished {
            outcome: Err(cause@),
        }),
        items.deep_view().len() == items@.len(),
        items.deep_view()[i].title == items@[i].title@,
        items.deep_view()[i].content == items@[i].content@,
{
}

} // verus!
