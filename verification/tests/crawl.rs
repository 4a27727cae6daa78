use fire_scraper::crawl::{crawl_action, crawl_next, do_scrape, do_scrape_all, finish_body};
use fire_scraper::crawl::{list_chapters, scrape_action, scrape_next, Action, ChapterItem, Crawl};
use fire_scraper::crawl::{Event, Scrape};
use fire_scraper::dom::MAX_BUFFER_BYTES;
use fire_scraper::markup::build_rich_fragment_single;
use fire_scraper::style::{merge_styles, S_IMG, S_P};
use fire_scraper::url::is_valid_url;

fn pairs(images: &[(&str, &str)]) -> Vec<(String, String)> {
    images.iter().map(|(k, v)| (k.to_string(), v.to_string())).collect()
}

fn page(html: &str) -> Event {
    Event::Page(Ok(html.to_string()))
}

fn no_page(cause: &str) -> Event {
    Event::Page(Err(cause.to_string()))
}

fn text_of(action: Action) -> String {
    match action {
        Action::FetchPage(url) => format!("page {}", url),
        Action::FetchImages(requests) => {
            let list: Vec<String> = requests.iter().map(|(s, u)| format!("{}={}", s, u)).collect();
            format!("images {}", list.join(","))
        }
        Action::Rest(millis) => format!("rest {}", millis),
        Action::Stop => "stop".to_string(),
    }
}

fn finished(state: Crawl) -> Result<Vec<(String, String)>, String> {
    match state {
        Crawl::Finished { outcome } => outcome
            .map(|items: Vec<ChapterItem>| items.into_iter().map(|i| (i.title, i.content)).collect()),
        _ => panic!("not finished"),
    }
}

const ARTICLE: &str = "<html><body><h1>题</h1><div>文<img src=\"/a.png\"></div></body></html>";

#[test]
fn a_body_is_finished() {
    let images = pairs(&[("a", "data:x")]);
    assert_eq!(
        finish_body("<div><img src=\"a\"></div><p>文</p>", &images),
        Some(format!(
            "<p><img src=\"data:x\" style=\"{}\"></p><p style=\"{}\">文</p>",
            merge_styles("", S_IMG),
            merge_styles("", S_P)
        ))
    );
    assert_eq!(finish_body("", &pairs(&[])), Some(String::new()));
}

#[test]
fn a_page_is_scraped() {
    let state = do_scrape("http://x/y/z");
    assert_eq!(text_of(scrape_action(&state)), "page http://x/y/z");
    let state = scrape_next(state, page(ARTICLE));
    assert_eq!(text_of(scrape_action(&state)), "images /a.png=http://x/a.png");
    let state = scrape_next(state, Event::Images(pairs(&[("/a.png", "data:x")])));
    assert_eq!(text_of(scrape_action(&state)), "stop");
    match state {
        Scrape::Finished { outcome: Ok((title, html)) } => {
            assert_eq!(title, "题");
            let body = finish_body(
                "<h1>题</h1><div>文<img src=\"/a.png\"></div>",
                &pairs(&[("/a.png", "data:x")]),
            );
            assert_eq!(html, build_rich_fragment_single("题", &body.unwrap()));
            assert!(html.contains("src=\"data:x\""));
            assert!(!html.contains("div"));
        }
        _ => panic!("not finished"),
    }
}

#[test]
fn a_page_that_does_not_come_is_an_error() {
    let state = scrape_next(do_scrape("http://x"), no_page("HTTP 404 Not Found"));
    assert_eq!(text_of(scrape_action(&state)), "stop");
    assert!(matches!(state, Scrape::Finished { outcome: Err(ref e) } if e == "HTTP 404 Not Found"));
    let state = scrape_next(state, page(ARTICLE));
    assert!(matches!(state, Scrape::Finished { outcome: Err(ref e) } if e == "HTTP 404 Not Found"));
}

#[test]
fn a_scrape_is_not_moved_by_what_it_did_not_ask_for() {
    let state = scrape_next(do_scrape("http://x"), Event::Rested);
    let state = scrape_next(state, Event::Images(pairs(&[])));
    assert_eq!(text_of(scrape_action(&state)), "page http://x");
    let state = scrape_next(state, page("<p>x</p>"));
    let state = scrape_next(state, page("<p>y</p>"));
    assert_eq!(text_of(scrape_action(&state)), "images ");
}

#[test]
fn the_chapters_of_a_text() {
    let list = "<title>t</title><ul class=\"nav-list\"><li><a href=\"1\">一</a></li></ul>";
    assert_eq!(list_chapters("http://x/y", list), pairs(&[("一", "http://x/1")]));
    assert_eq!(
        list_chapters("http://x/y", "<title>t</title>"),
        pairs(&[("t", "http://x/y")])
    );
}

#[test]
fn a_text_is_scraped_chapter_by_chapter() {
    let list = "<ul class=\"nav-list\"><li><a href=\"/1\">一</a></li>\
                <li><a href=\"/2\">二</a></li><li><a href=\"https://o/3\"></a></li></ul>";
    let state = do_scrape_all("http://x/y");
    assert_eq!(text_of(crawl_action(&state)), "page http://x/y");
    let state = crawl_next(state, page(list));
    assert_eq!(text_of(crawl_action(&state)), "page http://x/1");
    let state = crawl_next(state, page(ARTICLE));
    assert_eq!(text_of(crawl_action(&state)), "images /a.png=http://x/a.png");
    let state = crawl_next(state, Event::Images(pairs(&[])));
    assert_eq!(text_of(crawl_action(&state)), "rest 300");
    let state = crawl_next(state, Event::Rested);
    assert_eq!(text_of(crawl_action(&state)), "page http://x/2");
    let state = crawl_next(state, no_page("HTTP 500 Internal Server Error"));
    assert_eq!(text_of(crawl_action(&state)), "rest 300");
    let state = crawl_next(state, Event::Rested);
    assert_eq!(text_of(crawl_action(&state)), "page https://o/3");
    let state = crawl_next(state, page(ARTICLE));
    assert_eq!(text_of(crawl_action(&state)), "images /a.png=https://o/a.png");
    let state = crawl_next(state, Event::Images(pairs(&[("/a.png", "data:x")])));
    let state = crawl_next(state, Event::Rested);
    assert_eq!(text_of(crawl_action(&state)), "stop");
    let body = "<h1>题</h1><div>文<img src=\"/a.png\"></div>";
    assert_eq!(
        finished(state),
        Ok(vec![
            ("一".to_string(), finish_body(body, &pairs(&[])).unwrap()),
            (
                "二".to_string(),
                "<p style=\"color:#e53e3e;\">抓取失败: HTTP 500 Internal Server Error</p>".to_string()
            ),
            ("题".to_string(), finish_body(body, &pairs(&[("/a.png", "data:x")])).unwrap()),
        ])
    );
}

#[test]
fn a_text_without_a_sidebar_is_one_page() {
    let state = crawl_next(do_scrape_all("http://x/y"), page(ARTICLE));
    assert_eq!(text_of(crawl_action(&state)), "page http://x/y");
    let state = crawl_next(state, no_page("断"));
    let state = crawl_next(state, Event::Rested);
    assert_eq!(
        finished(state),
        Ok(vec![(
            "题".to_string(),
            "<p style=\"color:#e53e3e;\">抓取失败: 断</p>".to_string()
        )])
    );
}

#[test]
fn a_text_whose_first_page_does_not_come_is_an_error() {
    let state = crawl_next(do_scrape_all("http://x"), no_page("请求失败: 断"));
    assert_eq!(text_of(crawl_action(&state)), "stop");
    assert_eq!(finished(state), Err("请求失败: 断".to_string()));
}

#[test]
fn a_crawl_is_not_moved_by_what_it_did_not_ask_for() {
    let state = crawl_next(do_scrape_all("http://x"), Event::Rested);
    assert_eq!(text_of(crawl_action(&state)), "page http://x");
    let state = crawl_next(state, page(ARTICLE));
    let state = crawl_next(state, Event::Images(pairs(&[])));
    assert_eq!(text_of(crawl_action(&state)), "page http://x");
    let state = crawl_next(state, page(ARTICLE));
    let state = crawl_next(state, page(ARTICLE));
    assert_eq!(text_of(crawl_action(&state)), "images /a.png=http://x/a.png");
    let state = crawl_next(state, Event::Images(pairs(&[])));
    let state = crawl_next(state, page(ARTICLE));
    assert_eq!(text_of(crawl_action(&state)), "rest 300");
}

#[test]
fn a_crawl_asks_for_accepted_addresses_and_ends() {
    let list = "<div class=\"catalog\"><ul><li><a href=\"javascript:x\">a</a></li>\
                <li><a href=\"//o/3\">b</a></li><li><a href=\"\">c</a></li></ul></div>";
    let mut state = do_scrape_all("https://x");
    let mut first = true;
    let mut steps = 0;
    loop {
        let event = match crawl_action(&state) {
            Action::FetchPage(url) => {
                assert!(is_valid_url(&url));
                let html = if first { list } else { ARTICLE };
                first = false;
                page(html)
            }
            Action::FetchImages(requests) => {
                for (_, url) in &requests {
                    assert!(is_valid_url(url));
                }
                Event::Images(pairs(&[]))
            }
            Action::Rest(_) => Event::Rested,
            Action::Stop => break,
        };
        state = crawl_next(state, event);
        steps += 1;
    }
    assert_eq!(steps, 1 + 3 * 3);
    assert_eq!(finished(state).unwrap().len(), 3);
}

#[test]
fn a_page_too_large_for_the_parser_is_not_parsed() {
    let huge = || String::from_utf8(vec![0; MAX_BUFFER_BYTES + 1]).unwrap();
    let state = scrape_next(do_scrape("http://x"), Event::Page(Ok(huge())));
    assert!(matches!(state, Scrape::TooLarge));
    assert_eq!(text_of(scrape_action(&state)), "stop");
    let state = crawl_next(do_scrape_all("http://x"), Event::Page(Ok(huge())));
    assert!(matches!(state, Crawl::TooLarge));
    assert_eq!(text_of(crawl_action(&state)), "stop");
}
