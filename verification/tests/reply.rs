use fire_scraper::crawl::ChapterItem;
use fire_scraper::reply::{bad_request, requested_url, scrape_all_reply, scrape_reply};

#[test]
fn refused_requests() {
    let (status, answer) = bad_request("不");
    assert_eq!(status, 400);
    assert!(!answer.success);
    assert_eq!(answer.html, None);
    assert_eq!(answer.title, None);
    assert_eq!(answer.error, Some("不".to_string()));
}

#[test]
fn requested_addresses() {
    assert_eq!(requested_url(" https://a \n").ok(), Some("https://a".to_string()));
    assert_eq!(requested_url("http://a").ok(), Some("http://a".to_string()));
    for raw in ["", "a", "ftp://a", "h ttp://a"] {
        match requested_url(raw) {
            Ok(url) => panic!("{}", url),
            Err((status, answer)) => {
                assert_eq!(status, 400);
                assert!(!answer.success);
                assert_eq!(answer.html, None);
                assert_eq!(answer.title, None);
                assert_eq!(answer.error, Some("URL 必须以 http:// 或 https:// 开头".to_string()));
            }
        }
    }
}

#[test]
fn answers_about_a_page() {
    let (status, answer) = scrape_reply(Ok(("题".to_string(), "<p>".to_string())));
    assert_eq!(status, 200);
    assert!(answer.success);
    assert_eq!(answer.html, Some("<p>".to_string()));
    assert_eq!(answer.title, Some("题".to_string()));
    assert_eq!(answer.error, None);
    let (status, answer) = scrape_reply(Err("断".to_string()));
    assert_eq!(status, 500);
    assert!(!answer.success);
    assert_eq!(answer.html, None);
    assert_eq!(answer.title, None);
    assert_eq!(answer.error, Some("断".to_string()));
}

#[test]
fn answers_about_a_text() {
    let item = |t: &str| ChapterItem { title: t.to_string(), content: format!("<p>{}", t) };
    let (status, answer) = scrape_all_reply(Ok(vec![item("一"), item("二")]));
    assert_eq!(status, 200);
    assert!(answer.success);
    assert_eq!(answer.total, Some(2));
    let items = answer.items.unwrap();
    assert_eq!(items.len(), 2);
    assert_eq!(items[1].title, "二");
    assert_eq!(items[1].content, "<p>二");
    assert_eq!(answer.error, None);
    let (status, answer) = scrape_all_reply(Err("断".to_string()));
    assert_eq!(status, 500);
    assert!(!answer.success);
    assert_eq!(answer.total, None);
    assert!(answer.items.is_none());
    assert_eq!(answer.error, Some("断".to_string()));
}
