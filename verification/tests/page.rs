use fire_scraper::dom::{is_parseable, Node, Tag};
use fire_scraper::page::{choose_body, choose_links, choose_title, collect_values};
use fire_scraper::page::{extract_chapter_links, extract_img_srcs, gather_links, parse_html};
use fire_scraper::url::is_valid_url;

fn node(value: Option<&str>, text: &str, inner_html: &str) -> Node {
    Node {
        value: value.map(|v| v.to_string()),
        texts: text.split('|').map(|t| t.to_string()).collect(),
        inner_html: inner_html.to_string(),
    }
}

fn pairs(links: &[(&str, &str)]) -> Vec<(String, String)> {
    links.iter().map(|(k, v)| (k.to_string(), v.to_string())).collect()
}

#[test]
fn ordinary_pages_can_be_parsed() {
    assert!(is_parseable(""));
    assert!(is_parseable(&"章".repeat(100_000)));
    assert!(is_parseable(&"&\0".repeat(100_000)));
}

#[test]
fn the_title_comes_from_the_first_heading_or_the_head() {
    let page = |body: &str| format!("<html><head><title> 头 </title></head><body>{}</body></html>", body);
    assert_eq!(parse_html(&page("<h1> 题<b>目</b> </h1><h1>x</h1>")).0, "题目");
    assert_eq!(parse_html(&page("<h1>  </h1>")).0, "头");
    assert_eq!(parse_html(&page("")).0, "头");
    assert_eq!(parse_html("<p>x</p>").0, "未知标题");
    assert_eq!(parse_html("").0, "未知标题");
}

#[test]
fn a_title_is_never_empty() {
    for picked in [
        vec![],
        vec![None, Some(vec![])],
        vec![Some(vec![node(None, " \n ", "")]), Some(vec![node(None, " t | |u ", "")])],
    ] {
        let title = choose_title(&picked);
        assert!(!title.is_empty());
        assert_eq!(title.trim(), title);
    }
    let picked = vec![Some(vec![node(None, " t | |u ", "")])];
    assert_eq!(choose_title(&picked), "t  u");
}

#[test]
fn the_body_comes_from_the_first_substantial_place() {
    let long = "x".repeat(51);
    let short = "x".repeat(50);
    let page = format!("<body><div id=\"b_con\">{}</div><article>{}</article></body>", short, long);
    assert_eq!(parse_html(&page).1, long);
    let page = format!("<body><div id=\"b_con\">{}</div><article>y</article></body>", long);
    assert_eq!(parse_html(&page).1, long);
    let page = format!("<body><div class=\"article-content\">{}</div></body>", long);
    assert_eq!(parse_html(&page).1, long);
    let page = format!("<body><div class=\"content-detail\">{}</div></body>", long);
    assert_eq!(parse_html(&page).1, long);
    assert_eq!(parse_html("<body><p>短</p></body>").1, "<p>短</p>");
    assert_eq!(parse_html("").1, "");
}

#[test]
fn the_length_of_a_body_is_counted_in_bytes() {
    let seventeen = "章".repeat(17);
    let picked = vec![Some(vec![node(None, "", &seventeen)]), Some(vec![node(None, "", "z")])];
    assert_eq!(choose_body(&picked), seventeen);
    let sixteen = format!("  {}  ", "章".repeat(16));
    let picked = vec![Some(vec![node(None, "", &sixteen)]), Some(vec![node(None, "", "z")])];
    assert_eq!(choose_body(&picked), "z");
}

#[test]
fn the_last_place_for_a_body_is_taken_as_it_is() {
    assert_eq!(choose_body(&vec![None, Some(vec![node(None, "", "短")])]), "短");
    assert_eq!(choose_body(&vec![Some(vec![node(None, "", "短")]), Some(vec![])]), "");
    assert_eq!(choose_body(&vec![]), "");
}

#[test]
fn chapters_of_a_sidebar() {
    let html = "<div class=\"rul\"><ul class=\"show\">\
                <li><a href=\"/1.html\"> 第一章 </a></li>\
                <li><a>无</a></li>\
                <li><a href=\"2.html\">第<b>二</b>章</a></li>\
                <li><a href=\"https://a.cn/1.html\">又</a></li>\
                <li><a href=\"//b.cn/3\"></a></li>\
                </ul></div><div class=\"sidebar\"><ul><li><a href=\"/x\">x</a></li></ul></div>";
    assert_eq!(
        extract_chapter_links(html, "https://a.cn"),
        pairs(&[
            ("第一章", "https://a.cn/1.html"),
            ("第二章", "https://a.cn/2.html"),
            ("", "https://b.cn/3"),
        ])
    );
}

#[test]
fn other_places_for_chapters() {
    let base = "http://a";
    let one = pairs(&[("x", "http://a/x")]);
    let at = |class: &str| {
        format!("<div class=\"{}\"><ul><li><a href=\"/x\">x</a></li></ul></div>", class)
    };
    assert_eq!(extract_chapter_links(&at("sidebar"), base), one);
    assert_eq!(extract_chapter_links(&at("catalog"), base), one);
    assert_eq!(extract_chapter_links(&at("nav-list"), base), one);
    assert_eq!(extract_chapter_links(&at("other"), base), pairs(&[]));
    assert_eq!(extract_chapter_links("", base), pairs(&[]));
}

#[test]
fn chapters_have_distinct_and_accepted_addresses() {
    let nodes = vec![
        node(Some("a"), "1", ""),
        node(Some("/a"), "2", ""),
        node(Some("//a"), "3", ""),
        node(Some("http://b/a"), "4", ""),
        node(None, "5", ""),
    ];
    let links = gather_links(&nodes, "http://b");
    assert_eq!(links, pairs(&[("1", "http://b/a"), ("3", "https://a")]));
    for (_, url) in &links {
        assert!(is_valid_url(url));
    }
    let picked = vec![None, Some(vec![node(None, "5", "")]), Some(nodes)];
    assert_eq!(choose_links(&picked, "http://b"), links);
}

#[test]
fn image_sources_each_once() {
    let html = "<p><img src=\"a\"><img><img src='b'><img src=\"a\"><img src=\"\"></p>";
    assert_eq!(extract_img_srcs(html), vec!["a".to_string(), "b".to_string(), String::new()]);
    assert_eq!(extract_img_srcs("<p>x</p>"), Vec::<String>::new());
    assert_eq!(extract_img_srcs("<img src=\"a?x&amp;y\">"), vec!["a?x&y".to_string()]);
}

#[test]
fn values_of_a_selection() {
    let tag = |value: Option<&str>| Tag {
        name: "img".to_string(),
        attrs: vec![],
        value: value.map(|v| v.to_string()),
    };
    let picked = Some(vec![tag(Some("x")), tag(None), tag(Some("y")), tag(Some("x"))]);
    assert_eq!(collect_values(&picked), vec!["x".to_string(), "y".to_string()]);
    assert_eq!(collect_values(&None), Vec::<String>::new());
}
