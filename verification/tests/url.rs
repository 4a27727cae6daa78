use fire_scraper::url::{extract_base_url, is_valid_url, to_absolute};

#[test]
fn accepted_addresses() {
    assert!(is_valid_url("http://a"));
    assert!(is_valid_url("https://a"));
    assert!(is_valid_url("http://"));
    assert!(!is_valid_url("HTTP://a"));
    assert!(!is_valid_url("ftp://a"));
    assert!(!is_valid_url(" http://a"));
    assert!(!is_valid_url(""));
}

#[test]
fn the_site_of_an_address() {
    assert_eq!(extract_base_url("https://a.cn/b/c?d"), "https://a.cn");
    assert_eq!(extract_base_url("http://a.cn:8080"), "http://a.cn:8080");
    assert_eq!(extract_base_url("http://a.cn?x=/y"), "http://a.cn?x=");
    assert_eq!(extract_base_url("a/b"), "a/b");
    assert_eq!(extract_base_url("x://"), "x://");
    assert_eq!(extract_base_url("/r?u=http://a/b"), "/r?u=http://a");
}

#[test]
fn links_on_a_page() {
    let base = "https://a.cn";
    assert_eq!(to_absolute("http://b/c", base), "http://b/c");
    assert_eq!(to_absolute("https://b/c", base), "https://b/c");
    assert_eq!(to_absolute("//b/c", base), "https://b/c");
    assert_eq!(to_absolute("/c", base), "https://a.cn/c");
    assert_eq!(to_absolute("c", base), "https://a.cn/c");
    assert_eq!(to_absolute("", base), "https://a.cn/");
    assert_eq!(to_absolute("#x", base), "https://a.cn/#x");
}

#[test]
fn the_site_of_an_accepted_address_is_accepted_and_so_are_its_links() {
    for url in ["http://a/b", "https://a", "https://a/b/c", "http://"] {
        let base = extract_base_url(url);
        assert!(is_valid_url(&base));
        assert!(url.starts_with(&base));
        assert_eq!(extract_base_url(&base), base);
        for src in ["x", "/x", "//x", "http://x", "javascript:y", ""] {
            assert!(is_valid_url(&to_absolute(src, &base)));
        }
    }
}

#[test]
fn the_site_of_a_relative_link() {
    for base in ["http://a", "https://a:1", "http://", "x://y?z"] {
        for src in ["", "x", "/x/y", "?q=://z", "ftp://b/c", "#"] {
            assert_eq!(extract_base_url(&to_absolute(src, base)), base);
        }
    }
}
