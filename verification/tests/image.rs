use fire_scraper::image::{collect_images, image_data_uri, image_mime, plan_images, replace_img_src};
use fire_scraper::url::is_valid_url;

fn pairs(images: &[(&str, &str)]) -> Vec<(String, String)> {
    images.iter().map(|(k, v)| (k.to_string(), v.to_string())).collect()
}

#[test]
fn kinds_of_images() {
    let kind = |ct: &str| image_mime(Some(ct.as_bytes()));
    assert_eq!(kind("image/png"), "image/png");
    assert_eq!(kind("image/gif; x"), "image/gif");
    assert_eq!(kind("image/webp"), "image/webp");
    assert_eq!(kind("image/svg+xml"), "image/svg+xml");
    assert_eq!(kind("image/jpeg"), "image/jpeg");
    assert_eq!(kind("text/html"), "image/jpeg");
    assert_eq!(kind("IMAGE/PNG"), "image/jpeg");
    assert_eq!(kind("png gif"), "image/png");
    assert_eq!(image_mime(Some(b"image/png\xff")), "image/jpeg");
    assert_eq!(image_mime(None), "image/jpeg");
}

#[test]
fn images_as_addresses() {
    assert_eq!(image_data_uri(None, b""), "data:image/jpeg;base64,");
    assert_eq!(image_data_uri(None, b"M"), "data:image/jpeg;base64,TQ==");
    assert_eq!(image_data_uri(None, b"Ma"), "data:image/jpeg;base64,TWE=");
    assert_eq!(image_data_uri(Some(b"png"), b"Man"), "data:image/png;base64,TWFu");
    assert_eq!(image_data_uri(None, b"\xfb\xff\xbf"), "data:image/jpeg;base64,+/+/");
    assert_eq!(image_data_uri(None, b"\x00\x10\x83\x10"), "data:image/jpeg;base64,ABCDEA==");
}

#[test]
fn an_image_fits_into_an_attribute_and_loses_nothing() {
    let bytes: Vec<u8> = (0..=255).collect();
    let uri = image_data_uri(None, &bytes);
    assert!(!uri.contains(|c: char| c == '"' || c == '\'' || c == '<' || c == '>'));
    for n in 0..bytes.len() {
        assert_ne!(image_data_uri(None, &bytes[..n]), image_data_uri(None, &bytes[..n + 1]));
        let mut other = bytes.clone();
        other[n] ^= 1;
        assert_ne!(image_data_uri(None, &other), uri);
    }
}

#[test]
fn base64_by_the_alphabet() {
    const DIGITS: &[u8] = b"ABCDEFGHIJKLMNOPQRSTUVWXYZabcdefghijklmnopqrstuvwxyz0123456789+/";
    for a in 0..=255u8 {
        for b in [0u8, 1, 15, 16, 85, 170, 255] {
            let (x, y) = (a as usize, b as usize);
            let one = [DIGITS[x / 4], DIGITS[x % 4 * 16], b'=', b'='];
            let two = [DIGITS[x / 4], DIGITS[x % 4 * 16 + y / 16], DIGITS[y % 16 * 4], b'='];
            let three = [
                DIGITS[y / 4],
                DIGITS[y % 4 * 16 + y / 16],
                DIGITS[y % 16 * 4 + x / 64],
                DIGITS[x % 64],
            ];
            let text = |code: [u8; 4]| {
                format!("data:image/jpeg;base64,{}", String::from_utf8(code.to_vec()).unwrap())
            };
            assert_eq!(image_data_uri(None, &[a]), text(one));
            assert_eq!(image_data_uri(None, &[a, b]), text(two));
            assert_eq!(image_data_uri(None, &[b, b, a]), text(three));
        }
    }
}

#[test]
fn images_to_fetch() {
    let html = "<img src=\"/a.png\"><img src=\"//b/c\"><img src=\"/a.png\"><img src=\"http://d\">";
    let plan = plan_images(html, "https://x");
    assert_eq!(
        plan,
        pairs(&[("/a.png", "https://x/a.png"), ("//b/c", "https://b/c"), ("http://d", "http://d")])
    );
    for (_, url) in &plan {
        assert!(is_valid_url(url));
    }
    assert_eq!(plan_images("<p>x</p>", "https://x"), pairs(&[]));
}

#[test]
fn images_that_came() {
    let m = |k: &str, v: &str| Some((k.to_string(), v.to_string()));
    assert_eq!(
        collect_images(vec![m("a", "1"), None, m("b", "2"), m("a", "3")]),
        pairs(&[("a", "3"), ("b", "2")])
    );
    assert_eq!(collect_images(vec![None, None]), pairs(&[]));
    assert_eq!(collect_images(vec![]), pairs(&[]));
}

#[test]
fn images_are_put_in() {
    let images = pairs(&[("a", "data:1"), ("b", "data:2")]);
    assert_eq!(
        replace_img_src("<img src=\"a\"><img src='b'><img src=\"c\"><img src=\"a\">", &images),
        "<img src=\"data:1\"><img src='data:2'><img src=\"c\"><img src=\"data:1\">"
    );
    assert_eq!(replace_img_src("<img src=\"aa\"><img src=a>", &images), "<img src=\"aa\"><img src=a>");
    assert_eq!(replace_img_src("<img data-src=\"a\">", &images), "<img data-src=\"data:1\">");
}

#[test]
fn text_that_names_no_image_is_unchanged() {
    let html = "<p>a b</p><img src=\"c\">";
    assert_eq!(replace_img_src(html, &pairs(&[("a", "1"), ("b", "2")])), html);
    assert_eq!(replace_img_src(html, &pairs(&[])), html);
}

#[test]
fn an_image_stands_where_its_source_was_named() {
    for src in ["a", "it's", "src=", "src='x", ""] {
        let images = pairs(&[(src, "data:image/png;base64,TWFu")]);
        let double = format!("<p><img src=\"{}\"></p>", src);
        assert!(replace_img_src(&double, &images).contains("src=\"data:image/png;base64,TWFu\""));
        let single = format!("src=\"<img src='{}'>src=\"", src);
        assert!(replace_img_src(&single, &images).contains("src='data:image/png;base64,TWFu'"));
    }
}

#[test]
fn an_image_is_found_by_its_escaped_source() {
    let images = pairs(&[("/a?x=1&y=2", "data:1")]);
    assert_eq!(
        replace_img_src("<img src=\"/a?x=1&amp;y=2\"><img src='/a?x=1&amp;y=2'>", &images),
        "<img src=\"data:1\"><img src='data:1'>"
    );
    assert_eq!(replace_img_src("<img src=\"/a?x=1&y=2\">", &images), "<img src=\"data:1\">");
    let html = "<p><img src=\"/a?x=1&amp;y=2\"></p>";
    let plan = plan_images(html, "http://x");
    assert_eq!(plan, pairs(&[("/a?x=1&y=2", "http://x/a?x=1&y=2")]));
}

#[test]
fn putting_images_in_twice_changes_nothing() {
    let images = pairs(&[("a", "data:1"), ("b&c", "data:2"), ("b&amp;c", "data:3")]);
    let html = "<img src=\"a\"><img src='b&amp;c'><img src=\"b&c\"><img src=\"b&amp;amp;c\">a";
    let once = replace_img_src(html, &images);
    assert_eq!(
        once,
        "<img src=\"data:1\"><img src='data:2'><img src=\"data:2\"><img src=\"data:3\">a"
    );
    assert_eq!(replace_img_src(&once, &images), once);
}

#[test]
fn a_spelling_belongs_to_the_source_that_it_means() {
    let html = "<img src=\"b&amp;c\"><img src=\"b&amp;amp;c\">";
    for images in [
        pairs(&[("b&amp;c", "data:1"), ("b&c", "data:2")]),
        pairs(&[("b&c", "data:2"), ("b&amp;c", "data:1")]),
    ] {
        assert_eq!(replace_img_src(html, &images), "<img src=\"data:2\"><img src=\"data:1\">");
    }
    let alone = pairs(&[("b&amp;c", "data:1")]);
    assert_eq!(replace_img_src(html, &alone), "<img src=\"data:1\"><img src=\"data:1\">");
    let own = pairs(&[("b&c", "b&amp;c")]);
    let once = replace_img_src("<img src=\"b&c\">", &own);
    assert_eq!(once, "<img src=\"b&amp;c\">");
    assert_eq!(replace_img_src(&once, &own), once);
}
