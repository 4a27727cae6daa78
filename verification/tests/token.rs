use fire_scraper::token::{equal_attributes, tokenize, write_tokens};
use fire_scraper::value::{escape, read_value};

fn pairs(attrs: &[(&str, &str)]) -> Vec<(String, String)> {
    attrs.iter().map(|(k, v)| (k.to_string(), v.to_string())).collect()
}

fn tags(html: &str) -> Vec<(String, Vec<(String, String)>)> {
    tokenize(html).into_iter().filter_map(|t| t.tag).collect()
}

#[test]
fn values_are_written_and_read_back() {
    for value in ["", "a", "a&b", "&amp;", "<\"'>\u{a0}", "章&copy;节", "&#65;", "a&b=c"] {
        assert_eq!(read_value(&escape(value)), value);
    }
    assert_eq!(escape("a&\"<>\u{a0}'"), "a&amp;&quot;&lt;&gt;&nbsp;'");
}

#[test]
fn values_are_read_as_the_parser_reads_them() {
    let selector = scraper::Selector::parse("p").unwrap();
    for raw in [
        "", "a", "&", "&&", "&;", "&=", "& x", "&#", "&#x", "&#65;", "&#65", "&#x41;", "&#0;", "&amp;",
        "&amp", "&ampx", "&amp=1", "&amp;amp;", "&lt;&gt;", "&lt", "&ltx", "&gt=", "&quot;", "&nbsp;",
        "&NBSP;", "&copy;", "&copy", "&copy=1", "&copyx", "&notit;", "&notin;", "?a=1&b=2", "?a&b",
        "&b", "&b;", "a\r\nb", "a\rb", "a\0b", "'", "章", "&章", "&nGt;", "x&y=&z=&amp;",
    ] {
        let doc = scraper::Html::parse_fragment(&format!("<p title=\"{}\">", raw));
        let parsed = doc.select(&selector).next().unwrap().value().attr("title").unwrap();
        assert_eq!(read_value(raw), parsed, "{:?}", raw);
    }
    assert_eq!(read_value("\"&copy;"), "\"©");
}

#[test]
fn tags_are_read_as_the_parser_reads_them() {
    for html in [
        "<p>", "<P>", "<p/>", "<p a>", "<p a=>", "<p a= >", "<p a=b>", "<p a=b/>", "<p a=\"b\"c='d'>",
        "<p A=B>", "<p a = 'b' >", "<p\ta\n=\r\"b\">", "<p a=1 a=2>", "<p a=\"x>y\">", "<p =a>", "<p =>",
        "<p a/b>", "<p / a>", "<p a=b'c>", "<p \"a\">", "<p a=\"&amp;\">", "<h1 data-x='1'>", "<p é=É>",
    ] {
        let doc = scraper::Html::parse_fragment(html);
        let any = scraper::Selector::parse("p, h1").unwrap();
        let el = doc.select(&any).next().unwrap();
        let attrs: Vec<(String, String)> =
            el.value().attrs().map(|(k, v)| (k.to_string(), v.to_string())).collect();
        let read = tags(html);
        assert_eq!(read.len(), 1, "{}", html);
        assert_eq!(read[0].0, el.value().name(), "{}", html);
        assert!(equal_attributes(&read[0].1, &attrs), "{} {:?} {:?}", html, read, attrs);
    }
}

#[test]
fn the_parts_of_a_text() {
    let html = "a<p x='1'>b<!-- <i> --></p><script>if (a<b) \"<p>\"</script>< c<br/><!doctype x><";
    let parts: Vec<String> = tokenize(html).into_iter().map(|t| t.text).collect();
    assert_eq!(
        parts,
        vec![
            "a", "<p x='1'>", "b", "<!-- <i> -->", "</p>", "<script>", "if (a<b) \"<p>\"", "</script>",
            "< c", "<br/>", "<!doctype x>", "<"
        ]
    );
    assert_eq!(
        tags(html),
        vec![
            ("p".to_string(), pairs(&[("x", "1")])),
            ("script".to_string(), pairs(&[])),
            ("br".to_string(), pairs(&[])),
        ]
    );
}

#[test]
fn the_parts_make_up_the_text() {
    for html in [
        "", "x", "<", "<p", "<p a", "<p a=", "<p a='", "<!--", "<!-- x", "<!-->", "<!--->", "</", "</p",
        "<?", "<script>", "<SCRIPT>a</Script >b", "<title><b></title", "<p><q>r</q></p>", "1<2>3",
    ] {
        assert_eq!(write_tokens(&tokenize(html)), html);
    }
}

#[test]
fn attributes_are_compared_in_any_order() {
    let a = pairs(&[("x", "1"), ("y", "2")]);
    assert!(equal_attributes(&a, &pairs(&[("y", "2"), ("x", "1")])));
    assert!(!equal_attributes(&a, &pairs(&[("x", "1")])));
    assert!(!equal_attributes(&pairs(&[("x", "1")]), &a));
    assert!(!equal_attributes(&a, &pairs(&[("x", "1"), ("y", "3")])));
    assert!(equal_attributes(&pairs(&[]), &pairs(&[])));
}
