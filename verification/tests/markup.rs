use fire_scraper::dom::Tag;
use fire_scraper::markup::{apply_inline_styles, build_rich_fragment_single, opening_tag_str};
use fire_scraper::markup::{rebuild_tag, respell, restyle, style_selections, write_tag};
use fire_scraper::style::{merge_styles, style_properties, S_H1, S_H2, S_H3, S_H4, S_IMG, S_LI, S_OL};
use fire_scraper::style::{S_P, S_STRONG, S_TABLE, S_TD, S_TH, S_UL};
use fire_scraper::token::{tokenize, write_tokens};

fn tag(name: &str, attrs: &[(&str, &str)]) -> Tag {
    Tag {
        name: name.to_string(),
        attrs: attrs.iter().map(|(k, v)| (k.to_string(), v.to_string())).collect(),
        value: attrs.iter().find(|(k, _)| *k == "style").map(|(_, v)| v.to_string()),
    }
}

fn restyled(text: &str, el: &Tag, style: &str) -> String {
    write_tokens(&restyle(tokenize(text), el, style))
}

const RULES: [(&str, &str); 13] = [
    ("p", S_P),
    ("h1", S_H1),
    ("h2", S_H2),
    ("h3", S_H3),
    ("h4", S_H4),
    ("table", S_TABLE),
    ("th", S_TH),
    ("td", S_TD),
    ("img", S_IMG),
    ("strong", S_STRONG),
    ("ul", S_UL),
    ("ol", S_OL),
    ("li", S_LI),
];

/// Each listed element of the text, by name, attributes other than its style, and properties.
fn elements(html: &str) -> Vec<(String, Vec<(String, String)>, Vec<(String, String)>)> {
    let doc = scraper::Html::parse_fragment(html);
    let mut out = Vec::new();
    for (name, _) in RULES {
        let selector = scraper::Selector::parse(name).unwrap();
        for el in doc.select(&selector) {
            let attrs = el
                .value()
                .attrs()
                .filter(|(k, _)| *k != "style")
                .map(|(k, v)| (k.to_string(), v.to_string()))
                .collect();
            let style = style_properties(el.value().attr("style").unwrap_or(""));
            out.push((name.to_string(), attrs, style));
        }
    }
    out
}

#[test]
fn written_tags() {
    let write = |el: Tag| write_tag(&el.name, &el.attrs);
    assert_eq!(write(tag("p", &[])), "<p>");
    assert_eq!(write(tag("img", &[("src", "a"), ("alt", "")])), "<img src=\"a\" alt=\"\">");
    assert_eq!(write(tag("p", &[("style", "x")])), "<p style=\"x\">");
    assert_eq!(
        write(tag("a", &[("href", "?x&y=\"<>\u{a0}'")])),
        "<a href=\"?x&amp;y=&quot;&lt;&gt;&nbsp;'\">"
    );
    assert_eq!(write(tag("a", &[("href", "/a?x=1&y=2<>'")])), "<a href=\"/a?x=1&y=2<>'\">");
    assert_eq!(write(tag("a", &[("href", "&amp;")])), "<a href=\"&amp;amp;\">");
}

#[test]
fn opening_tags_as_they_stand() {
    let class = tag("p", &[("class", "a")]);
    assert_eq!(opening_tag_str("<p class='a'>x</p>", &class), "<p class='a'>");
    assert_eq!(opening_tag_str("<b><P  CLASS = a >x</P>", &class), "<P  CLASS = a >");
    assert_eq!(opening_tag_str("<p class=\"b\"><p class=\"a\">", &class), "<p class=\"a\">");
    let img = tag("img", &[("alt", "x"), ("src", "/a?x=1&y=2")]);
    let text = "<img src=\"/a?x=1&amp;y=2\" alt=x>";
    assert_eq!(opening_tag_str(text, &img), text);
    assert_eq!(
        opening_tag_str("<img src='/a?x=1&y=2' alt='&#120;'/>", &img),
        "<img src='/a?x=1&y=2' alt='&#120;'/>"
    );
    assert_eq!(opening_tag_str("<i>", &class), "<p class=\"a\">");
}

#[test]
fn rebuilt_tags() {
    assert_eq!(rebuild_tag(&tag("p", &[]), ""), "<p>");
    assert_eq!(rebuild_tag(&tag("p", &[]), "a: b"), "<p style=\"a: b\">");
    assert_eq!(rebuild_tag(&tag("p", &[("style", "x")]), ""), "<p>");
    assert_eq!(
        rebuild_tag(&tag("p", &[("id", "1&2")]), "a: \"b\""),
        "<p id=\"1&2\" style=\"a: &quot;b&quot;\">"
    );
    assert_eq!(
        rebuild_tag(&tag("p", &[("id", "1"), ("style", "x"), ("lang", "zh")]), "a: b"),
        "<p id=\"1\" lang=\"zh\" style=\"a: b\">"
    );
}

#[test]
fn one_element_is_given_its_style() {
    assert_eq!(
        restyled("<b><b>", &tag("b", &[]), "color:red"),
        "<b style=\"color: red\"><b>"
    );
    assert_eq!(restyled("<i>", &tag("b", &[]), "color:red"), "<i>");
    assert_eq!(restyled("<b>", &tag("b", &[]), ""), "<b>");
    let styled = tag("b", &[("style", "color: red")]);
    assert_eq!(restyled("<b style=\"color: red\">", &styled, "color:blue"), "<b style=\"color: red\">");
}

#[test]
fn restyling_twice_changes_nothing() {
    let el = tag("p", &[("id", "1"), ("style", "Color:Red")]);
    let given = merge_styles("Color:Red", S_P);
    let again = tag("p", &[("id", "1"), ("style", &given)]);
    let text = format!("<p id=\"1\" style=\"{}\">", given);
    assert_eq!(restyled("<p id=\"1\" style=\"Color:Red\">", &el, S_P), text);
    assert_eq!(restyled(&text, &again, S_P), text);
}

#[test]
fn selections_are_styled_rule_by_rule() {
    let picked = vec![Some(vec![tag("p", &[])]), None, Some(vec![])];
    assert_eq!(
        style_selections("<p>x</p>", &picked),
        format!("<p style=\"{}\">x</p>", merge_styles("", S_P))
    );
    assert_eq!(style_selections("<p>x</p>", &vec![]), "<p>x</p>");
    assert_eq!(style_selections("<p>x</p>", &vec![None, Some(vec![])]), "<p>x</p>");
}

#[test]
fn elements_get_the_styles_of_the_editor() {
    let p = merge_styles("", S_P);
    assert_eq!(apply_inline_styles("<p>一</p>"), format!("<p style=\"{}\">一</p>", p));
    assert_eq!(
        apply_inline_styles("<p>一</p><p>二</p>"),
        format!("<p style=\"{0}\">一</p><p style=\"{0}\">二</p>", p)
    );
    assert_eq!(
        apply_inline_styles("<p style=\"color:red\">x</p>"),
        format!("<p style=\"{}\">x</p>", merge_styles("color:red", S_P))
    );
    assert_eq!(
        apply_inline_styles("<ul><li><strong>x</strong></li></ul>"),
        format!(
            "<ul style=\"{}\"><li style=\"{}\"><strong style=\"{}\">x</strong></li></ul>",
            merge_styles("", S_UL),
            merge_styles("", S_LI),
            merge_styles("", S_STRONG)
        )
    );
    assert_eq!(
        apply_inline_styles("<table><tbody><tr><td>x</td></tr></tbody></table>"),
        format!(
            "<table style=\"{}\"><tbody><tr><td style=\"{}\">x</td></tr></tbody></table>",
            merge_styles("", S_TABLE),
            merge_styles("", S_TD)
        )
    );
    assert_eq!(
        apply_inline_styles("<img src=\"a.png\">"),
        format!("<img src=\"a.png\" style=\"{}\">", merge_styles("", S_IMG))
    );
}

#[test]
fn what_no_rule_is_about_is_unchanged() {
    for html in ["", "章节", "<div>x</div>", "<h5>x</h5><span>y</span>"] {
        assert_eq!(apply_inline_styles(html), html);
    }
}

#[test]
fn a_tag_is_styled_however_it_is_written() {
    let p = merge_styles("", S_P);
    let img = "max-width: 100%; height: auto; display: block; margin: 10px auto";
    assert_eq!(apply_inline_styles("<P>x</P>"), format!("<P style=\"{}\">x</P>", p));
    assert_eq!(
        apply_inline_styles("<p  id='1'>x</p>"),
        format!("<p  id='1' style=\"{}\">x</p>", p)
    );
    assert_eq!(
        apply_inline_styles("<img src=\"/a?x=1&amp;y=2\">"),
        format!("<img src=\"/a?x=1&amp;y=2\" style=\"{}\">", img)
    );
    assert_eq!(
        apply_inline_styles("<img src=\"/a?x=1&y=2\">"),
        format!("<img src=\"/a?x=1&y=2\" style=\"{}\">", img)
    );
    assert_eq!(
        apply_inline_styles("<img src='&copy;.png' />"),
        format!("<img src='&copy;.png' style=\"{}\" />", img)
    );
    assert_eq!(
        apply_inline_styles("<p style=\"font-family:&quot;A B&quot;\">x</p>"),
        format!(
            "<p style=\"{}\">x</p>",
            merge_styles("font-family:\"A B\"", S_P).replace('"', "&quot;")
        )
    );
    assert_eq!(
        apply_inline_styles("<p style=\"background:url(a?x=1&y=2)\" class=c>x</p>"),
        format!(
            "<p class=c style=\"{}\">x</p>",
            merge_styles("background:url(a?x=1&y=2)", S_P)
        )
    );
}

#[test]
fn a_tag_that_would_read_otherwise_is_written_anew() {
    let p = merge_styles("", S_P);
    assert_eq!(apply_inline_styles("<p a=>x</p>"), format!("<p a=\"\" style=\"{}\">x</p>", p));
    assert_eq!(
        apply_inline_styles("<p style=\"\"b=\"&amp;lt;\">x</p>"),
        format!("<p b=\"&amp;lt;\" style=\"{}\">x</p>", p)
    );
}

#[test]
fn a_style_comes_last_even_where_it_is_complete() {
    let full = merge_styles("", S_P);
    let first = format!("<p style=\"{}\" title=\"t\">x</p>", full);
    let last = format!("<p title=\"t\" style=\"{}\">x</p>", full);
    assert_eq!(apply_inline_styles(&first), last);
    assert_eq!(apply_inline_styles(&last), last);
    assert_eq!(apply_inline_styles(&first.repeat(3)), last.repeat(3));
    let behind = format!("<p style='{}' id=\"1\">x</p>", full);
    assert_eq!(apply_inline_styles(&behind), behind);
}

#[test]
fn a_tag_is_respelled_with_its_style_last() {
    assert_eq!(respell("<p>", "a: b"), "<p style=\"a: b\">");
    assert_eq!(respell("<p style=x STYLE='y' id=1 >", "a: b"), "<p id=1 style=\"a: b\" >");
    assert_eq!(respell("<p style=x>", ""), "<p>");
    assert_eq!(respell("", "a: b"), "");
    for attrs in [&[][..], &[("id", "1")], &[("id", "a&b=c"), ("style", "x"), ("title", "")]] {
        let el = tag("p", attrs);
        assert_eq!(respell(&write_tag(&el.name, &el.attrs), "a: b"), rebuild_tag(&el, "a: b"));
    }
}

#[test]
fn what_only_looks_like_a_tag_is_not_styled() {
    let p = merge_styles("", S_P);
    for before in [
        "<!-- <p> -->",
        "<script>x = \"<p>\";</script>",
        "<style>/* <p> */</style>",
        "<textarea><p></textarea>",
        "<i title=\"<p>\">y</i>",
        "1 < 2",
        "<? <p>",
        "<!-->",
        "<!--->",
        "<!-- <p> --!>",
        "<!--!> <p> -->",
        "<script><!-- <script> <p> </script> <p> --></script>",
        "<noscript><p></noscript>",
        "</b title=\"<p>\">",
    ] {
        assert_eq!(
            apply_inline_styles(&format!("{}<p>x</p>", before)),
            format!("{}<p style=\"{}\">x</p>", before, p)
        );
    }
    assert_eq!(apply_inline_styles("<p>x</p><p"), format!("<p style=\"{}\">x</p><p", p));
}

#[test]
fn a_comment_may_end_with_a_bang() {
    assert_eq!(
        apply_inline_styles("<!--a--!><p>x</p>"),
        format!("<!--a--!><p style=\"{}\">x</p>", merge_styles("", S_P))
    );
}

#[test]
fn titles_in_foreign_content_hold_elements() {
    let p = merge_styles("", S_P);
    assert_eq!(
        apply_inline_styles("<svg><title><p>x</p></title></svg>"),
        format!("<svg><title><p style=\"{}\">x</p></title></svg>", p)
    );
    assert_eq!(apply_inline_styles("<title><p>x</p></title>"), "<title><p>x</p></title>");
    assert_eq!(
        apply_inline_styles("<svg><![CDATA[<p>]]></svg><p>x</p>"),
        format!("<svg><![CDATA[<p>]]></svg><p style=\"{}\">x</p>", p)
    );
}

#[test]
fn every_listed_element_gets_its_style_and_keeps_its_own() {
    for html in [
        "<!--a--!><p>1</p><!----!><p>2</p><!---!><p>3</p>--><p>4</p>",
        "<svg><title><p>a</p></title><desc><img src=b></desc></svg><title><p></title><p>c</p>",
        "<svg><style><p>a</p></style></svg><style><p></style><p>b</p>",
        "<svg/><title><p></title><p>x</p><math><mi><p>y</p></mi><title><p>z</p></title></math>",
        "<svg><g><foreignObject><style><p></style><p>a</p></foreignObject><title><p>b</p></title></g></svg>",
        "<svg a=b/><title><p>a</p></title></svg><svg a=b /><title><p></title><p>c</p>",
        "<svg><p>out</p><title><p></title><p>x</p>",
        "<svg><![CDATA[ <p> ]]><title><p>a</p></title></svg><![CDATA[ <p> ]]><p>b</p>",
        "<svg><font color=red><title><p></title><p>x</p>",
        "<script><!-- <script> <p> </script> <p> --> </script><p>x</p>",
        "<script><!--> <p> </script><p>x</p>",
        "<p>x</p><plaintext><p>",
        "</b title=\"<p>\"><p>x</p>",
        "<p>一</p><p class=a>二</p><P id='b' class=\"c\">三</P>",
        "<p title=\"a&b\">1</p><p title='a&amp;b'>2</p><p title=\"a&amp;b\" title=x>3</p>",
        "<img src=\"/a?x=1&amp;y=2\" alt='\"'><img alt=\"'\" src=z/><IMG SRC=q>",
        "<h1 style='color:red'>a</h1><h2 STYLE=\"Color : blue\">b</h2><h3>c</h3><h4 style>d</h4>",
        "<table border=1><tr><th width=10%>a<td style=\"font:&quot;x&quot;\">b</table>",
        "<ul><li>1<li>2<li>3</ul><ol start=\"&#49;\"><li><strong>x</strong></ol>",
        "<div><p>a<p>b</div><p\nid=1\t>c</p>",
        "<p a=1 a=2 b>x</p><p =x>y</p><p /q>z</p>",
    ] {
        let styled = apply_inline_styles(html);
        let before = elements(html);
        let after = elements(&styled);
        assert!(!before.is_empty(), "{}", html);
        assert_eq!(before.len(), after.len(), "{}", styled);
        for (old, new) in before.iter().zip(&after) {
            let defaults = RULES.iter().find(|(name, _)| *name == old.0).unwrap().1;
            assert_eq!(old.0, new.0);
            assert_eq!(old.1, new.1, "{}", styled);
            let existing: Vec<String> = old.2.iter().map(|(k, v)| format!("{}:{}", k, v)).collect();
            let merged = merge_styles(&existing.join(";"), defaults);
            assert_eq!(new.2, style_properties(&merged), "{}", styled);
        }
        assert_eq!(apply_inline_styles(&styled), styled);
    }
}

#[test]
fn a_bare_element_is_styled_once() {
    for (name, style) in RULES {
        if ["th", "td", "img", "table"].contains(&name) {
            continue;
        }
        let bare = format!("<{0}>x</{0}>", name);
        let full = format!("<{0} style=\"{1}\">x</{0}>", name, merge_styles("", style));
        assert_eq!(apply_inline_styles(&bare), full);
        assert_eq!(apply_inline_styles(&full), full);
    }
}

#[test]
fn styling_twice_changes_nothing() {
    let once = apply_inline_styles("<h1>题</h1><p>一</p><p style=\"color:red\">二</p>");
    assert!(once.starts_with(&format!("<h1 style=\"{}\">", merge_styles("", S_H1))));
    assert_eq!(apply_inline_styles(&once), once);
}

#[test]
fn the_fragment_of_a_page() {
    assert_eq!(
        build_rich_fragment_single("题", "<p>文</p>"),
        "<h1 style=\"font-size:20px; font-weight:bold; text-align:center; letter-spacing:2px; \
         margin:16px 0 10px; font-family:Microsoft YaHei,SimSun,Arial,sans-serif; color:#222\">题</h1>\
         <hr style=\"border:none; border-top:1px solid #e0e0e0; margin:12px 0\"/><p>文</p>"
    );
}
