use fire_scraper::division::div_to_p;

#[test]
fn tags_are_turned() {
    assert_eq!(div_to_p("<div>a</div>"), "<p>a</p>");
    assert_eq!(div_to_p("<div class=\"x\">a</div>"), "<p class=\"x\">a</p>");
    assert_eq!(div_to_p("<div\nid=\"x\">"), "<p\nid=\"x\">");
    assert_eq!(div_to_p("<div\tid>"), "<p\tid>");
    assert_eq!(div_to_p("<div\rid>"), "<p\rid>");
    assert_eq!(div_to_p("<div><div>内</div>外</div>"), "<p><p>内</p>外</p>");
}

#[test]
fn other_tags_stay() {
    assert_eq!(div_to_p("<divider>"), "<divider>");
    assert_eq!(div_to_p("</div >"), "</div >");
    assert_eq!(div_to_p("<DIV>"), "<DIV>");
    assert_eq!(div_to_p("<div/>"), "<div/>");
    assert_eq!(div_to_p("章节"), "章节");
    assert_eq!(div_to_p(""), "");
}

#[test]
fn a_tag_cut_off_at_the_end() {
    assert_eq!(div_to_p("x<div"), "x<p");
    assert_eq!(div_to_p("x</div"), "x</div");
    assert_eq!(div_to_p("<di"), "<di");
}

#[test]
fn no_division_is_left() {
    for s in ["<<div>/div>", "<</div>div>", "<d<div>iv>", "<div<div>", "</div</div>>", "<div</div>>"] {
        let once = div_to_p(s);
        assert!(!once.contains("</div>") && !once.contains("<div>"), "{}", once);
        assert_eq!(div_to_p(&once), once);
    }
}

#[test]
fn text_without_division_is_unchanged() {
    let s = "<p>1 < 2</p><section>节</section>";
    assert_eq!(div_to_p(s), s);
}

#[test]
fn texts_that_end_with_a_tag_are_taken_apart() {
    for a in ["", ">", "<div>", "</div>", "<p>x</p>", "<div a>"] {
        for b in ["", "div>", "<div>", "/div>", "v></div>"] {
            assert_eq!(div_to_p(&format!("{}{}", a, b)), div_to_p(a) + &div_to_p(b));
        }
    }
}
