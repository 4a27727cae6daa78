use fire_scraper::style::{complete_properties, merge_styles, parse_declaration, render_properties};
use fire_scraper::style::{sets_property, style_declarations, style_properties};
use fire_scraper::style::{S_H1, S_H2, S_H3, S_H4, S_HR, S_IMG, S_LI, S_OL, S_P, S_STRONG, S_TABLE};
use fire_scraper::style::{S_TD, S_TH, S_UL};

fn pairs(props: &[(&str, &str)]) -> Vec<(String, String)> {
    props.iter().map(|(k, v)| (k.to_string(), v.to_string())).collect()
}

#[test]
fn the_styles_of_the_editor() {
    assert_eq!(
        S_H1,
        "font-size:20px; font-weight:bold; text-align:center; letter-spacing:2px; margin:16px 0 10px; \
         font-family:Microsoft YaHei,SimSun,Arial,sans-serif; color:#222"
    );
    assert_eq!(
        S_H2,
        "font-size:17px; font-weight:bold; margin:14px 0 8px; border-left:4px solid #1a73e8; \
         padding-left:10px; font-family:Microsoft YaHei,SimSun,Arial,sans-serif; color:#222"
    );
    assert_eq!(
        S_H3,
        "font-size:15px; font-weight:bold; margin:10px 0 6px; \
         font-family:Microsoft YaHei,SimSun,Arial,sans-serif; color:#333"
    );
    assert_eq!(
        S_H4,
        "font-size:14px; font-weight:bold; margin:8px 0 4px; \
         font-family:Microsoft YaHei,SimSun,Arial,sans-serif; color:#333"
    );
    assert_eq!(
        S_P,
        "font-size:14px; line-height:1.8; margin:6px 0; \
         font-family:Microsoft YaHei,SimSun,Arial,sans-serif; color:#333"
    );
    assert_eq!(
        S_TABLE,
        "border-collapse:collapse; width:100%; margin:12px 0; font-size:13px; \
         font-family:Microsoft YaHei,SimSun,Arial,sans-serif"
    );
    assert_eq!(
        S_TH,
        "border:1px solid #ccc; padding:7px 10px; background-color:#f5f5f5; font-weight:bold; \
         text-align:center; color:#333"
    );
    assert_eq!(S_TD, "border:1px solid #ccc; padding:6px 10px; vertical-align:top; color:#333");
    assert_eq!(S_IMG, "max-width:100%; height:auto; display:block; margin:10px auto");
    assert_eq!(S_STRONG, "font-weight:bold; color:#222");
    assert_eq!(S_UL, "margin:6px 0; padding-left:24px; font-size:14px; line-height:1.8; color:#333");
    assert_eq!(S_OL, S_UL);
    assert_eq!(S_LI, "margin:3px 0; font-size:14px; line-height:1.8; color:#333");
    assert_eq!(S_HR, "border:none; border-top:1px solid #e0e0e0; margin:12px 0");
}

#[test]
fn declarations_are_read() {
    assert_eq!(parse_declaration(" Color : Red "), Some(("Color".to_string(), "Red".to_string())));
    assert_eq!(parse_declaration("a:b:c"), Some(("a".to_string(), "b:c".to_string())));
    assert_eq!(parse_declaration(":x"), Some((String::new(), "x".to_string())));
    assert_eq!(parse_declaration("color"), None);
    assert_eq!(parse_declaration("  "), None);
    assert_eq!(
        style_declarations("A:1;; b ;C : 2"),
        pairs(&[("A", "1"), ("C", "2")])
    );
    assert_eq!(style_properties("A:1;; b ;C : X"), pairs(&[("a", "1"), ("c", "X")]));
    assert_eq!(style_properties(""), pairs(&[]));
}

#[test]
fn merging_keeps_what_is_set() {
    assert_eq!(
        merge_styles("color:red", "font-weight:bold; color:#222"),
        "color: red; font-weight: bold"
    );
    assert_eq!(merge_styles("COLOR : Red;", "color:#222"), "color: Red");
    assert_eq!(merge_styles("", S_STRONG), "font-weight: bold; color: #222");
    assert_eq!(merge_styles("color:red; color:blue", "color:#222"), "color: red; color: blue");
    assert_eq!(merge_styles("", "a:1; a:2"), "a: 1");
    assert_eq!(merge_styles("", ""), "");
    assert_eq!(merge_styles("nonsense", ""), "");
    assert_eq!(
        merge_styles("background:url(data:x)", "margin:0"),
        "background: url(data:x); margin: 0"
    );
    assert_eq!(merge_styles("font-family:宋体", "margin:0"), "font-family: 宋体; margin: 0");
    assert_eq!(merge_styles("ÄB:1", "äb:2"), "äb: 1");
}

#[test]
fn completing_sets_every_default_once() {
    let old = pairs(&[("color", "red")]);
    let extra = pairs(&[("margin", "0"), ("color", "blue"), ("margin", "1")]);
    let all = complete_properties(pairs(&[("color", "red")]), &extra);
    assert_eq!(all, pairs(&[("color", "red"), ("margin", "0")]));
    assert_eq!(all[..old.len()], old[..]);
    for (name, _) in &extra {
        assert!(sets_property(&all, name));
    }
    assert!(!sets_property(&all, &"width".to_string()));
    let again = complete_properties(complete_properties(pairs(&[("color", "red")]), &extra), &extra);
    assert_eq!(again, all);
}

#[test]
fn a_written_style_is_read_back() {
    let props = pairs(&[("color", "red"), ("margin", ""), ("font-family", "宋体,Arial")]);
    let text = render_properties(&props);
    assert_eq!(text, "color: red; margin: ; font-family: 宋体,Arial");
    assert_eq!(style_properties(&text), props);
}

#[test]
fn a_merged_style_is_read_back_and_merging_twice_changes_nothing() {
    for existing in ["", "Color:Red; WIDTH: 1px", "font-family:宋体;;x", "a:b:c"] {
        for defaults in [S_P, S_H1, S_TABLE, S_IMG] {
            let once = merge_styles(existing, defaults);
            assert_eq!(
                style_properties(&once),
                complete_properties(style_properties(existing), &style_properties(defaults))
            );
            assert_eq!(merge_styles(&once, defaults), once);
        }
    }
}

#[test]
fn merging_with_nothing_and_in_any_grouping() {
    let styles = ["", "Color:Red; color:blue", "margin:0;;x", "font-family:宋体; COLOR:x", S_P];
    for a in styles {
        for b in styles {
            let m = merge_styles(a, b);
            assert_eq!(merge_styles(&m, ""), m);
            for c in styles {
                assert_eq!(merge_styles(&m, c), merge_styles(a, &merge_styles(b, c)));
            }
        }
    }
}

#[test]
fn an_existing_style_comes_first() {
    for existing in ["", "Color:Red; a:b", "x", "font-family:宋体"] {
        for defaults in ["", S_P, "color:blue; margin:0"] {
            assert!(merge_styles(existing, defaults).starts_with(&merge_styles(existing, "")));
        }
    }
}
