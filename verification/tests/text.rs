use fire_scraper::text::{chars_of, find_from, has_text, is_letter_or_digit, is_white_space, join};
use fire_scraper::text::{matches_at, replace_all, slice_text, split, starts_with};
use fire_scraper::text::{to_lower, trim};

fn strings(parts: &[&str]) -> Vec<String> {
    parts.iter().map(|p| p.to_string()).collect()
}

#[test]
fn white_space_is_unicodes() {
    for c in '\0'..=char::MAX {
        assert_eq!(is_white_space(c), c.is_whitespace(), "{:?}", c);
    }
}

#[test]
fn letters_and_digits_are_unicodes() {
    for c in '\0'..=char::MAX {
        assert_eq!(is_letter_or_digit(c), c.is_alphanumeric(), "{:?}", c);
    }
    for c in '\0'..='\x7f' {
        assert_eq!(is_letter_or_digit(c), c.is_ascii_alphanumeric());
    }
    assert!(is_letter_or_digit('章'));
    assert!(!is_letter_or_digit('。'));
}

#[test]
fn lower_case() {
    for c in '\0'..='\x7f' {
        let s = c.to_string();
        assert_eq!(to_lower(&s), c.to_ascii_lowercase().to_string());
    }
    assert_eq!(to_lower("Font-SIZE"), "font-size");
    assert_eq!(to_lower("ÄÖ ΑΣ"), "äö ας");
    assert_eq!(to_lower("标题"), "标题");
}

#[test]
fn trimming() {
    assert_eq!(trim("  a b \t\n"), "a b");
    assert_eq!(trim("\u{3000}标题\u{a0}"), "标题");
    assert_eq!(trim(" \n "), "");
    assert_eq!(trim(""), "");
    for s in [" x ", "", "\t\t", "a\u{2003}", "b"] {
        assert_eq!(trim(s), s.trim());
        assert_eq!(trim(&trim(s)), trim(s));
    }
}

#[test]
fn searching() {
    let chars = chars_of("a章b章");
    assert_eq!(chars, vec!['a', '章', 'b', '章']);
    let pat = chars_of("章");
    assert_eq!(find_from(&chars, &pat, 0), Some(1));
    assert_eq!(find_from(&chars, &pat, 2), Some(3));
    assert_eq!(find_from(&chars, &pat, 4), None);
    assert_eq!(find_from(&chars, &chars_of(""), 4), Some(4));
    assert!(matches_at(&chars, &pat, 3));
    assert!(!matches_at(&chars, &chars_of("章b章c"), 1));
    assert_eq!(slice_text(&chars, 1, 3), "章b");
    assert_eq!(slice_text(&chars, 4, 4), "");
    assert!(starts_with("https://x", "https://"));
    assert!(!starts_with("http", "http://"));
    assert!(has_text("image/png", "png"));
    assert!(has_text("x", ""));
    assert!(!has_text("image/jpeg", "png"));
}

#[test]
fn splitting() {
    assert_eq!(split("a;b;;c", ';'), strings(&["a", "b", "", "c"]));
    assert_eq!(split("", ';'), strings(&[""]));
    assert_eq!(split(";", ';'), strings(&["", ""]));
    assert_eq!(split("章=节", '='), strings(&["章", "节"]));
}

#[test]
fn replacing() {
    assert_eq!(replace_all("aaa", "aa", "b"), "ba");
    assert_eq!(replace_all("x-x", "x", "xx"), "xx-xx");
    assert_eq!(replace_all("abc", "d", "e"), "abc");
    assert_eq!(replace_all("", "d", "e"), "");
    for (s, from, to) in [("abcabc", "bc", "x"), ("章节章", "章", "节节"), ("aaaa", "aa", "a")] {
        assert_eq!(replace_all(s, from, to), s.replace(from, to));
    }
}

#[test]
fn replacing_goes_on_behind_the_first_occurrence() {
    let s = "one src two src three";
    let i = s.find("src").unwrap();
    let rest = replace_all(&s[i + 3..], "src", "srcsrc");
    assert_eq!(replace_all(s, "src", "srcsrc"), format!("{}srcsrc{}", &s[..i], rest));
}

#[test]
fn joining() {
    assert_eq!(join(&strings(&[]), "; "), "");
    assert_eq!(join(&strings(&["a"]), "; "), "a");
    assert_eq!(join(&strings(&["a", "", "c"]), "; "), "a; ; c");
}

#[test]
fn replacing_leaves_what_stands_elsewhere() {
    assert!(replace_all("ab keep ab", "ab", "").contains("keep"));
    assert_eq!(replace_all("aaab", "ab", "x"), "aax");
}
