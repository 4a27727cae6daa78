use fire_scraper::charset::{charset_of_content_type, charset_of_page, charset_of_text, decode_bytes};
use fire_scraper::charset::{decode_checked, decode_page, header_text, sniff_charset_from_bytes};

fn some(s: &str) -> Option<String> {
    Some(s.to_string())
}

#[test]
fn readable_header_values() {
    assert_eq!(header_text(b"text/html; charset=GBK"), some("text/html; charset=GBK"));
    assert_eq!(header_text(b"a\tb"), some("a\tb"));
    assert_eq!(header_text(b""), some(""));
    assert_eq!(header_text(b"a\x7f"), None);
    assert_eq!(header_text(b"a\n"), None);
    assert_eq!(header_text("é".as_bytes()), None);
}

#[test]
fn encodings_in_a_content_type() {
    assert_eq!(charset_of_content_type("text/html; charset=GBK"), some("gbk"));
    assert_eq!(charset_of_content_type("text/html; Charset = UTF-8 ; x"), some("utf-8"));
    assert_eq!(charset_of_content_type("text/html"), None);
    assert_eq!(charset_of_content_type("charset"), None);
    assert_eq!(charset_of_content_type("charset; charset=gbk"), None);
    assert_eq!(charset_of_content_type("charset=a=b"), some("a"));
    assert_eq!(charset_of_content_type("charset="), some(""));
    assert_eq!(charset_of_content_type("charset=\"utf-8\""), some("\"utf-8\""));
}

#[test]
fn encodings_in_a_text() {
    assert_eq!(charset_of_text("<meta charset=\"gb2312\">"), some("gb2312"));
    assert_eq!(charset_of_text("charset='utf-8'"), some("utf-8"));
    assert_eq!(charset_of_text("charset=  \"x_y z"), some("x_y"));
    assert_eq!(charset_of_text("charset=章1;"), some("章1"));
    assert_eq!(charset_of_text("charset=\"\""), None);
    assert_eq!(charset_of_text("charset=;charset=gbk"), None);
    assert_eq!(charset_of_text("no"), None);
}

#[test]
fn encodings_in_the_bytes_of_a_page() {
    assert_eq!(sniff_charset_from_bytes(b"<META CHARSET=GBK>"), some("gbk"));
    assert_eq!(sniff_charset_from_bytes(b"\xff\xfe<meta charset=big5>\x80"), some("big5"));
    assert_eq!(sniff_charset_from_bytes(b"charset=a\xff"), some("a"));
    assert_eq!(sniff_charset_from_bytes(b""), None);
}

#[test]
fn only_the_head_of_a_page_is_searched() {
    let mut page = vec![b' '; 4096 - 11];
    page.extend_from_slice(b"charset=gbk");
    assert_eq!(page.len(), 4096);
    assert_eq!(sniff_charset_from_bytes(&page), some("gbk"));
    page.extend_from_slice(b"18030");
    assert_eq!(sniff_charset_from_bytes(&page), some("gbk"));
    let mut late = vec![b' '; 4096];
    late.extend_from_slice(b"charset=gbk");
    assert_eq!(sniff_charset_from_bytes(&late), None);
}

#[test]
fn the_header_counts_for_more_than_the_page() {
    let page = b"<meta charset=gbk>";
    let header: &[u8] = b"text/html; charset=big5";
    assert_eq!(charset_of_page(Some(header), page), "big5");
    assert_eq!(charset_of_page(Some(b"text/html"), page), "gbk");
    assert_eq!(charset_of_page(Some(b"charset=big5\xff"), page), "gbk");
    assert_eq!(charset_of_page(None, page), "gbk");
    assert_eq!(charset_of_page(None, b"x"), "utf-8");
}

#[test]
fn bytes_are_decoded() {
    assert_eq!(decode_bytes(b"\xd6\xd0\xce\xc4", "gbk"), Ok("中文".to_string()));
    assert_eq!(decode_bytes(b"\xd6\xd0\xce\xc4", "gb2312"), Ok("中文".to_string()));
    assert_eq!(decode_bytes(b"\xa4\xa4", "big5"), Ok("中".to_string()));
    assert_eq!(decode_bytes(b"\xe9", "iso-8859-1"), Ok("é".to_string()));
    assert_eq!(decode_bytes("中文".as_bytes(), "utf-8"), Ok("中文".to_string()));
    assert_eq!(decode_bytes(b"a\xffb", "utf-8"), Ok("a\u{fffd}b".to_string()));
    assert_eq!(decode_bytes(b"\xef\xbb\xbfa", "utf-8"), Ok("a".to_string()));
}

#[test]
fn an_unknown_encoding_is_read_as_utf8() {
    assert_eq!(decode_bytes("中".as_bytes(), "nonsense"), Ok("中".to_string()));
    assert_eq!(decode_bytes("中".as_bytes(), ""), Ok("中".to_string()));
    assert_eq!(decode_bytes(b"\xff", "nonsense"), Ok("\u{fffd}".to_string()));
}

#[test]
fn utf8_is_read_back() {
    for text in ["", "abc", "第一章", "\u{10ffff}\u{0}"] {
        assert_eq!(decode_bytes(text.as_bytes(), "utf-8"), Ok(text.to_string()));
        let mut marked = vec![0xef, 0xbb, 0xbf];
        marked.extend_from_slice(text.as_bytes());
        for charset in ["utf-8", "gbk", "nonsense", "utf-16le", "iso-2022-kr"] {
            assert_eq!(decode_bytes(&marked, charset), Ok(text.to_string()));
        }
    }
}

#[test]
fn pages_are_decoded() {
    let gbk: &[u8] = b"<meta charset=\"gbk\">\xd6\xd0";
    assert_eq!(decode_page(None, gbk), Ok("<meta charset=\"gbk\">中".to_string()));
    assert_eq!(decode_page(Some(b"text/html; charset=gbk"), b"\xd6\xd0"), Ok("中".to_string()));
    assert_eq!(decode_page(None, "中".as_bytes()), Ok("中".to_string()));
}

#[test]
fn replaced_characters_are_told() {
    assert_eq!(decode_checked("中".as_bytes(), "utf-8"), ("中".to_string(), false));
    assert_eq!(decode_checked(b"a\xff", "utf-8"), ("a\u{fffd}".to_string(), true));
    assert_eq!(decode_checked(b"\xd6\xd0", "gbk"), ("中".to_string(), false));
    assert_eq!(decode_checked(b"\xd6", "gbk"), ("\u{fffd}".to_string(), true));
    assert_eq!(decode_checked(b"a\xff", "nonsense"), decode_checked(b"a\xff", "utf-8"));
}
