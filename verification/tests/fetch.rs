use fire_scraper::fetch::{download_as_base64, download_error, fetch_html, page_headers, read_error};
use fire_scraper::fetch::{request_error, status_error, Answer};

fn given(code: u16, content_type: Option<&str>, body: &[u8]) -> Answer {
    Answer::Given {
        code,
        content_type: content_type.map(|c| c.as_bytes().to_vec()),
        body: Ok(body.to_vec()),
    }
}

fn unreadable(code: u16) -> Answer {
    Answer::Given { code, content_type: None, body: Err("断".to_string()) }
}

fn missing() -> Answer {
    Answer::Missing { cause: "超时".to_string() }
}

#[test]
fn headers_of_a_request() {
    assert_eq!(
        page_headers("http://a/b"),
        vec![
            (
                "Accept".to_string(),
                "text/html,application/xhtml+xml,application/xml;q=0.9,*/*;q=0.8".to_string()
            ),
            ("Accept-Language".to_string(), "zh-CN,zh;q=0.9,en;q=0.8".to_string()),
            ("Referer".to_string(), "http://a/b".to_string()),
        ]
    );
}

#[test]
fn statuses() {
    assert_eq!(status_error(200), None);
    assert_eq!(status_error(204), None);
    assert_eq!(status_error(299), None);
    assert_eq!(status_error(404), Some("HTTP 404 Not Found".to_string()));
    assert_eq!(status_error(500), Some("HTTP 500 Internal Server Error".to_string()));
    assert_eq!(status_error(302), Some("HTTP 302 Found".to_string()));
    assert_eq!(status_error(100), Some("HTTP 100 Continue".to_string()));
    for code in 100..=999 {
        match status_error(code) {
            None => assert!((200..300).contains(&code)),
            Some(e) => {
                assert!(!(200..300).contains(&code));
                assert!(e.starts_with(&format!("HTTP {} ", code)), "{}", e);
            }
        }
    }
}

#[test]
fn errors_name_their_cause() {
    assert_eq!(request_error("x"), "请求失败: x");
    assert_eq!(read_error("x"), "读取字节失败: x");
    assert_eq!(download_error("x"), "下载失败: x");
}

#[test]
fn pages_in_answers() {
    assert_eq!(
        fetch_html(&given(200, Some("text/html; charset=gbk"), b"\xd6\xd0")),
        Ok("中".to_string())
    );
    assert_eq!(fetch_html(&given(200, None, "中".as_bytes())), Ok("中".to_string()));
    assert_eq!(fetch_html(&missing()), Err("请求失败: 超时".to_string()));
    assert_eq!(fetch_html(&given(403, None, b"x")), Err("HTTP 403 Forbidden".to_string()));
    assert_eq!(fetch_html(&unreadable(200)), Err("读取字节失败: 断".to_string()));
    assert_eq!(fetch_html(&unreadable(404)), Err("HTTP 404 Not Found".to_string()));
}

#[test]
fn images_in_answers() {
    assert_eq!(
        download_as_base64(&given(200, Some("image/png"), b"Man")),
        Ok("data:image/png;base64,TWFu".to_string())
    );
    assert_eq!(
        download_as_base64(&given(200, None, b"M")),
        Ok("data:image/jpeg;base64,TQ==".to_string())
    );
    assert_eq!(download_as_base64(&missing()), Err("下载失败: 超时".to_string()));
    assert_eq!(download_as_base64(&given(404, None, b"x")), Err("HTTP 404 Not Found".to_string()));
    assert_eq!(download_as_base64(&unreadable(200)), Err("读取字节失败: 断".to_string()));
}
