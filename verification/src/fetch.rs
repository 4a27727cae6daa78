//! What is asked of a server, and what its answers mean.

use crate::charset::{decode_page, page_text, MAX_RESPONSE_BYTES};
use crate::image::{base64, data_uri, header_kind, image_data_uri, law_base64_length};
use crate::image::law_base64_loses_nothing;
use vstd::prelude::*;

verus! {

/// The headers of the request for the page `url`.
pub open spec fn request_headers(url: Seq<char>) -> Seq<(Seq<char>, Seq<char>)> {
    seq![
        ("Accept"@, "text/html,application/xhtml+xml,application/xml;q=0.9,*/*;q=0.8"@),
        ("Accept-Language"@, "zh-CN,zh;q=0.9,en;q=0.8"@),
        ("Referer"@, url),
    ]
}

/// The headers of the request for the page `url`.
pub fn page_headers(url: &str) -> (r: Vec<(String, String)>)
    ensures
        r.deep_view() == request_headers(url@),
{
    let mut headers: Vec<(String, String)> = Vec::new();
    headers.push(
        (
            "Accept".to_owned(),
            "text/html,application/xhtml+xml,application/xml;q=0.9,*/*;q=0.8".to_owned(),
        ),
    );
    headers.push(("Accept-Language".to_owned(), "zh-CN,zh;q=0.9,en;q=0.8".to_owned()));
    headers.push(("Referer".to_owned(), url.to_owned()));
    assert(headers.deep_view() =~= request_headers(url@));
    headers
}

/// The status code of an answer that brings what was asked for.
pub open spec fn success(code: u16) -> bool {
    200 <= code < 300
}

/// A digit as a character.
pub open spec fn digit(n: int) -> char {
    ('0' as u32 + n) as char
}

/// The three digits of a status code.
pub open spec fn code_digits(code: u16) -> Seq<char> {
    seq![digit(code as int / 100), digit(code as int / 10 % 10), digit(code as int % 10)]
}

/// The phrase that `reqwest::StatusCode` shows behind the digits of a status code.
pub uninterp spec fn reason_phrase(code: u16) -> Seq<char>;

/// The text of a status code: its digits and its phrase.
pub open spec fn status_text(code: u16) -> Seq<char> {
    code_digits(code) + " "@ + reason_phrase(code)
}

/// `reqwest::StatusCode::from_u16` takes the codes from 100 to 999, and shows such a code
/// as its digits, a space, and a phrase that depends on the code alone.
#[verifier::external_body]
fn status_line(code: u16) -> (r: Option<String>)
    ensures
        r is Some <==> 100 <= code <= 999,
        r matches Some(text) ==> text@ == code_digits(code) + " "@ + reason_phrase(code),
{
    reqwest::StatusCode::from_u16(code).ok().map(|status| status.to_string())
}

/// The error that the answer with status code `code` is; none if it brings what was asked
/// for.
pub fn status_error(code: u16) -> (r: Option<String>)
    requires
        100 <= code <= 999,
    ensures
        r is None <==> success(code),
        r matches Some(e) ==> e@ == "HTTP "@ + status_text(code),
{
    if 200 <= code && code < 300 {
        None
    } else {
        let line = status_line(code).unwrap();
        Some("HTTP ".to_owned().concat(line.as_str()))
    }
}

/// The error of a request that got no answer.
pub fn request_error(cause: &str) -> (r: String)
    ensures
        r@ == "请求失败: "@ + cause@,
{
    "请求失败: ".to_owned().concat(cause)
}

/// The error of an answer whose bytes could not be read.
pub fn read_error(cause: &str) -> (r: String)
    ensures
        r@ == "读取字节失败: "@ + cause@,
{
    "读取字节失败: ".to_owned().concat(cause)
}

/// The error of a request for an image that got no answer.
pub fn download_error(cause: &str) -> (r: String)
    ensures
        r@ == "下载失败: "@ + cause@,
{
    "下载失败: ".to_owned().concat(cause)
}

// ---------------------------------------------------------------------------
// Answers
// ---------------------------------------------------------------------------

/// What came of a request.
pub enum Answer {
    /// No answer, for this reason.
    Missing { cause: String },
    /// An answer: its status code, its content type header, and its bytes, or why they could
    /// not be read. The bytes count for nothing where the status code is an error.
    Given {
        code: u16,
        content_type: Option<Vec<u8>>,
        body: Result<Vec<u8>, String>,
    },
}

/// What an [`Answer`] holds.
pub enum AnswerView {
    Missing { cause: Seq<char> },
    Given {
        code: u16,
        content_type: Option<Seq<u8>>,
        body: Result<Seq<u8>, Seq<char>>,
    },
}

impl DeepView for Answer {
    type V = AnswerView;

    open spec fn deep_view(&self) -> AnswerView {
        match self {
            Answer::Missing { cause } => AnswerView::Missing { cause: cause@ },
            Answer::Given { code, content_type, body } => AnswerView::Given {
                code: *code,
                content_type: match content_type {
                    Some(raw) => Some(raw@),
                    None => None,
                },
                body: match body {
                    Ok(bytes) => Ok(bytes@),
                    Err(e) => Err(e@),
                },
            },
        }
    }
}

impl AnswerView {
    /// The status code is one, and the bytes are not too many.
    pub open spec fn well_formed(self) -> bool {
        self matches AnswerView::Given { code, body, .. } ==> {
            &&& 100 <= code <= 999
            &&& body matches Ok(bytes) ==> bytes.len() <= MAX_RESPONSE_BYTES
        }
    }
}

/// The page that an answer brings, or why it brings none.
pub open spec fn answered_page(answer: AnswerView) -> Result<Seq<char>, Seq<char>> {
    match answer {
        AnswerView::Missing { cause } => Err("请求失败: "@ + cause),
        AnswerView::Given { code, content_type, body } => if !success(code) {
            Err("HTTP "@ + status_text(code))
        } else {
            match body {
                Ok(bytes) => Ok(page_text(content_type, bytes)),
                Err(e) => Err("读取字节失败: "@ + e),
            }
        },
    }
}

/// The image that an answer brings, as a `data:` address, or why it brings none.
pub open spec fn answered_image(answer: AnswerView) -> Result<Seq<char>, Seq<char>> {
    match answer {
        AnswerView::Missing { cause } => Err("下载失败: "@ + cause),
        AnswerView::Given { code, content_type, body } => if !success(code) {
            Err("HTTP "@ + status_text(code))
        } else {
            match body {
                Ok(bytes) => Ok(data_uri(content_type, bytes)),
                Err(e) => Err("读取字节失败: "@ + e),
            }
        },
    }
}

/// The text of the page that `answer` brings, or why it brings none.
pub fn fetch_html(answer: &Answer) -> (r: Result<String, String>)
    requires
        answer.deep_view().well_formed(),
    ensures
        match r {
            Ok(text) => answered_page(answer.deep_view()) == Ok::<_, Seq<char>>(text@),
            Err(e) => answered_page(answer.deep_view()) == Err::<Seq<char>, _>(e@),
        },
{
    match answer {
        Answer::Missing { cause } => Err(request_error(cause.as_str())),
        Answer::Given { code, content_type, body } => {
            if let Some(e) = status_error(*code) {
                return Err(e);
            }
            match body {
                Ok(bytes) => match content_type {
                    Some(raw) => {
                        let value = raw.as_slice();
                        assert(value.deep_view() =~= raw@);
                        decode_page(Some(value), bytes.as_slice())
                    },
                    None => decode_page(None, bytes.as_slice()),
                },
                Err(e) => Err(read_error(e.as_str())),
            }
        },
    }
}

/// The image that `answer` brings, as a `data:` address, or why it brings none.
pub fn download_as_base64(answer: &Answer) -> (r: Result<String, String>)
    requires
        answer.deep_view().well_formed(),
    ensures
        match r {
            Ok(uri) => answered_image(answer.deep_view()) == Ok::<_, Seq<char>>(uri@),
            Err(e) => answered_image(answer.deep_view()) == Err::<Seq<char>, _>(e@),
        },
{
    match answer {
        Answer::Missing { cause } => Err(download_error(cause.as_str())),
        Answer::Given { code, content_type, body } => {
            if let Some(e) = status_error(*code) {
                return Err(e);
            }
            match body {
                Ok(bytes) => match content_type {
                    Some(raw) => {
                        let value = raw.as_slice();
                        assert(value.deep_view() =~= raw@);
                        Ok(image_data_uri(Some(value), bytes.as_slice()))
                    },
                    None => Ok(image_data_uri(None, bytes.as_slice())),
                },
                Err(e) => Err(read_error(e.as_str())),
            }
        },
    }
}

// ---------------------------------------------------------------------------
// Laws
// ---------------------------------------------------------------------------

/// The digits of a status code are decimal digits that stand for it.
pub proof fn law_code_digits(code: u16)
    requires
        100 <= code <= 999,
    ensures
        code_digits(code).len() == 3,
        forall|i: int| 0 <= i < 3 ==> '0' <= (#[trigger] code_digits(code)[i]) <= '9',
        100 * (code_digits(code)[0] as u32 - 0x30) + 10 * (code_digits(code)[1] as u32 - 0x30) + (
        code_digits(code)[2] as u32 - 0x30) == code,
{
}

/// Of an answer with a status code from 200 to 299, whose bytes came, a page is the text of the
/// bytes, whatever they are.
pub proof fn law_page_answered(code: u16, content_type: Option<Seq<u8>>, bytes: Seq<u8>)
    requires
        200 <= code <= 299,
    ensures
        answered_page(AnswerView::Given { code, content_type, body: Ok(bytes) }) == Ok::<
            Seq<char>,
            Seq<char>,
        >(page_text(content_type, bytes)),
{
}

/// Of an answer with a status code from 200 to 299, whose bytes came, an image is all of the
/// bytes: a `data:` address of the kind of image that the content type names, and behind it the
/// Base64 text of every byte, four characters for each three.
pub proof fn law_image_answered(code: u16, content_type: Option<Seq<u8>>, bytes: Seq<u8>)
    requires
        200 <= code <= 299,
    ensures
        answered_image(AnswerView::Given { code, content_type, body: Ok(bytes) }) == Ok::<
            Seq<char>,
            Seq<char>,
        >("data:"@ + header_kind(content_type) + ";base64,"@ + base64(bytes)),
        answered_image(AnswerView::Given { code, content_type, body: Ok(bytes) })->Ok_0.len()
            == "data:"@.len() + header_kind(content_type).len() + ";base64,"@.len() + 4 * ((
        bytes.len() + 2) / 3),
{
    law_base64_length(bytes);
}

/// Nothing of an image is lost on the way from the answer to its address: answers of one content
/// type that give the same address brought the same bytes.
pub proof fn law_image_answered_whole(
    a: u16,
    b: u16,
    content_type: Option<Seq<u8>>,
    x: Seq<u8>,
    y: Seq<u8>,
)
    requires
        200 <= a <= 299,
        200 <= b <= 299,
        answered_image(AnswerView::Given { code: a, content_type, body: Ok(x) }) == answered_image(
            AnswerView::Given { code: b, content_type, body: Ok(y) },
        ),
    ensures
        x == y,
{
    law_image_answered(a, content_type, x);
    law_image_answered(b, content_type, y);
    let start = "data:"@ + header_kind(content_type) + ";base64,"@;
    let n = start.len() as int;
    assert((start + base64(x)).skip(n) =~= base64(x));
    assert((start + base64(y)).skip(n) =~= base64(y));
    law_base64_loses_nothing(x, y);
}

/// An answer with any other status code is an error that names the code, whatever else it holds;
/// so is one whose bytes did not come, and a request without an answer, each with its cause.
pub proof fn law_answer_refused(
    code: u16,
    content_type: Option<Seq<u8>>,
    body: Result<Seq<u8>, Seq<char>>,
    cause: Seq<char>,
)
    ensures
        code < 200 || code >= 300 ==> answered_page(AnswerView::Given { code, content_type, body })
            == Err::<Seq<char>, _>("HTTP "@ + code_digits(code) + " "@ + reason_phrase(code)),
        code < 200 || code >= 300 ==> answered_image(AnswerView::Given { code, content_type, body })
            == Err::<Seq<char>, _>("HTTP "@ + code_digits(code) + " "@ + reason_phrase(code)),
        200 <= code < 300 ==> answered_page(
            AnswerView::Given { code, content_type, body: Err(cause) },
        ) == Err::<Seq<char>, _>("读取字节失败: "@ + cause),
        200 <= code < 300 ==> answered_image(
            AnswerView::Given { code, content_type, body: Err(cause) },
        ) == Err::<Seq<char>, _>("读取字节失败: "@ + cause),
        answered_page(AnswerView::Missing { cause }) == Err::<Seq<char>, _>("请求失败: "@ + cause),
        answered_image(AnswerView::Missing { cause }) == Err::<Seq<char>, _>("下载失败: "@ + cause),
{
    assert("HTTP "@ + status_text(code) =~= "HTTP "@ + code_digits(code) + " "@ + reason_phrase(
        code,
    ));
}

/// The request for a page says what kinds of text and which languages are wanted, the same for
/// every page, and gives the page itself as where it was asked for from.
pub proof fn law_request_headers(url: Seq<char>)
    ensures
        request_headers(url) == seq![
            ("Accept"@, "text/html,application/xhtml+xml,application/xml;q=0.9,*/*;q=0.8"@),
            ("Accept-Language"@, "zh-CN,zh;q=0.9,en;q=0.8"@),
        ].push(("Referer"@, url)),
{
}

/// An answer with a status code, and with up to a hundred million bytes or none, can be read.
pub proof fn law_answer_readable(
    code: u16,
    content_type: Option<Seq<u8>>,
    body: Result<Seq<u8>, Seq<char>>,
)
    requires
        100 <= code <= 999,
        body matches Ok(bytes) ==> bytes.len() <= 100_000_000,
    ensures
        (AnswerView::Given { code, content_type, body }).well_formed(),
{
}

/// An answer counts as it came: its status code, its content type, and all its bytes.
pub proof fn law_answer_taken(
    code: u16,
    content_type: Vec<u8>,
    bytes: Vec<u8>,
    cause: String,
)
    ensures
        (Answer::Given { code, content_type: Some(content_type), body: Ok(bytes) }).deep_view() == (
        AnswerView::Given { code, content_type: Some(content_type@), body: Ok(bytes@) }),
        (Answer::Given { code, content_type: None, body: Ok(bytes) }).deep_view() == (
        AnswerView::Given { code, content_type: None, body: Ok(bytes@) }),
        (Answer::Given { code, content_type: None, body: Err(cause) }).deep_view() == (
        AnswerView::Given { code, content_type: None, body: Err(cause@) }),
        (Answer::Missing { cause }).deep_view() == (AnswerView::Missing { cause: cause@ }),
{
}

} // verus!
