//! The character encoding of a page, and the text that its bytes stand for.

use crate::text::{alphanumeric, begins, first, lower, pieces, trimmed};
use crate::text::{chars_of, find_from, is_letter_or_digit, slice_text, split, starts_with};
use crate::text::{law_occurs, lemma_first_from, lemma_first_is, occurs_at, to_lower, trim};
use vstd::prelude::*;
use vstd::utf8::{decode_utf8, encode_utf8, encode_utf8_decode_utf8, encode_utf8_valid_utf8};
use vstd::utf8::valid_utf8;

verus! {

// ---------------------------------------------------------------------------
// The encoding that a header or the page itself names
// ---------------------------------------------------------------------------

/// The first of the pieces of a content type that is about the encoding.
pub open spec fn charset_piece(parts: Seq<Seq<char>>) -> Option<Seq<char>>
    decreases parts.len(),
{
    if parts.len() == 0 {
        None
    } else if begins(lower(trimmed(parts[0])), "charset"@) {
        Some(parts[0])
    } else {
        charset_piece(parts.skip(1))
    }
}

/// The encoding that a content type names: what stands behind the first `=` of its piece
/// about the encoding, up to the next one. A piece without `=` names none.
pub open spec fn content_charset(content_type: Seq<char>) -> Option<Seq<char>> {
    match charset_piece(pieces(content_type, ';')) {
        Some(p) => if pieces(p, '=').len() > 1 {
            Some(lower(trimmed(pieces(p, '=')[1])))
        } else {
            None
        },
        None => None,
    }
}

/// `c` can stand before the name of an encoding.
pub open spec fn leads_name(c: char) -> bool {
    c == '"' || c == '\'' || c == ' '
}

/// `c` can stand in the name of an encoding.
pub open spec fn in_name(c: char) -> bool {
    alphanumeric(c) || c == '-' || c == '_'
}

/// `s` without the quotes and spaces that it starts with.
pub open spec fn unquoted(s: Seq<char>) -> Seq<char>
    decreases s.len(),
{
    if s.len() > 0 && leads_name(s[0]) {
        unquoted(s.skip(1))
    } else {
        s
    }
}

/// The name that `s` starts with.
pub open spec fn leading_name(s: Seq<char>) -> Seq<char>
    decreases s.len(),
{
    if s.len() > 0 && in_name(s[0]) {
        seq![s[0]] + leading_name(s.skip(1))
    } else {
        Seq::empty()
    }
}

/// The encoding that a lower-case text names behind the first `charset=`.
pub open spec fn text_charset(text: Seq<char>) -> Option<Seq<char>> {
    match first(text, "charset="@) {
        Some(i) => {
            let name = leading_name(unquoted(text.skip(i + 8)));
            if name.len() > 0 {
                Some(name)
            } else {
                None
            }
        },
        None => None,
    }
}

/// What `String::from_utf8_lossy` makes of bytes.
pub uninterp spec fn lossy_decoding(bytes: Seq<u8>) -> Seq<char>;

/// The bytes as UTF-8 text, with a replacement character for what is no UTF-8.
pub open spec fn lossy_text(bytes: Seq<u8>) -> Seq<char> {
    if valid_utf8(bytes) {
        decode_utf8(bytes)
    } else {
        lossy_decoding(bytes)
    }
}

/// The beginning of a page, in which it is to name its encoding.
pub open spec fn page_head(bytes: Seq<u8>) -> Seq<u8> {
    if bytes.len() <= 4096 {
        bytes
    } else {
        bytes.take(4096)
    }
}

/// The encoding that the bytes of a page name in their beginning.
pub open spec fn sniffed_charset(bytes: Seq<u8>) -> Option<Seq<char>> {
    text_charset(lower(lossy_text(page_head(bytes))))
}

/// The text of a header value: it has one if all its bytes are visible ASCII characters,
/// spaces or tabs.
pub open spec fn header_value(bytes: Seq<u8>) -> Option<Seq<char>> {
    if forall|i: int| 0 <= i < bytes.len() ==> visible(#[trigger] bytes[i]) {
        Some(bytes.map_values(|b: u8| b as char))
    } else {
        None
    }
}

/// `b` is a visible ASCII character, a space or a tab.
pub open spec fn visible(b: u8) -> bool {
    0x20 <= b < 0x7f || b == 0x09
}

/// The encoding of a page: the one in its header, else the one that it names itself, else
/// UTF-8.
pub open spec fn page_charset(content_type: Option<Seq<u8>>, bytes: Seq<u8>) -> Seq<char> {
    let announced = match content_type {
        Some(raw) => match header_value(raw) {
            Some(ct) => content_charset(ct),
            None => None,
        },
        None => None,
    };
    match announced {
        Some(name) => name,
        None => match sniffed_charset(bytes) {
            Some(name) => name,
            None => "utf-8"@,
        },
    }
}

/// The text of a header value.
pub fn header_text(bytes: &[u8]) -> (r: Option<String>)
    ensures
        r.deep_view() == header_value(bytes@),
{
    let mut out = String::new();
    let mut i: usize = 0;
    while i < bytes.len()
        invariant
            i <= bytes@.len(),
            forall|j: int| 0 <= j < i ==> visible(#[trigger] bytes@[j]),
            out@ == bytes@.take(i as int).map_values(|b: u8| b as char),
        decreases bytes@.len() - i,
    {
        let b: u8 = bytes[i];
        if !((0x20 <= b && b < 0x7f) || b == 0x09) {
            assert(!visible(bytes@[i as int]));
            return None;
        }
        out.push(b as char);
        assert(bytes@.take(i + 1).map_values(|b: u8| b as char) =~= bytes@.take(
            i as int,
        ).map_values(|b: u8| b as char).push(b as char));
        i += 1;
    }
    assert(bytes@.take(i as int) =~= bytes@);
    Some(out)
}

/// The encoding that a content type names.
pub fn charset_of_content_type(content_type: &str) -> (r: Option<String>)
    ensures
        r.deep_view() == content_charset(content_type@),
{
    let parts = split(content_type, ';');
    let ghost all = parts.deep_view();
    let mut i: usize = 0;
    assert(all.skip(0) =~= all);
    while i < parts.len()
        invariant
            all == parts.deep_view(),
            all == pieces(content_type@, ';'),
            i <= parts@.len(),
            charset_piece(all.skip(i as int)) == charset_piece(all),
        decreases parts@.len() - i,
    {
        proof {
            assert(all.skip(i as int).skip(1) =~= all.skip(i + 1));
            assert(all[i as int] == parts[i as int]@);
        }
        let name = to_lower(trim(parts[i].as_str()).as_str());
        if starts_with(name.as_str(), "charset") {
            let sides = split(parts[i].as_str(), '=');
            assert(sides.deep_view().len() == sides@.len());
            if sides.len() > 1 {
                assert(sides.deep_view()[1] == sides[1]@);
                return Some(to_lower(trim(sides[1].as_str()).as_str()));
            }
            return None;
        }
        i += 1;
    }
    None
}

/// The encoding that a lower-case text names behind the first `charset=`.
pub fn charset_of_text(text: &str) -> (r: Option<String>)
    ensures
        r.deep_view() == text_charset(text@),
{
    let chars = chars_of(text);
    let mark = chars_of("charset=");
    proof {
        reveal_strlit("charset=");
        lemma_first_from(chars@, mark@, 0);
    }
    if let Some(pos) = find_from(&chars, &mark, 0) {
        assert(pos + 8 <= chars.len());
        let mut from: usize = pos + 8;
        while from < chars.len() && (chars[from] == '"' || chars[from] == '\'' || chars[from]
            == ' ')
            invariant
                pos + 8 <= from <= chars@.len(),
                unquoted(chars@.skip(from as int)) == unquoted(chars@.skip(pos + 8)),
            decreases chars@.len() - from,
        {
            assert(chars@.skip(from as int).skip(1) =~= chars@.skip(from + 1));
            from += 1;
        }
        let ghost rest = chars@.skip(from as int);
        let mut to: usize = from;
        assert(chars@.subrange(from as int, from as int) + leading_name(rest) =~= leading_name(
            rest,
        ));
        while to < chars.len() && (is_letter_or_digit(chars[to]) || chars[to] == '-' || chars[to]
            == '_')
            invariant
                from <= to <= chars@.len(),
                chars@.subrange(from as int, to as int) + leading_name(chars@.skip(to as int))
                    == leading_name(rest),
            decreases chars@.len() - to,
        {
            proof {
                let next = chars@.skip(to + 1);
                assert(chars@.skip(to as int).skip(1) =~= next);
                assert(chars@.subrange(from as int, to + 1) + leading_name(next)
                    =~= chars@.subrange(from as int, to as int) + (seq![chars@[to as int]]
                    + leading_name(next)));
            }
            to += 1;
        }
        assert(chars@.subrange(from as int, to as int) =~= leading_name(rest));
        if to > from {
            return Some(slice_text(&chars, from, to));
        }
    }
    None
}

/// `String::from_utf8_lossy` gives the text of bytes that are valid UTF-8, and puts
/// replacement characters for what is not.
#[verifier::external_body]
fn utf8_lossy(bytes: &[u8]) -> (r: String)
    ensures
        r@ == lossy_decoding(bytes@),
        valid_utf8(bytes@) ==> r@ == decode_utf8(bytes@),
{
    String::from_utf8_lossy(bytes).into_owned()
}

/// The encoding that the bytes of a page name in their beginning.
pub fn sniff_charset_from_bytes(bytes: &[u8]) -> (r: Option<String>)
    ensures
        r.deep_view() == sniffed_charset(bytes@),
{
    let n: usize = if bytes.len() <= 4096 {
        bytes.len()
    } else {
        4096
    };
    let head = &bytes[0..n];
    assert(head@ =~= page_head(bytes@));
    let snippet = to_lower(utf8_lossy(head).as_str());
    charset_of_text(snippet.as_str())
}

/// The encoding of a page with the content type `content_type`.
pub fn charset_of_page(content_type: Option<&[u8]>, bytes: &[u8]) -> (r: String)
    ensures
        r@ == page_charset(content_type.deep_view(), bytes@),
{
    if let Some(raw) = content_type {
        assert(raw.deep_view() =~= raw@);
        if let Some(ct) = header_text(raw) {
            if let Some(name) = charset_of_content_type(ct.as_str()) {
                return name;
            }
        }
    }
    match sniff_charset_from_bytes(bytes) {
        Some(name) => name,
        None => "utf-8".to_owned(),
    }
}

// ---------------------------------------------------------------------------
// Decoding
// ---------------------------------------------------------------------------

/// The longest response, in bytes, that is decoded or encoded: the buffers for the result
/// are a few times as long.
pub const MAX_RESPONSE_BYTES: usize = usize::MAX / 32;

/// `encoding_rs` knows an encoding by this label.
pub uninterp spec fn known_label(label: Seq<u8>) -> bool;

/// The text that bytes stand for in the encoding of this label.
pub uninterp spec fn labelled_text(label: Seq<u8>, bytes: Seq<u8>) -> Seq<char>;

/// Some of the bytes stand for nothing in the encoding of this label, and become replacement
/// characters.
pub uninterp spec fn labelled_malformed(label: Seq<u8>, bytes: Seq<u8>) -> bool;

/// The bytes start with the byte order mark of UTF-8.
pub open spec fn starts_with_mark(bytes: Seq<u8>) -> bool {
    bytes.len() >= 3 && bytes[0] == 0xef && bytes[1] == 0xbb && bytes[2] == 0xbf
}

/// The text that bytes stand for in UTF-8.
pub open spec fn utf8_text(bytes: Seq<u8>) -> Seq<char> {
    if valid_utf8(bytes) && !starts_with_mark(bytes) {
        decode_utf8(bytes)
    } else {
        labelled_text(encode_utf8("utf-8"@), bytes)
    }
}

/// The text that bytes stand for in the encoding `charset`, or in UTF-8 where nobody knows
/// that encoding. The byte order mark of UTF-8 counts for more than `charset`.
pub open spec fn decoded(bytes: Seq<u8>, charset: Seq<char>) -> Seq<char> {
    if starts_with_mark(bytes) && valid_utf8(bytes.skip(3)) {
        decode_utf8(bytes.skip(3))
    } else if charset != "utf-8"@ && known_label(encode_utf8(charset)) {
        labelled_text(encode_utf8(charset), bytes)
    } else {
        utf8_text(bytes)
    }
}

/// Some of the bytes stand for nothing in the encoding `charset`, or in UTF-8 where nobody knows
/// that encoding.
pub open spec fn malformed(bytes: Seq<u8>, charset: Seq<char>) -> bool {
    if starts_with_mark(bytes) && valid_utf8(bytes.skip(3)) {
        false
    } else if charset != "utf-8"@ && known_label(encode_utf8(charset)) {
        labelled_malformed(encode_utf8(charset), bytes)
    } else if valid_utf8(bytes) && !starts_with_mark(bytes) {
        false
    } else {
        labelled_malformed(encode_utf8("utf-8"@), bytes)
    }
}

/// `encoding_rs::Encoding::for_label`, then `Encoding::decode` in the encoding that it
/// gives: none where it knows no encoding by that label, which depends on the label alone,
/// else the text, and whether bytes became replacement characters, which depend on the label
/// and the bytes alone. It knows `utf-8`, by which valid UTF-8 without a byte order mark is
/// decoded to just its characters. Valid UTF-8 behind its byte order mark is decoded so by
/// every label.
#[verifier::external_body]
fn decode_labelled(label: &[u8], bytes: &[u8]) -> (r: Option<(String, bool)>)
    requires
        bytes@.len() <= MAX_RESPONSE_BYTES,
    ensures
        r is Some <==> known_label(label@),
        r matches Some((text, bad)) ==> text@ == labelled_text(label@, bytes@) && bad
            == labelled_malformed(label@, bytes@),
        label@ == encode_utf8("utf-8"@) ==> r is Some,
        label@ == encode_utf8("utf-8"@) && valid_utf8(bytes@) && !starts_with_mark(bytes@) ==> (
        r matches Some((text, bad)) ==> text@ == decode_utf8(bytes@) && !bad),
        starts_with_mark(bytes@) && valid_utf8(bytes@.skip(3)) ==> (r matches Some((text, bad))
            ==> text@ == decode_utf8(bytes@.skip(3)) && !bad),
{
    let encoding = encoding_rs::Encoding::for_label(label)?;
    let (text, _, bad) = encoding.decode(bytes);
    Some((text.into_owned(), bad))
}

/// The text that bytes stand for in the encoding `charset`, and whether some of them became
/// replacement characters.
pub fn decode_checked(bytes: &[u8], charset: &str) -> (r: (String, bool))
    requires
        bytes@.len() <= MAX_RESPONSE_BYTES,
    ensures
        r.0@ == decoded(bytes@, charset@),
        r.1 == malformed(bytes@, charset@),
{
    let ghost utf8 = "utf-8"@;
    let known = decode_labelled(charset.as_bytes(), bytes);
    proof {
        encode_utf8_decode_utf8(charset@);
        encode_utf8_decode_utf8(utf8);
    }
    match known {
        Some(both) => both,
        None => decode_labelled("utf-8".as_bytes(), bytes).unwrap(),
    }
}

/// The text that bytes stand for in the encoding `charset`. It always has one: what the
/// encoding does not know becomes a replacement character.
pub fn decode_bytes(bytes: &[u8], charset: &str) -> (r: Result<String, String>)
    requires
        bytes@.len() <= MAX_RESPONSE_BYTES,
    ensures
        r matches Ok(text) && text@ == decoded(bytes@, charset@),
{
    Ok(decode_checked(bytes, charset).0)
}

/// The text of a page.
pub open spec fn page_text(content_type: Option<Seq<u8>>, bytes: Seq<u8>) -> Seq<char> {
    decoded(bytes, page_charset(content_type, bytes))
}

/// The text of a page that came with the content type `content_type`.
pub fn decode_page(content_type: Option<&[u8]>, bytes: &[u8]) -> (r: Result<String, String>)
    requires
        bytes@.len() <= MAX_RESPONSE_BYTES,
    ensures
        r matches Ok(text) && text@ == page_text(content_type.deep_view(), bytes@),
{
    let charset = charset_of_page(content_type, bytes);
    decode_bytes(bytes, charset.as_str())
}

// ---------------------------------------------------------------------------
// Laws
// ---------------------------------------------------------------------------

/// A text that is sent as UTF-8, without a byte order mark before it, is read back as it
/// was.
pub proof fn law_utf8_round_trip(text: Seq<char>)
    requires
        !starts_with_mark(encode_utf8(text)),
    ensures
        decoded(encode_utf8(text), "utf-8"@) == text,
{
    encode_utf8_valid_utf8(text);
    encode_utf8_decode_utf8(text);
}

/// A text that is sent as UTF-8 behind a byte order mark is read back as it was, whatever
/// encoding is named.
pub proof fn law_marked_round_trip(text: Seq<char>, charset: Seq<char>)
    ensures
        decoded(seq![0xefu8, 0xbb, 0xbf] + encode_utf8(text), charset) == text,
{
    let bytes = seq![0xefu8, 0xbb, 0xbf] + encode_utf8(text);
    assert(bytes.skip(3) =~= encode_utf8(text));
    encode_utf8_valid_utf8(text);
    encode_utf8_decode_utf8(text);
}

/// A page that no header and no mark of its own gives an encoding is read as UTF-8.
pub proof fn law_default_is_utf8(bytes: Seq<u8>)
    requires
        sniffed_charset(bytes) is None,
        valid_utf8(bytes),
        !starts_with_mark(bytes),
    ensures
        page_text(None, bytes) == decode_utf8(bytes),
{
}

/// An encoding that nobody knows is read as UTF-8.
pub proof fn law_unknown_is_utf8(bytes: Seq<u8>, charset: Seq<char>)
    requires
        !known_label(encode_utf8(charset)),
    ensures
        decoded(bytes, charset) == decoded(bytes, "utf-8"@),
        malformed(bytes, charset) == malformed(bytes, "utf-8"@),
{
}

/// The encoding that the header of a page names is taken, whatever the page itself says.
pub proof fn law_header_first(content_type: Seq<u8>, bytes: Seq<u8>)
    requires
        header_value(content_type) is Some,
        content_charset(header_value(content_type)->0) is Some,
    ensures
        page_charset(Some(content_type), bytes) == content_charset(
            header_value(content_type)->0,
        )->0,
{
}

/// Only the beginning of a page is searched for the name of its encoding.
pub proof fn law_head_decides(bytes: Seq<u8>, more: Seq<u8>)
    requires
        bytes.len() >= 4096,
    ensures
        sniffed_charset(bytes + more) == sniffed_charset(bytes),
{
    assert(page_head(bytes + more) =~= page_head(bytes));
}

/// The value of a header is read as the text that it is, if it is made of visible ASCII
/// characters, spaces and tabs, and not at all if it holds anything else.
pub proof fn law_header_value(bytes: Seq<u8>)
    ensures
        (forall|i: int| 0 <= i < bytes.len() ==> 0x20 <= (#[trigger] bytes[i]) <= 0x7e || bytes[i] == 9)
            ==> (header_value(bytes) matches Some(text) && text.len() == bytes.len() && forall|i: int|
            0 <= i < bytes.len() ==> (#[trigger] text[i]) as u32 == bytes[i]),
        (exists|i: int|
            0 <= i < bytes.len() && !(0x20 <= (#[trigger] bytes[i]) <= 0x7e || bytes[i] == 9))
            ==> header_value(bytes) is None,
{
    if forall|i: int| 0 <= i < bytes.len() ==> 0x20 <= (#[trigger] bytes[i]) <= 0x7e || bytes[i] == 9 {
        assert forall|i: int| 0 <= i < bytes.len() implies visible(#[trigger] bytes[i]) by {}
    } else {
        let i = choose|i: int|
            0 <= i < bytes.len() && !(0x20 <= (#[trigger] bytes[i]) <= 0x7e || bytes[i] == 9);
        assert(!visible(bytes[i]));
    }
}

proof fn lemma_charset_piece(parts: Seq<Seq<char>>, k: int)
    requires
        0 <= k <= parts.len(),
        k < parts.len() ==> begins(lower(trimmed(parts[k])), "charset"@),
        forall|j: int| 0 <= j < k ==> !begins(lower(trimmed(#[trigger] parts[j])), "charset"@),
    ensures
        charset_piece(parts) == if k < parts.len() {
            Some(parts[k])
        } else {
            None
        },
    decreases parts.len(),
{
    if parts.len() > 0 && k > 0 {
        let rest = parts.skip(1);
        assert(!begins(lower(trimmed(parts[0])), "charset"@));
        assert forall|j: int| 0 <= j < k - 1 implies !begins(
            lower(trimmed(#[trigger] rest[j])),
            "charset"@,
        ) by {
            assert(rest[j] == parts[j + 1]);
        }
        lemma_charset_piece(rest, k - 1);
    }
}

/// A content type names the encoding that stands behind the equals sign of the first of its
/// pieces that starts with `charset`, in lower case; and none where there is no such piece, or no
/// equals sign in it.
pub proof fn law_content_charset(content_type: Seq<char>, k: int)
    requires
        0 <= k <= pieces(content_type, ';').len(),
        k < pieces(content_type, ';').len() ==> "charset"@.is_prefix_of(
            lower(trimmed(pieces(content_type, ';')[k])),
        ),
        forall|j: int|
            0 <= j < k ==> !"charset"@.is_prefix_of(
                lower(trimmed(#[trigger] pieces(content_type, ';')[j])),
            ),
    ensures
        k == pieces(content_type, ';').len() ==> content_charset(content_type) is None,
        k < pieces(content_type, ';').len() && pieces(pieces(content_type, ';')[k], '=').len() <= 1
            ==> content_charset(content_type) is None,
        k < pieces(content_type, ';').len() && pieces(pieces(content_type, ';')[k], '=').len() > 1
            ==> content_charset(content_type) == Some(
            lower(trimmed(pieces(pieces(content_type, ';')[k], '=')[1])),
        ),
{
    let parts = pieces(content_type, ';');
    if k < parts.len() {
        law_occurs(lower(trimmed(parts[k])), "charset"@, 0, Seq::empty());
    }
    assert forall|j: int| 0 <= j < k implies !begins(
        lower(trimmed(#[trigger] parts[j])),
        "charset"@,
    ) by {
        law_occurs(lower(trimmed(parts[j])), "charset"@, 0, Seq::empty());
    }
    lemma_charset_piece(parts, k);
}

proof fn lemma_unquoted(quotes: Seq<char>, rest: Seq<char>)
    requires
        forall|i: int| 0 <= i < quotes.len() ==> leads_name(#[trigger] quotes[i]),
        rest.len() > 0 ==> !leads_name(rest[0]),
    ensures
        unquoted(quotes + rest) == rest,
    decreases quotes.len(),
{
    if quotes.len() == 0 {
        assert(quotes + rest =~= rest);
    } else {
        assert(leads_name(quotes[0]));
        let less = quotes.skip(1);
        assert((quotes + rest).skip(1) =~= less + rest);
        assert forall|i: int| 0 <= i < less.len() implies leads_name(#[trigger] less[i]) by {
            assert(less[i] == quotes[i + 1]);
        }
        lemma_unquoted(less, rest);
    }
}

proof fn lemma_leading_name(name: Seq<char>, rest: Seq<char>)
    requires
        forall|i: int| 0 <= i < name.len() ==> in_name(#[trigger] name[i]),
        rest.len() > 0 ==> !in_name(rest[0]),
    ensures
        leading_name(name + rest) == name,
    decreases name.len(),
{
    if name.len() == 0 {
        assert(name + rest =~= rest);
        assert(leading_name(rest) =~= name);
    } else {
        assert(in_name(name[0]));
        let less = name.skip(1);
        assert((name + rest).skip(1) =~= less + rest);
        assert forall|i: int| 0 <= i < less.len() implies in_name(#[trigger] less[i]) by {
            assert(less[i] == name[i + 1]);
        }
        lemma_leading_name(less, rest);
        assert(seq![name[0]] + less =~= name);
    }
}

/// A text names the encoding that stands behind its first `charset=`, behind quotes and spaces:
/// letters, digits, hyphens and underscores, as far as they go. Where none of these stands there,
/// it names none.
pub proof fn law_text_charset(
    before: Seq<char>,
    quotes: Seq<char>,
    name: Seq<char>,
    rest: Seq<char>,
)
    requires
        forall|j: int|
            0 <= j < before.len() ==> !"charset="@.is_prefix_of(
                #[trigger] (before + "charset="@ + quotes + name + rest).skip(j),
            ),
        forall|i: int|
            0 <= i < quotes.len() ==> (#[trigger] quotes[i]) == '"' || quotes[i] == '\'' || quotes[i]
                == ' ',
        forall|i: int|
            0 <= i < name.len() ==> alphanumeric(#[trigger] name[i]) || name[i] == '-' || name[i]
                == '_',
        rest.len() > 0 ==> !alphanumeric(rest[0]) && rest[0] != '-' && rest[0] != '_',
        rest.len() > 0 && name.len() == 0 ==> rest[0] != '"' && rest[0] != '\'' && rest[0] != ' ',
    ensures
        text_charset(before + "charset="@ + quotes + name + rest) == if name.len() > 0 {
            Some(name)
        } else {
            None
        },
{
    reveal_strlit("charset=");
    let text = before + "charset="@ + quotes + name + rest;
    let k = before.len() as int;
    assert(text.subrange(k, k + 8) =~= "charset="@);
    assert forall|j: int| 0 <= j < k implies !#[trigger] occurs_at(text, "charset="@, j) by {
        law_occurs(text, "charset="@, j, rest);
        assert(!"charset="@.is_prefix_of(text.skip(j)));
    }
    lemma_first_is(text, "charset="@, 0, k);
    assert(text.skip(k + 8) =~= quotes + (name + rest));
    assert forall|i: int| 0 <= i < quotes.len() implies leads_name(#[trigger] quotes[i]) by {}
    assert forall|i: int| 0 <= i < name.len() implies in_name(#[trigger] name[i]) by {}
    if name.len() > 0 {
        assert((name + rest)[0] == name[0]);
        assert(in_name(name[0]));
    }
    lemma_unquoted(quotes, name + rest);
    lemma_leading_name(name, rest);
}

/// A text in which `charset=` does not stand names no encoding.
pub proof fn law_no_text_charset(text: Seq<char>)
    requires
        forall|i: int| 0 <= i <= text.len() ==> !"charset="@.is_prefix_of(#[trigger] text.skip(i)),
    ensures
        text_charset(text) is None,
{
    reveal_strlit("charset=");
    lemma_first_from(text, "charset="@, 0);
    if let Some(i) = first(text, "charset="@) {
        law_occurs(text, "charset="@, i, text);
        assert(!"charset="@.is_prefix_of(text.skip(i)));
    }
}

/// The encoding that a page names itself is the one that its first 4096 bytes name, read as
/// UTF-8 and in lower case.
pub proof fn law_sniffed(bytes: Seq<u8>, head: Seq<u8>)
    requires
        head.is_prefix_of(bytes),
        bytes.len() <= 4096 ==> head.len() == bytes.len(),
        bytes.len() > 4096 ==> head.len() == 4096,
    ensures
        valid_utf8(head) ==> sniffed_charset(bytes) == text_charset(lower(decode_utf8(head))),
        !valid_utf8(head) ==> sniffed_charset(bytes) == text_charset(lower(lossy_decoding(head))),
{
    assert(page_head(bytes) =~= head);
}

/// A page is decoded in the encoding that its header names, if it names one; else, whatever the
/// header is, in the one that the page names itself, if it names one; else in UTF-8.
pub proof fn law_page_decoded(content_type: Option<Seq<u8>>, bytes: Seq<u8>, name: Seq<char>)
    ensures
        content_type matches Some(raw) && header_value(raw) matches Some(text) && content_charset(
            text,
        ) == Some(name) ==> page_text(content_type, bytes) == decoded(bytes, name),
        content_type is None && sniffed_charset(bytes) == Some(name) ==> page_text(
            content_type,
            bytes,
        ) == decoded(bytes, name),
        content_type matches Some(raw) && header_value(raw) is None && sniffed_charset(bytes) == Some(
            name,
        ) ==> page_text(content_type, bytes) == decoded(bytes, name),
        content_type matches Some(raw) && header_value(raw) matches Some(text) && content_charset(
            text,
        ) is None && sniffed_charset(bytes) == Some(name) ==> page_text(content_type, bytes)
            == decoded(bytes, name),
        (content_type matches Some(raw) && header_value(raw) matches Some(text) ==> content_charset(
            text,
        ) is None) && sniffed_charset(bytes) is None ==> page_text(content_type, bytes) == decoded(
            bytes,
            "utf-8"@,
        ),
{
}

/// The encoding of a page is the one that its header names, if it names one; else, whatever the
/// header is, the one that the page names itself, if it names one; else UTF-8.
pub proof fn law_page_charset(content_type: Option<Seq<u8>>, bytes: Seq<u8>, name: Seq<char>)
    ensures
        content_type matches Some(raw) && header_value(raw) matches Some(text) && content_charset(
            text,
        ) == Some(name) ==> page_charset(content_type, bytes) == name,
        (content_type matches Some(raw) && header_value(raw) matches Some(text) ==> content_charset(
            text,
        ) is None) && sniffed_charset(bytes) == Some(name) ==> page_charset(content_type, bytes)
            == name,
        (content_type matches Some(raw) && header_value(raw) matches Some(text) ==> content_charset(
            text,
        ) is None) && sniffed_charset(bytes) is None ==> page_charset(content_type, bytes)
            == "utf-8"@,
{
}

/// Bytes behind the byte order mark of UTF-8 are read as UTF-8 if they are that. Any others are
/// read in the encoding that is named, if it is known, else as UTF-8.
pub proof fn law_decoded(bytes: Seq<u8>, charset: Seq<char>)
    ensures
        seq![0xefu8, 0xbb, 0xbf].is_prefix_of(bytes) && valid_utf8(bytes.skip(3)) ==> decoded(
            bytes,
            charset,
        ) == decode_utf8(bytes.skip(3)) && !malformed(bytes, charset),
        !(seq![0xefu8, 0xbb, 0xbf].is_prefix_of(bytes) && valid_utf8(bytes.skip(3))) && charset
            != "utf-8"@ && known_label(encode_utf8(charset)) ==> decoded(bytes, charset)
            == labelled_text(encode_utf8(charset), bytes) && malformed(bytes, charset)
            == labelled_malformed(encode_utf8(charset), bytes),
        !seq![0xefu8, 0xbb, 0xbf].is_prefix_of(bytes) && valid_utf8(bytes) && (charset == "utf-8"@
            || !known_label(encode_utf8(charset))) ==> decoded(bytes, charset) == decode_utf8(bytes)
            && !malformed(bytes, charset),
        !(seq![0xefu8, 0xbb, 0xbf].is_prefix_of(bytes) && valid_utf8(bytes.skip(3))) && (
        seq![0xefu8, 0xbb, 0xbf].is_prefix_of(bytes) || !valid_utf8(bytes)) && (charset == "utf-8"@
            || !known_label(encode_utf8(charset))) ==> decoded(bytes, charset) == labelled_text(
            encode_utf8("utf-8"@),
            bytes,
        ) && malformed(bytes, charset) == labelled_malformed(encode_utf8("utf-8"@), bytes),
{
    let mark = seq![0xefu8, 0xbb, 0xbf];
    assert(starts_with_mark(bytes) == mark.is_prefix_of(bytes)) by {
        if bytes.len() >= 3 {
            let start = bytes.subrange(0, 3);
            assert(start[0] == bytes[0] && start[1] == bytes[1] && start[2] == bytes[2]);
            if starts_with_mark(bytes) {
                assert(start =~= mark);
            }
        }
    }
}

} // verus!
