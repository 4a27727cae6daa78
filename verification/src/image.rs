//! The images of a page, and how they are put into it.

use crate::charset::{header_text, header_value, MAX_RESPONSE_BYTES};
use crate::dom::{fragment_selection, parseable, TagView};
use crate::page::{extract_img_srcs, image_sources, law_distinct_values};
use crate::text::{contains, first, has_text, occurs_at, replace_all, replaced};
use crate::text::{law_replacing_apart, law_replacing_elsewhere, law_replacing_first};
use crate::text::law_replacing_nothing;
use crate::text::{begins, law_occurs, lemma_first_from, lemma_occurs_in_tail};
use crate::url::{absolute, law_absolute_is_valid, to_absolute, valid_url};
use crate::value::{escape, escaped, lemma_escaped_fits, lemma_escaped_source_mark};
use crate::value::{read_value, value_of};
use vstd::prelude::*;

verus! {

// ---------------------------------------------------------------------------
// Which images to fetch
// ---------------------------------------------------------------------------

/// The images of an HTML fragment on a page of the site `base`: each source once, with the
/// address that it means.
pub open spec fn image_requests(html: Seq<char>, base: Seq<char>) -> Seq<(Seq<char>, Seq<char>)> {
    image_sources(html).map_values(|s: Seq<char>| (s, absolute(s, base)))
}

/// The images to fetch for an HTML fragment on a page of the site `base_url`.
pub fn plan_images(html: &str, base_url: &str) -> (r: Vec<(String, String)>)
    requires
        parseable(html@),
    ensures
        r.deep_view() == image_requests(html@, base_url@),
{
    let srcs = extract_img_srcs(html);
    let ghost all = image_requests(html@, base_url@);
    let mut out: Vec<(String, String)> = Vec::new();
    let mut i: usize = 0;
    while i < srcs.len()
        invariant
            srcs.deep_view() == image_sources(html@),
            all == image_requests(html@, base_url@),
            i <= srcs@.len(),
            out.deep_view() == all.take(i as int),
        decreases srcs@.len() - i,
    {
        let ghost before = out.deep_view();
        assert(srcs.deep_view()[i as int] == srcs[i as int]@);
        let abs = to_absolute(srcs[i].as_str(), base_url);
        out.push((srcs[i].clone(), abs));
        assert(out.deep_view() =~= before.push(all[i as int]));
        assert(all.take(i + 1) =~= all.take(i as int).push(all[i as int]));
        i += 1;
    }
    assert(all.take(i as int) =~= all);
    out
}

// ---------------------------------------------------------------------------
// From an answer to an image
// ---------------------------------------------------------------------------

/// The kind of image that a content type speaks of.
pub open spec fn image_kind(content_type: Seq<char>) -> Seq<char> {
    if contains(content_type, "png"@) {
        "image/png"@
    } else if contains(content_type, "gif"@) {
        "image/gif"@
    } else if contains(content_type, "webp"@) {
        "image/webp"@
    } else if contains(content_type, "svg"@) {
        "image/svg+xml"@
    } else {
        "image/jpeg"@
    }
}

/// The kind of an image with this content type header: JPEG where there is no readable one.
pub open spec fn header_kind(content_type: Option<Seq<u8>>) -> Seq<char> {
    match content_type {
        Some(raw) => match header_value(raw) {
            Some(ct) => image_kind(ct),
            None => "image/jpeg"@,
        },
        None => "image/jpeg"@,
    }
}

/// The character of the standard Base64 alphabet for `n`, which is below 64.
pub open spec fn base64_digit(n: int) -> char {
    if n < 26 {
        ('A' as int + n) as char
    } else if n < 52 {
        ('a' as int + n - 26) as char
    } else if n < 62 {
        ('0' as int + n - 52) as char
    } else if n == 62 {
        '+'
    } else {
        '/'
    }
}

/// The bytes in Base64, with the standard alphabet and with padding: four characters of six
/// bits each for every three bytes.
pub open spec fn base64(bytes: Seq<u8>) -> Seq<char>
    decreases bytes.len(),
{
    if bytes.len() == 0 {
        Seq::empty()
    } else {
        let a = bytes[0] as int;
        let b = if bytes.len() > 1 {
            bytes[1] as int
        } else {
            0
        };
        let c = if bytes.len() > 2 {
            bytes[2] as int
        } else {
            0
        };
        let third = if bytes.len() > 1 {
            base64_digit(b % 16 * 4 + c / 64)
        } else {
            '='
        };
        let fourth = if bytes.len() > 2 {
            base64_digit(c % 64)
        } else {
            '='
        };
        let rest = if bytes.len() > 3 {
            base64(bytes.skip(3))
        } else {
            Seq::empty()
        };
        seq![base64_digit(a / 4), base64_digit(a % 4 * 16 + b / 16), third, fourth] + rest
    }
}

/// An image as a `data:` address.
pub open spec fn data_uri(content_type: Option<Seq<u8>>, bytes: Seq<u8>) -> Seq<char> {
    "data:"@ + header_kind(content_type) + ";base64,"@ + base64(bytes)
}

/// No character of `s` ends an attribute value or a tag, or starts a tag.
pub open spec fn fits_attribute(s: Seq<char>) -> bool {
    forall|i: int|
        0 <= i < s.len() ==> (#[trigger] s[i]) != '"' && s[i] != '\'' && s[i] != '<' && s[i] != '>'
}

/// `base64::Engine::encode` of `base64::engine::general_purpose::STANDARD`: the bytes in
/// Base64, with the standard alphabet and with padding.
#[verifier::external_body]
fn encode_base64(bytes: &[u8]) -> (r: String)
    requires
        bytes@.len() <= MAX_RESPONSE_BYTES,
    ensures
        r@ == base64(bytes@),
{
    base64::Engine::encode(&base64::engine::general_purpose::STANDARD, bytes)
}

proof fn lemma_base64_length(bytes: Seq<u8>)
    ensures
        base64(bytes).len() == (bytes.len() + 2) / 3 * 4,
    decreases bytes.len(),
{
    if bytes.len() > 3 {
        lemma_base64_length(bytes.skip(3));
    }
}

proof fn lemma_base64_fits(bytes: Seq<u8>)
    ensures
        fits_attribute(base64(bytes)),
    decreases bytes.len(),
{
    if bytes.len() > 3 {
        lemma_base64_fits(bytes.skip(3));
    }
}

/// The kind of an image with this content type header.
pub fn image_mime(content_type: Option<&[u8]>) -> (r: &'static str)
    ensures
        r@ == header_kind(content_type.deep_view()),
        fits_attribute(r@),
{
    proof {
        reveal_strlit("image/png");
        reveal_strlit("image/gif");
        reveal_strlit("image/webp");
        reveal_strlit("image/svg+xml");
        reveal_strlit("image/jpeg");
    }
    if let Some(raw) = content_type {
        assert(raw.deep_view() =~= raw@);
        if let Some(ct) = header_text(raw) {
            if has_text(ct.as_str(), "png") {
                return "image/png";
            }
            if has_text(ct.as_str(), "gif") {
                return "image/gif";
            }
            if has_text(ct.as_str(), "webp") {
                return "image/webp";
            }
            if has_text(ct.as_str(), "svg") {
                return "image/svg+xml";
            }
        }
    }
    "image/jpeg"
}

/// The image that came with the content type `content_type`, as a `data:` address. It can
/// stand in a quoted attribute as it is.
pub fn image_data_uri(content_type: Option<&[u8]>, bytes: &[u8]) -> (r: String)
    requires
        bytes@.len() <= MAX_RESPONSE_BYTES,
    ensures
        r@ == data_uri(content_type.deep_view(), bytes@),
        fits_attribute(r@),
{
    proof {
        reveal_strlit("data:");
        reveal_strlit(";base64,");
        lemma_base64_fits(bytes@);
    }
    let mut out = "data:".to_owned();
    out.append(image_mime(content_type));
    out.append(";base64,");
    let code = encode_base64(bytes);
    out.append(code.as_str());
    out
}

// ---------------------------------------------------------------------------
// The images that came
// ---------------------------------------------------------------------------

/// A source and the image that stands for it.
pub type Image = (Seq<char>, Seq<char>);

/// One of `images` stands for the source `src`.
pub open spec fn has_source(images: Seq<Image>, src: Seq<char>) -> bool {
    exists|i: int| 0 <= i < images.len() && (#[trigger] images[i]).0 == src
}

/// `images` with `data` for the source `src`, in place of what stood for it.
pub open spec fn put(images: Seq<Image>, src: Seq<char>, data: Seq<char>) -> Seq<Image> {
    if has_source(images, src) {
        images.map_values(
            |m: Image|
                if m.0 == src {
                    (src, data)
                } else {
                    m
                },
        )
    } else {
        images.push((src, data))
    }
}

/// `images` with those added that came, in order.
pub open spec fn put_all(images: Seq<Image>, results: Seq<Option<Image>>) -> Seq<Image>
    decreases results.len(),
{
    if results.len() == 0 {
        images
    } else {
        let next = match results[0] {
            Some(m) => put(images, m.0, m.1),
            None => images,
        };
        put_all(next, results.skip(1))
    }
}

/// The images that came, one for each source.
pub fn collect_images(results: Vec<Option<(String, String)>>) -> (r: Vec<(String, String)>)
    ensures
        r.deep_view() == put_all(Seq::empty(), results.deep_view()),
{
    let ghost all = results.deep_view();
    let mut images: Vec<(String, String)> = Vec::new();
    let mut i: usize = 0;
    assert(all.skip(0) =~= all);
    assert(images.deep_view() =~= Seq::empty());
    while i < results.len()
        invariant
            all == results.deep_view(),
            i <= results@.len(),
            put_all(images.deep_view(), all.skip(i as int)) == put_all(Seq::empty(), all),
        decreases results@.len() - i,
    {
        proof {
            assert(all.skip(i as int).skip(1) =~= all.skip(i + 1));
            assert(all[i as int] == results[i as int].deep_view());
        }
        if let Some(m) = &results[i] {
            images = put_image(images, m.0.clone(), m.1.clone());
        }
        i += 1;
    }
    images
}

/// `images` with `data` for the source `src`.
fn put_image(images: Vec<(String, String)>, src: String, data: String) -> (r: Vec<
    (String, String),
>)
    ensures
        r.deep_view() == put(images.deep_view(), src@, data@),
{
    let ghost all = images.deep_view();
    let mut out: Vec<(String, String)> = Vec::new();
    let mut found = false;
    let mut i: usize = 0;
    let ghost entry = |m: Image|
        if m.0 == src@ {
            (src@, data@)
        } else {
            m
        };
    while i < images.len()
        invariant
            all == images.deep_view(),
            entry == (|m: Image|
                if m.0 == src@ {
                    (src@, data@)
                } else {
                    m
                }),
            i <= images@.len(),
            found == has_source(all.take(i as int), src@),
            out.deep_view() == all.take(i as int).map_values(entry),
        decreases images@.len() - i,
    {
        let ghost before = out.deep_view();
        let ghost seen = all.take(i as int);
        proof {
            assert(all[i as int] == images[i as int].deep_view());
            assert(all.take(i + 1) =~= seen.push(all[i as int]));
            assert(seen.push(all[i as int]).map_values(entry) =~= before.push(
                entry(all[i as int]),
            ));
            if has_source(seen, src@) {
                let k = choose|k: int| 0 <= k < seen.len() && (#[trigger] seen[k]).0 == src@;
                assert(all.take(i + 1)[k] == seen[k]);
            }
            if has_source(all.take(i + 1), src@) && all[i as int].0 != src@ {
                let k = choose|k: int|
                    0 <= k < i + 1 && (#[trigger] all.take(i + 1)[k]).0 == src@;
                assert(seen[k] == all.take(i + 1)[k]);
            }
            assert(all.take(i + 1)[i as int] == all[i as int]);
        }
        if images[i].0 == src {
            found = true;
            out.push((src.clone(), data.clone()));
        } else {
            out.push((images[i].0.clone(), images[i].1.clone()));
        }
        assert(out.deep_view() =~= before.push(entry(all[i as int])));
        i += 1;
    }
    assert(all.take(i as int) =~= all);
    if !found {
        let ghost before = out.deep_view();
        assert forall|k: int| 0 <= k < all.len() implies entry(#[trigger] all[k]) == all[k] by {
            assert(all[k].0 != src@);
        }
        assert(before =~= all);
        out.push((src, data));
        assert(out.deep_view() =~= before.push((src@, data@)));
    }
    out
}

// ---------------------------------------------------------------------------
// Putting the images in
// ---------------------------------------------------------------------------

/// The source attribute with the value `s` in double quotes.
pub open spec fn double_quoted(s: Seq<char>) -> Seq<char> {
    "src=\""@ + s + "\""@
}

/// The source attribute with the value `s` in single quotes.
pub open spec fn single_quoted(s: Seq<char>) -> Seq<char> {
    "src='"@ + s + "'"@
}

/// `html` with `data` in every source attribute whose value stands there as `src`.
pub open spec fn with_source(html: Seq<char>, src: Seq<char>, data: Seq<char>) -> Seq<char> {
    replaced(
        replaced(html, double_quoted(src), double_quoted(data)),
        single_quoted(src),
        single_quoted(data),
    )
}

/// The spellings in which a source attribute means one of the sources, each with the image: the
/// source as it is, where it reads as it is, and as it is escaped.
pub open spec fn meant(images: Seq<Image>) -> Seq<Image>
    decreases images.len(),
{
    if images.len() == 0 {
        Seq::empty()
    } else {
        let (src, data) = images[0];
        let plain = if value_of(src) == src {
            seq![(src, data)]
        } else {
            Seq::empty()
        };
        let other = if escaped(src) != src {
            seq![(escaped(src), data)]
        } else {
            Seq::empty()
        };
        plain + other + meant(images.skip(1))
    }
}

/// The sources that do not read as they are, each with the image.
pub open spec fn misread(images: Seq<Image>) -> Seq<Image>
    decreases images.len(),
{
    if images.len() == 0 {
        Seq::empty()
    } else {
        let (src, data) = images[0];
        let plain = if value_of(src) == src {
            Seq::empty()
        } else {
            seq![(src, data)]
        };
        plain + misread(images.skip(1))
    }
}

/// The spellings of the sources, each with the image. A spelling that means a source comes
/// before a source that is only spelled so.
pub open spec fn spellings(images: Seq<Image>) -> Seq<Image> {
    meant(images) + misread(images)
}

/// `html` with the image of each of `steps`, in order, in every source attribute with that
/// spelling.
pub open spec fn put_in(html: Seq<char>, steps: Seq<Image>) -> Seq<char>
    decreases steps.len(),
{
    if steps.len() == 0 {
        html
    } else {
        put_in(with_source(html, steps[0].0, steps[0].1), steps.skip(1))
    }
}

/// `html` with the images in every source attribute that names their sources.
pub open spec fn with_images(html: Seq<char>, images: Seq<Image>) -> Seq<char> {
    put_in(html, spellings(images))
}

fn quoted_source(open: &str, s: &str, close: &str) -> (r: String)
    ensures
        r@ == open@ + s@ + close@,
{
    open.to_owned().concat(s).concat(close)
}

/// `html` with `data` in every source attribute whose value stands there as `src`.
fn replace_source(html: &str, src: &str, data: &str) -> (r: String)
    ensures
        r@ == with_source(html@, src@, data@),
{
    proof {
        reveal_strlit("src=\"");
        reveal_strlit("src='");
    }
    let double = replace_all(
        html,
        quoted_source("src=\"", src, "\"").as_str(),
        quoted_source("src=\"", data, "\"").as_str(),
    );
    replace_all(
        double.as_str(),
        quoted_source("src='", src, "'").as_str(),
        quoted_source("src='", data, "'").as_str(),
    )
}

/// The spellings in which a source attribute means one of the sources, each with the image.
fn list_meant(images: &Vec<(String, String)>) -> (r: Vec<(String, String)>)
    ensures
        r.deep_view() == meant(images.deep_view()),
{
    let ghost all = images.deep_view();
    let mut out: Vec<(String, String)> = Vec::new();
    let mut i: usize = 0;
    assert(all.skip(0) =~= all);
    assert(out.deep_view() + meant(all) =~= meant(all));
    while i < images.len()
        invariant
            all == images.deep_view(),
            i <= images@.len(),
            out.deep_view() + meant(all.skip(i as int)) == meant(all),
        decreases images@.len() - i,
    {
        let ghost before = out.deep_view();
        let ghost rest = meant(all.skip(i + 1));
        let ghost plain: Seq<Image> = if value_of(all[i as int].0) == all[i as int].0 {
            seq![all[i as int]]
        } else {
            Seq::empty()
        };
        let ghost other: Seq<Image> = if escaped(all[i as int].0) != all[i as int].0 {
            seq![(escaped(all[i as int].0), all[i as int].1)]
        } else {
            Seq::empty()
        };
        proof {
            assert(all.skip(i as int).skip(1) =~= all.skip(i + 1));
            assert(all[i as int] == images[i as int].deep_view());
        }
        if read_value(images[i].0.as_str()) == images[i].0 {
            out.push((images[i].0.clone(), images[i].1.clone()));
        }
        assert(out.deep_view() =~= before + plain);
        let written = escape(images[i].0.as_str());
        if written != images[i].0 {
            out.push((written, images[i].1.clone()));
        }
        assert(out.deep_view() =~= before + plain + other);
        assert(out.deep_view() + rest =~= before + (plain + other + rest));
        i += 1;
    }
    assert(out.deep_view() + meant(all.skip(i as int)) =~= out.deep_view());
    out
}

/// The sources that do not read as they are, each with the image.
fn list_misread(images: &Vec<(String, String)>) -> (r: Vec<(String, String)>)
    ensures
        r.deep_view() == misread(images.deep_view()),
{
    let ghost all = images.deep_view();
    let mut out: Vec<(String, String)> = Vec::new();
    let mut i: usize = 0;
    assert(all.skip(0) =~= all);
    assert(out.deep_view() + misread(all) =~= misread(all));
    while i < images.len()
        invariant
            all == images.deep_view(),
            i <= images@.len(),
            out.deep_view() + misread(all.skip(i as int)) == misread(all),
        decreases images@.len() - i,
    {
        let ghost before = out.deep_view();
        let ghost rest = misread(all.skip(i + 1));
        proof {
            assert(all.skip(i as int).skip(1) =~= all.skip(i + 1));
            assert(all[i as int] == images[i as int].deep_view());
        }
        if read_value(images[i].0.as_str()) != images[i].0 {
            out.push((images[i].0.clone(), images[i].1.clone()));
            assert(out.deep_view() =~= before + seq![all[i as int]]);
            assert(out.deep_view() + rest =~= before + (seq![all[i as int]] + rest));
        } else {
            assert(out.deep_view() + rest =~= before + (Seq::<Image>::empty() + rest));
        }
        i += 1;
    }
    assert(out.deep_view() + misread(all.skip(i as int)) =~= out.deep_view());
    out
}

/// `html` with the image of each of `steps` in every source attribute with that spelling.
fn replace_sources(html: &str, steps: &Vec<(String, String)>) -> (r: String)
    ensures
        r@ == put_in(html@, steps.deep_view()),
{
    let ghost all = steps.deep_view();
    let mut result = html.to_owned();
    let mut i: usize = 0;
    assert(all.skip(0) =~= all);
    while i < steps.len()
        invariant
            all == steps.deep_view(),
            i <= steps@.len(),
            put_in(result@, all.skip(i as int)) == put_in(html@, all),
        decreases steps@.len() - i,
    {
        proof {
            assert(all.skip(i as int).skip(1) =~= all.skip(i + 1));
            assert(all[i as int] == steps[i as int].deep_view());
        }
        result = replace_source(result.as_str(), steps[i].0.as_str(), steps[i].1.as_str());
        i += 1;
    }
    result
}

/// Puts the images into the source attributes of `html` that name them.
pub fn replace_img_src(html: &str, map: &Vec<(String, String)>) -> (r: String)
    ensures
        r@ == with_images(html@, map.deep_view()),
{
    let first = replace_sources(html, &list_meant(map));
    proof {
        lemma_put_in_append(html@, meant(map.deep_view()), misread(map.deep_view()));
    }
    replace_sources(first.as_str(), &list_misread(map))
}

proof fn lemma_put_in_append(html: Seq<char>, a: Seq<Image>, b: Seq<Image>)
    ensures
        put_in(html, a + b) == put_in(put_in(html, a), b),
    decreases a.len(),
{
    if a.len() == 0 {
        assert(a + b =~= b);
    } else {
        assert((a + b).skip(1) =~= a.skip(1) + b);
        lemma_put_in_append(with_source(html, a[0].0, a[0].1), a.skip(1), b);
    }
}

// ---------------------------------------------------------------------------
// Laws
// ---------------------------------------------------------------------------

/// On a page of an accepted site, every image that is asked for has an accepted address.
pub proof fn law_requests_are_valid(html: Seq<char>, base: Seq<char>, i: int)
    requires
        valid_url(base),
        0 <= i < image_requests(html, base).len(),
    ensures
        valid_url(image_requests(html, base)[i].1),
{
    law_absolute_is_valid(image_sources(html)[i], base);
}

/// No two of `images` stand for the same source.
pub open spec fn distinct_sources(images: Seq<Image>) -> bool {
    forall|i: int, j: int|
        0 <= i < j < images.len() ==> (#[trigger] images[i]).0 != (#[trigger] images[j]).0
}

proof fn lemma_put_distinct(images: Seq<Image>, src: Seq<char>, data: Seq<char>)
    requires
        distinct_sources(images),
    ensures
        distinct_sources(put(images, src, data)),
{
    let all = put(images, src, data);
    assert forall|i: int, j: int| 0 <= i < j < all.len() implies (#[trigger] all[i]).0 != (
    #[trigger] all[j]).0 by {
        assert(images[i].0 == all[i].0);
        if j < images.len() {
            assert(images[j].0 == all[j].0);
        }
    }
}

proof fn lemma_put_all_distinct(images: Seq<Image>, results: Seq<Option<Image>>)
    requires
        distinct_sources(images),
    ensures
        distinct_sources(put_all(images, results)),
    decreases results.len(),
{
    if results.len() > 0 {
        match results[0] {
            Some(m) => {
                lemma_put_distinct(images, m.0, m.1);
                lemma_put_all_distinct(put(images, m.0, m.1), results.skip(1));
            },
            None => lemma_put_all_distinct(images, results.skip(1)),
        }
    }
}

/// Nothing of an image is lost in its Base64 text: bytes that differ have texts that differ.
#[verifier::spinoff_prover]
pub proof fn law_base64_loses_nothing(x: Seq<u8>, y: Seq<u8>)
    requires
        base64(x) == base64(y),
    ensures
        x == y,
    decreases x.len(),
{
    lemma_base64_length(x);
    lemma_base64_length(y);
    if x.len() > 0 && y.len() > 0 {
        let s = base64(x);
        let t = base64(y);
        assert(s[0] == t[0] && s[1] == t[1] && s[2] == t[2] && s[3] == t[3]);
        assert(x.len() > 3 ==> s.skip(4) =~= base64(x.skip(3)));
        assert(y.len() > 3 ==> t.skip(4) =~= base64(y.skip(3)));
        if x.len() > 3 && y.len() > 3 {
            law_base64_loses_nothing(x.skip(3), y.skip(3));
            assert forall|i: int| 3 <= i < x.len() implies x[i] == y[i] by {
                assert(x.skip(3)[i - 3] == y.skip(3)[i - 3]);
            }
            assert(x.skip(3).len() == y.skip(3).len());
        }
    }
    assert(x =~= y);
}

/// Whatever comes of the downloads, at most one image stands for each source.
pub proof fn law_one_image_per_source(results: Seq<Option<Image>>)
    ensures
        distinct_sources(put_all(Seq::empty(), results)),
{
    lemma_put_all_distinct(Seq::empty(), results);
}

/// Where `pat` stands in `s`, the characters are those of `pat`.
proof fn lemma_occurring(s: Seq<char>, pat: Seq<char>, i: int, j: int)
    requires
        occurs_at(s, pat, i),
        i <= j < i + pat.len(),
    ensures
        s[j] == pat[j - i],
{
    assert(s.subrange(i, i + pat.len())[j - i] == s[j]);
}

/// A double-quoted source attribute and a single-quoted one do not overlap, if there is no
/// double quote in the latter, and no single quote in the former unless both have the same
/// value.
proof fn lemma_quotes_apart(s: Seq<char>, d: Seq<char>, i: int, q: Seq<char>, k: int)
    requires
        occurs_at(s, double_quoted(d), i),
        occurs_at(s, single_quoted(q), k),
        !q.contains('"'),
        !d.contains('\'') || d == q,
    ensures
        i + double_quoted(d).len() <= k || k + single_quoted(q).len() <= i,
{
    reveal_strlit("src=\"");
    reveal_strlit("\"");
    reveal_strlit("src='");
    reveal_strlit("'");
    let dq = double_quoted(d);
    let sq = single_quoted(q);
    assert forall|j: int| 0 <= j < sq.len() implies #[trigger] sq[j] != '"' by {
        if 5 <= j < 5 + q.len() {
            assert(q.contains(q[j - 5]));
            assert(sq[j] == q[j - 5]);
        }
    }
    assert(dq[4] == '"' && dq.last() == '"');
    assert(sq[4] == '\'' && sq.last() == '\'');
    lemma_occurring(s, dq, i, i + 4);
    lemma_occurring(s, dq, i, i + dq.len() - 1);
    lemma_occurring(s, sq, k, k + sq.len() - 1);
    if k <= i + 4 < k + sq.len() {
        lemma_occurring(s, sq, k, i + 4);
    }
    if k <= i + dq.len() - 1 < k + sq.len() {
        lemma_occurring(s, sq, k, i + dq.len() - 1);
    }
    let e = k + sq.len() - 1;
    if i <= e < i + dq.len() {
        lemma_occurring(s, dq, i, e);
        let j = e - i;
        if j < 4 {
            assert(dq[j] == "src=\""@[j]);
        } else if 5 <= j < 5 + d.len() {
            assert(dq[j] == d[j - 5]);
            assert(d.contains(d[j - 5]));
        }
    }
}

/// An image that came stands where a source attribute names it, in double quotes or in single
/// ones, if its source holds no double quote and is written as it is.
pub proof fn law_image_put_in(html: Seq<char>, src: Seq<char>, data: Seq<char>)
    requires
        !src.contains('"'),
        escaped(src) == src,
        fits_attribute(data),
    ensures
        contains(html, double_quoted(src)) ==> contains(
            with_images(html, seq![(src, data)]),
            double_quoted(data),
        ),
        contains(html, single_quoted(src)) ==> contains(
            with_images(html, seq![(src, data)]),
            single_quoted(data),
        ),
{
    let one = seq![(src, data)];
    reveal_with_fuel(meant, 2);
    reveal_with_fuel(misread, 2);
    reveal_with_fuel(put_in, 2);
    assert(one.skip(1) =~= Seq::<Image>::empty());
    assert(spellings(one) =~= one);
    assert(with_images(html, one) == with_source(html, src, data));
    reveal_strlit("src=\"");
    reveal_strlit("src='");
    let half = replaced(html, double_quoted(src), double_quoted(data));
    if contains(html, double_quoted(src)) {
        lemma_replaced_is_there(html, double_quoted(src), double_quoted(data));
        let k = choose|k: int| occurs_at(half, double_quoted(data), k);
        assert forall|j: int| #[trigger] occurs_at(half, single_quoted(src), j) implies j
            + single_quoted(src).len() <= k || k + double_quoted(data).len() <= j by {
            lemma_quotes_apart(half, data, k, src, j);
        }
        law_replacing_elsewhere(
            half,
            single_quoted(src),
            single_quoted(data),
            double_quoted(data),
            k,
        );
    }
    if contains(html, single_quoted(src)) {
        let k = choose|k: int| occurs_at(html, single_quoted(src), k);
        assert forall|j: int| #[trigger] occurs_at(html, double_quoted(src), j) implies j
            + double_quoted(src).len() <= k || k + single_quoted(src).len() <= j by {
            lemma_quotes_apart(html, src, j, src, k);
        }
        law_replacing_elsewhere(
            html,
            double_quoted(src),
            double_quoted(data),
            single_quoted(src),
            k,
        );
        lemma_replaced_is_there(half, single_quoted(src), single_quoted(data));
    }
}

/// What is replaced is there.
proof fn lemma_replaced_is_there(s: Seq<char>, from: Seq<char>, to: Seq<char>)
    requires
        from.len() > 0,
        contains(s, from),
    ensures
        contains(replaced(s, from, to), to),
{
    let at = choose|at: int| occurs_at(s, from, at);
    lemma_first_from(s, from, 0);
    assert(occurs_at(s, from, at) && 0 <= at);
    law_replacing_first(s, from, to);
    let i = first(s, from)->0;
    let all = replaced(s, from, to);
    assert(all.subrange(i, i + to.len()) =~= to);
    assert(occurs_at(all, to, i));
}

/// The source `src` is named in `html`: as it is, or as it is written in a tag.
pub open spec fn names(html: Seq<char>, src: Seq<char>) -> bool {
    ||| contains(html, double_quoted(src))
    ||| contains(html, single_quoted(src))
    ||| contains(html, double_quoted(escaped(src)))
    ||| contains(html, single_quoted(escaped(src)))
}

/// `src` is the value of a source attribute of `html`, as it stands there.
pub open spec fn spelled(html: Seq<char>, src: Seq<char>) -> bool {
    contains(html, double_quoted(src)) || contains(html, single_quoted(src))
}

/// The spelling and the image come from `m`.
pub open spec fn comes_from(step: Image, m: Image) -> bool {
    step.1 == m.1 && (step.0 == m.0 || step.0 == escaped(m.0))
}

/// Which image a spelling comes from.
proof fn lemma_spelling_comes(images: Seq<Image>, st: Image) -> (i: int)
    requires
        meant(images).contains(st) || misread(images).contains(st),
    ensures
        0 <= i < images.len(),
        comes_from(st, images[i]),
    decreases images.len(),
{
    if images.len() == 0 {
        assert(meant(images).len() == 0 && misread(images).len() == 0);
        0
    } else {
        let rest = images.skip(1);
        if meant(rest).contains(st) || misread(rest).contains(st) {
            let i = lemma_spelling_comes(rest, st);
            assert(rest[i] == images[i + 1]);
            i + 1
        } else {
            if meant(images).contains(st) {
                let all = meant(images);
                let n = all.len() - meant(rest).len();
                let j = choose|j: int| 0 <= j < all.len() && all[j] == st;
                if j >= n {
                    assert(meant(rest)[j - n] == st);
                }
            } else {
                let all = misread(images);
                let n = all.len() - misread(rest).len();
                let j = choose|j: int| 0 <= j < all.len() && all[j] == st;
                if j >= n {
                    assert(misread(rest)[j - n] == st);
                }
            }
            assert(comes_from(st, images[0]));
            0
        }
    }
}

/// Every spelling comes from one of the images.
proof fn lemma_spellings_come(images: Seq<Image>)
    ensures
        forall|st: Image| #[trigger]
            meant(images).contains(st) || misread(images).contains(st) ==> exists|i: int|
                0 <= i < images.len() && comes_from(st, #[trigger] images[i]),
    decreases images.len(),
{
    assert forall|st: Image| #[trigger]
        meant(images).contains(st) || misread(images).contains(st) implies exists|i: int|
        0 <= i < images.len() && comes_from(st, #[trigger] images[i]) by {
        let i = lemma_spelling_comes(images, st);
        assert(comes_from(st, images[i]));
    }
}

/// Every image has its source, as it is and as it is escaped, among the spellings.
proof fn lemma_spellings_have(images: Seq<Image>, i: int)
    requires
        0 <= i < images.len(),
    ensures
        meant(images).contains(images[i]) || misread(images).contains(images[i]),
        escaped(images[i].0) != images[i].0 ==> meant(images).contains(
            (escaped(images[i].0), images[i].1),
        ),
    decreases images.len(),
{
    let rest = images.skip(1);
    let (src, data) = images[0];
    let m = meant(images);
    let w = misread(images);
    let a: int = if value_of(src) == src {
        1
    } else {
        0
    };
    let b: int = if escaped(src) != src {
        1
    } else {
        0
    };
    if i == 0 {
        if a == 1 {
            assert(m[0] == images[0]);
        } else {
            assert(w[0] == images[0]);
        }
        if b == 1 {
            assert(m[a] == (escaped(src), data));
        }
    } else {
        lemma_spellings_have(rest, i - 1);
        assert(rest[i - 1] == images[i]);
        if meant(rest).contains(images[i]) {
            let j = choose|j: int| 0 <= j < meant(rest).len() && meant(rest)[j] == images[i];
            assert(m[a + b + j] == images[i]);
        }
        if misread(rest).contains(images[i]) {
            let j = choose|j: int| 0 <= j < misread(rest).len() && misread(rest)[j] == images[i];
            assert(w[1 - a + j] == images[i]);
        }
        let st = (escaped(images[i].0), images[i].1);
        if meant(rest).contains(st) {
            let j = choose|j: int| 0 <= j < meant(rest).len() && meant(rest)[j] == st;
            assert(m[a + b + j] == st);
        }
    }
}

/// Each spelling is one of `meant` or one of `misread`, and the other way round.
proof fn lemma_spellings_contain(images: Seq<Image>, st: Image)
    ensures
        spellings(images).contains(st) <==> meant(images).contains(st) || misread(images).contains(
            st,
        ),
{
    let all = spellings(images);
    let m = meant(images);
    let w = misread(images);
    if all.contains(st) {
        let j = choose|j: int| 0 <= j < all.len() && all[j] == st;
        if j < m.len() {
            assert(m[j] == st);
        } else {
            assert(w[j - m.len()] == st);
        }
    }
    if m.contains(st) {
        let j = choose|j: int| 0 <= j < m.len() && m[j] == st;
        assert(all[j] == st);
    }
    if w.contains(st) {
        let j = choose|j: int| 0 <= j < w.len() && w[j] == st;
        assert(all[m.len() + j] == st);
    }
}

/// Which image the spelling at `j` comes from.
proof fn lemma_spelling_from(images: Seq<Image>, j: int) -> (i: int)
    requires
        0 <= j < spellings(images).len(),
    ensures
        0 <= i < images.len(),
        comes_from(spellings(images)[j], images[i]),
{
    let st = spellings(images)[j];
    lemma_spellings_contain(images, st);
    assert(spellings(images).contains(st));
    lemma_spelling_comes(images, st)
}

/// Replacing a text by itself changes nothing.
proof fn lemma_replaced_by_itself(s: Seq<char>, pat: Seq<char>)
    ensures
        replaced(s, pat, pat) == s,
    decreases s.len(),
{
    if s.len() > 0 && pat.len() > 0 {
        if begins(s, pat) {
            lemma_replaced_by_itself(s.skip(pat.len() as int), pat);
            assert(s =~= s.subrange(0, pat.len() as int) + s.skip(pat.len() as int));
        } else {
            lemma_replaced_by_itself(s.skip(1), pat);
            assert(s =~= seq![s[0]] + s.skip(1));
        }
    }
}

proof fn lemma_nothing_to_put_in(html: Seq<char>, steps: Seq<Image>)
    requires
        forall|i: int|
            0 <= i < steps.len() ==> !spelled(html, (#[trigger] steps[i]).0) || steps[i].0
                == steps[i].1,
    ensures
        put_in(html, steps) == html,
    decreases steps.len(),
{
    if steps.len() > 0 {
        let (src, data) = steps[0];
        let rest = steps.skip(1);
        assert(!spelled(html, steps[0].0) || steps[0].0 == steps[0].1);
        if src == data {
            lemma_replaced_by_itself(html, double_quoted(src));
            lemma_replaced_by_itself(html, single_quoted(src));
        } else {
            law_replacing_nothing(html, double_quoted(src), double_quoted(data));
            law_replacing_nothing(html, single_quoted(src), single_quoted(data));
        }
        assert forall|i: int| 0 <= i < rest.len() implies !spelled(html, (#[trigger] rest[i]).0)
            || rest[i].0 == rest[i].1 by {
            assert(rest[i] == steps[i + 1]);
        }
        lemma_nothing_to_put_in(html, rest);
    }
}

/// A text that names no source of the images is not changed by them.
pub proof fn law_no_source_named(html: Seq<char>, images: Seq<Image>)
    requires
        forall|i: int| 0 <= i < images.len() ==> !names(html, (#[trigger] images[i]).0),
    ensures
        with_images(html, images) == html,
{
    let steps = spellings(images);
    assert forall|j: int| 0 <= j < steps.len() implies !spelled(html, (#[trigger] steps[j]).0)
        || steps[j].0 == steps[j].1 by {
        let i = lemma_spelling_from(images, j);
        assert(!names(html, images[i].0));
    }
    lemma_nothing_to_put_in(html, steps);
}

/// A source or an image without quotes and without `src=`.
pub open spec fn clear(s: Seq<char>) -> bool {
    &&& !s.contains('"')
    &&& !s.contains('\'')
    &&& !contains(s, "src="@)
}

/// The source attribute with the value `s` between the quotes `q`.
pub open spec fn quoted(q: char, s: Seq<char>) -> Seq<char> {
    "src="@ + seq![q] + s + seq![q]
}

proof fn lemma_quoted(s: Seq<char>)
    ensures
        double_quoted(s) == quoted('"', s),
        single_quoted(s) == quoted('\'', s),
{
    reveal_strlit("src=");
    reveal_strlit("src=\"");
    reveal_strlit("\"");
    reveal_strlit("src='");
    reveal_strlit("'");
    assert(double_quoted(s) =~= quoted('"', s));
    assert(single_quoted(s) =~= quoted('\'', s));
}

/// No source attribute starts inside another one whose value holds no `src=`.
proof fn lemma_none_inside(s: Seq<char>, q: char, x: Seq<char>, i: int, p: char, y: Seq<char>, j: int)
    requires
        q == '"' || q == '\'',
        !contains(x, "src="@),
        occurs_at(s, quoted(q, x), i),
        occurs_at(s, quoted(p, y), j),
        i < j,
    ensures
        i + quoted(q, x).len() <= j,
{
    reveal_strlit("src=");
    let a = quoted(q, x);
    let b = quoted(p, y);
    let k = j - i;
    if k < a.len() {
        lemma_occurring(s, a, i, j);
        lemma_occurring(s, b, j, j);
        lemma_occurring(s, b, j, j + 1);
        lemma_occurring(s, b, j, j + 2);
        lemma_occurring(s, b, j, j + 3);
        assert(b[0] == 's' && b[1] == 'r' && b[2] == 'c' && b[3] == '=');
        assert(a[4] == q && a.last() == q);
        if k >= 5 && k < 5 + x.len() {
            if k + 4 <= 5 + x.len() {
                lemma_occurring(s, a, i, j + 1);
                lemma_occurring(s, a, i, j + 2);
                lemma_occurring(s, a, i, j + 3);
                assert(a[k] == x[k - 5]);
                assert(a[k + 1] == x[k - 4]);
                assert(a[k + 2] == x[k - 3]);
                assert(a[k + 3] == x[k - 2]);
                assert(x.subrange(k - 5, k - 1) =~= "src="@);
                assert(occurs_at(x, "src="@, k - 5));
            } else {
                lemma_occurring(s, a, i, i + a.len() - 1);
            }
        }
        assert(false);
    }
}

/// Two source attributes at the same place are the same.
proof fn lemma_same_place(s: Seq<char>, q: char, x: Seq<char>, p: char, y: Seq<char>, i: int)
    requires
        occurs_at(s, quoted(q, x), i),
        occurs_at(s, quoted(p, y), i),
        !x.contains(q),
        !y.contains(p),
    ensures
        q == p,
        x == y,
{
    reveal_strlit("src=");
    let a = quoted(q, x);
    let b = quoted(p, y);
    lemma_occurring(s, a, i, i + 4);
    lemma_occurring(s, b, i, i + 4);
    assert(a[4] == q && b[4] == p);
    let n = if x.len() <= y.len() {
        x.len() as int
    } else {
        y.len() as int
    };
    lemma_occurring(s, a, i, i + 5 + n);
    lemma_occurring(s, b, i, i + 5 + n);
    if x.len() < y.len() {
        assert(a[5 + n] == q && b[5 + n] == y[n]);
        assert(y.contains(y[n]));
    }
    if y.len() < x.len() {
        assert(b[5 + n] == p && a[5 + n] == x[n]);
        assert(x.contains(x[n]));
    }
    assert forall|j: int| 0 <= j < x.len() implies x[j] == y[j] by {
        lemma_occurring(s, a, i, i + 5 + j);
        lemma_occurring(s, b, i, i + 5 + j);
        assert(a[5 + j] == x[j] && b[5 + j] == y[j]);
    }
    assert(x =~= y);
}

/// Replacing one source attribute by another brings in no third one.
proof fn lemma_no_new_name(
    h: Seq<char>,
    q: char,
    x: Seq<char>,
    d: Seq<char>,
    p: char,
    y: Seq<char>,
)
    requires
        q == '"' || q == '\'',
        p == '"' || p == '\'',
        clear(x),
        clear(d),
        clear(y),
        !(q == p && d == y),
        (q == p && x == y) || !contains(h, quoted(p, y)),
    ensures
        !contains(replaced(h, quoted(q, x), quoted(q, d)), quoted(p, y)),
    decreases h.len(),
{
    reveal_strlit("src=");
    let from = quoted(q, x);
    let to = quoted(q, d);
    let pat = quoted(p, y);
    let all = replaced(h, from, to);
    if contains(all, pat) {
        let j = choose|j: int| occurs_at(all, pat, j);
        assert(occurs_at(all, pat, j));
        if h.len() == 0 {
            assert(false);
        } else if begins(h, from) {
            let rest = h.skip(from.len() as int);
            let tail = replaced(rest, from, to);
            lemma_contains_of_tail(h, from.len() as int, pat);
            lemma_no_new_name(rest, q, x, d, p, y);
            assert(all == to + tail);
            assert(all.subrange(0, to.len() as int) =~= to);
            assert(occurs_at(all, to, 0));
            if j == 0 {
                lemma_same_place(all, q, d, p, y, 0);
            } else {
                lemma_none_inside(all, q, d, 0, p, y, j);
                lemma_occurs_in_tail(all, pat, to.len() as int, j - to.len());
                assert(all.skip(to.len() as int) =~= tail);
                assert(occurs_at(tail, pat, j - to.len()));
            }
        } else if j > 0 {
            let rest = h.skip(1);
            lemma_contains_of_tail(h, 1, pat);
            lemma_no_new_name(rest, q, x, d, p, y);
            lemma_occurs_in_tail(all, pat, 1, j - 1);
            assert(all.skip(1) =~= replaced(rest, from, to));
            assert(occurs_at(replaced(rest, from, to), pat, j - 1));
        } else if !contains(h, from) {
            law_replacing_nothing(h, from, to);
            assert(occurs_at(h, pat, 0));
        } else {
            let at = choose|at: int| occurs_at(h, from, at);
            lemma_first_from(h, from, 0);
            assert(occurs_at(h, from, at) && 0 <= at);
            law_replacing_first(h, from, to);
            let i = first(h, from)->0;
            assert(i > 0);
            assert(all.subrange(i, i + to.len()) =~= to);
            assert(occurs_at(all, to, i));
            lemma_none_inside(all, p, y, 0, q, d, i);
            assert(h.subrange(0, pat.len() as int) =~= all.subrange(0, pat.len() as int));
            assert(occurs_at(h, pat, 0));
        }
    }
}

/// What stands in a tail of a text stands in the text.
proof fn lemma_contains_of_tail(s: Seq<char>, n: int, pat: Seq<char>)
    requires
        0 <= n <= s.len(),
    ensures
        contains(s.skip(n), pat) ==> contains(s, pat),
{
    if contains(s.skip(n), pat) {
        let i = choose|i: int| occurs_at(s.skip(n), pat, i);
        lemma_occurs_in_tail(s, pat, n, i);
        assert(occurs_at(s, pat, n + i));
    }
}

/// A source that is not named, in one form, is not named after an image was put in for
/// another one, nor is the source of that image.
proof fn lemma_source_gone(h: Seq<char>, src: Seq<char>, data: Seq<char>, y: Seq<char>)
    requires
        clear(src),
        clear(data),
        clear(y),
        data != y,
        src == y || (!contains(h, double_quoted(y)) && !contains(h, single_quoted(y))),
    ensures
        !contains(with_source(h, src, data), double_quoted(y)),
        !contains(with_source(h, src, data), single_quoted(y)),
{
    lemma_quoted(src);
    lemma_quoted(data);
    lemma_quoted(y);
    let half = replaced(h, quoted('"', src), quoted('"', data));
    lemma_no_new_name(h, '"', src, data, '"', y);
    lemma_no_new_name(half, '\'', src, data, '"', y);
    if src != y {
        lemma_no_new_name(h, '"', src, data, '\'', y);
    }
    lemma_no_new_name(half, '\'', src, data, '\'', y);
}

proof fn lemma_clear_escaped(s: Seq<char>)
    requires
        clear(s),
    ensures
        clear(escaped(s)),
{
    lemma_escaped_fits(s);
    if contains(escaped(s), "src="@) {
        lemma_escaped_source_mark(s);
    }
}

/// Sources and images hold no quote and no `src=`, no image is a source, and none is the escaped
/// form of another one's source.
pub open spec fn clear_images(images: Seq<Image>) -> bool {
    &&& forall|i: int|
        0 <= i < images.len() ==> clear((#[trigger] images[i]).0) && clear(images[i].1)
    &&& forall|i: int, j: int|
        0 <= i < images.len() && 0 <= j < images.len() ==> (#[trigger] images[i]).1 != (
        #[trigger] images[j]).0
    &&& forall|i: int, j: int|
        0 <= i < images.len() && 0 <= j < images.len() && i != j ==> (#[trigger] images[i]).1
            != escaped((#[trigger] images[j]).0)
}

/// A spelling is gone once an image was put in for it, and none comes in by another one.
proof fn lemma_spelling_gone(h: Seq<char>, steps: Seq<Image>, y: Seq<char>)
    requires
        clear(y),
        forall|i: int|
            0 <= i < steps.len() ==> clear((#[trigger] steps[i]).0) && clear(steps[i].1)
                && steps[i].1 != y,
        !spelled(h, y) || exists|i: int| 0 <= i < steps.len() && (#[trigger] steps[i]).0 == y,
    ensures
        !spelled(put_in(h, steps), y),
    decreases steps.len(),
{
    if steps.len() > 0 {
        let (src, data) = steps[0];
        let rest = steps.skip(1);
        let next = with_source(h, src, data);
        assert(clear(steps[0].0) && clear(steps[0].1) && steps[0].1 != y);
        if src == y || !spelled(h, y) {
            lemma_source_gone(h, src, data, y);
        } else {
            let i = choose|i: int| 0 <= i < steps.len() && (#[trigger] steps[i]).0 == y;
            assert(rest[i - 1].0 == y);
        }
        assert forall|i: int| 0 <= i < rest.len() implies clear((#[trigger] rest[i]).0) && clear(
            rest[i].1,
        ) && rest[i].1 != y by {
            assert(rest[i] == steps[i + 1]);
        }
        lemma_spelling_gone(next, rest, y);
    }
}

#[verifier::spinoff_prover]
proof fn lemma_spellings_clear(images: Seq<Image>, j: int)
    requires
        clear_images(images),
        0 <= j < spellings(images).len(),
    ensures
        exists|i: int| 0 <= i < images.len() && comes_from(spellings(images)[j], #[trigger] images[i]),
        clear(spellings(images)[j].0),
        clear(spellings(images)[j].1),
{
    let st = spellings(images)[j];
    lemma_spellings_come(images);
    lemma_spellings_contain(images, st);
    assert(spellings(images).contains(st));
    assert(meant(images).contains(st) || misread(images).contains(st));
    let i = choose|i: int| 0 <= i < images.len() && comes_from(st, #[trigger] images[i]);
    assert(clear(images[i].0) && clear(images[i].1));
    lemma_clear_escaped(images[i].0);
}

/// A spelling that is not its own image is gone after all images were put in.
proof fn lemma_spellings_gone(html: Seq<char>, images: Seq<Image>, k: int)
    requires
        clear_images(images),
        0 <= k < spellings(images).len(),
        spellings(images)[k].0 != spellings(images)[k].1,
    ensures
        !spelled(with_images(html, images), spellings(images)[k].0),
{
    let steps = spellings(images);
    let y = steps[k].0;
    lemma_spellings_clear(images, k);
    let b = choose|b: int| 0 <= b < images.len() && comes_from(steps[k], #[trigger] images[b]);
    assert forall|j: int| 0 <= j < steps.len() implies clear((#[trigger] steps[j]).0) && clear(
        steps[j].1,
    ) && steps[j].1 != y by {
        lemma_spellings_clear(images, j);
        let a = choose|a: int| 0 <= a < images.len() && comes_from(steps[j], #[trigger] images[a]);
        assert(images[a].1 != images[b].0);
        if a != b {
            assert(images[a].1 != escaped(images[b].0));
        }
    }
    lemma_spelling_gone(html, steps, y);
}

/// After all images were put in, no source of them is left as it is, nor as it is escaped,
/// unless the image is that escaped form; and putting them in again changes nothing.
pub proof fn law_images_put_in_once(html: Seq<char>, images: Seq<Image>)
    requires
        clear_images(images),
    ensures
        forall|i: int|
            0 <= i < images.len() ==> !spelled(with_images(html, images), (#[trigger] images[i]).0),
        forall|i: int|
            0 <= i < images.len() && images[i].1 != escaped(images[i].0) ==> !names(
                with_images(html, images),
                (#[trigger] images[i]).0,
            ),
        with_images(with_images(html, images), images) == with_images(html, images),
{
    let after = with_images(html, images);
    let steps = spellings(images);
    assert forall|k: int| 0 <= k < steps.len() implies !spelled(after, (#[trigger] steps[k]).0)
        || steps[k].0 == steps[k].1 by {
        if steps[k].0 != steps[k].1 {
            lemma_spellings_gone(html, images, k);
        }
    }
    assert forall|i: int| 0 <= i < images.len() implies !spelled(after, (#[trigger] images[i]).0)
        && (images[i].1 != escaped(images[i].0) ==> !names(after, images[i].0)) by {
        lemma_spellings_have(images, i);
        lemma_spellings_contain(images, images[i]);
        let k = choose|k: int| 0 <= k < steps.len() && steps[k] == images[i];
        assert(images[i].1 != images[i].0);
        assert(!spelled(after, steps[k].0));
        if escaped(images[i].0) != images[i].0 && images[i].1 != escaped(images[i].0) {
            let st = (escaped(images[i].0), images[i].1);
            lemma_spellings_contain(images, st);
            let n = choose|n: int| 0 <= n < steps.len() && steps[n] == st;
            assert(!spelled(after, steps[n].0));
        }
    }
    lemma_nothing_to_put_in(after, steps);
}

/// A source attribute stays where another one is replaced.
proof fn lemma_quoted_stays(
    h: Seq<char>,
    q: char,
    x: Seq<char>,
    d: Seq<char>,
    p: char,
    y: Seq<char>,
)
    requires
        q == '"' || q == '\'',
        p == '"' || p == '\'',
        clear(x),
        clear(y),
        !(q == p && x == y),
        contains(h, quoted(p, y)),
    ensures
        contains(replaced(h, quoted(q, x), quoted(q, d)), quoted(p, y)),
{
    reveal_strlit("src=");
    let k = choose|k: int| occurs_at(h, quoted(p, y), k);
    let from = quoted(q, x);
    let pat = quoted(p, y);
    assert forall|j: int| #[trigger] occurs_at(h, from, j) implies j + from.len() <= k || k
        + pat.len() <= j by {
        if j == k {
            lemma_same_place(h, q, x, p, y, j);
        } else if j < k {
            lemma_none_inside(h, q, x, j, p, y, k);
        } else {
            lemma_none_inside(h, p, y, k, q, x, j);
        }
    }
    law_replacing_elsewhere(h, from, quoted(q, d), pat, k);
}

/// `data` stands in the text where `src` stood, in the quotes that `src` stood in; and an image
/// that stands there already stays.
proof fn lemma_source_put_in(h: Seq<char>, src: Seq<char>, data: Seq<char>, q: char)
    requires
        q == '"' || q == '\'',
        clear(src),
        clear(data),
        src != data,
        contains(h, quoted(q, src)) || contains(h, quoted(q, data)),
    ensures
        contains(with_source(h, src, data), quoted(q, data)),
{
    reveal_strlit("src=");
    lemma_quoted(src);
    lemma_quoted(data);
    let half = replaced(h, quoted('"', src), quoted('"', data));
    if q == '"' {
        if contains(h, quoted(q, src)) {
            lemma_replaced_is_there(h, quoted(q, src), quoted(q, data));
        } else {
            lemma_quoted_stays(h, '"', src, data, q, data);
        }
        lemma_quoted_stays(half, '\'', src, data, q, data);
    } else {
        if contains(h, quoted(q, src)) {
            lemma_quoted_stays(h, '"', src, data, q, src);
            lemma_replaced_is_there(half, quoted(q, src), quoted(q, data));
        } else {
            lemma_quoted_stays(h, '"', src, data, q, data);
            lemma_quoted_stays(half, '\'', src, data, q, data);
        }
    }
}

/// An image stands where one of its spellings stood, in the same quotes.
proof fn lemma_steps_put_in(h: Seq<char>, steps: Seq<Image>, data: Seq<char>, q: char)
    requires
        q == '"' || q == '\'',
        clear(data),
        forall|i: int|
            0 <= i < steps.len() ==> clear((#[trigger] steps[i]).0) && steps[i].0 != data
                && steps[i].1 == data,
        contains(h, quoted(q, data)) || exists|i: int|
            0 <= i < steps.len() && contains(h, quoted(q, (#[trigger] steps[i]).0)),
    ensures
        contains(put_in(h, steps), quoted(q, data)),
    decreases steps.len(),
{
    if steps.len() > 0 {
        let (src, _) = steps[0];
        let rest = steps.skip(1);
        let next = with_source(h, src, data);
        assert(clear(steps[0].0) && steps[0].0 != data && steps[0].1 == data);
        if contains(h, quoted(q, data)) || contains(h, quoted(q, src)) {
            lemma_source_put_in(h, src, data, q);
        } else {
            let i = choose|i: int|
                0 <= i < steps.len() && contains(h, quoted(q, (#[trigger] steps[i]).0));
            let x = steps[i].0;
            let half = replaced(h, quoted('"', src), quoted('"', data));
            lemma_quoted(src);
            lemma_quoted(data);
            lemma_quoted_stays(h, '"', src, data, q, x);
            lemma_quoted_stays(half, '\'', src, data, q, x);
            assert(rest[i - 1].0 == x);
        }
        assert forall|i: int| 0 <= i < rest.len() implies clear((#[trigger] rest[i]).0) && rest[i].0
            != data && rest[i].1 == data by {
            assert(rest[i] == steps[i + 1]);
        }
        lemma_steps_put_in(next, rest, data, q);
    }
}

/// An image that came stands where a source attribute names it, as it is or as it is escaped, in
/// double quotes or in single ones, if source and image hold no quote and no `src=`.
pub proof fn law_written_image_put_in(html: Seq<char>, src: Seq<char>, data: Seq<char>)
    requires
        clear(src),
        clear(data),
        data != src,
        data != escaped(src),
    ensures
        contains(html, double_quoted(src)) || contains(html, double_quoted(escaped(src)))
            ==> contains(with_images(html, seq![(src, data)]), double_quoted(data)),
        contains(html, single_quoted(src)) || contains(html, single_quoted(escaped(src)))
            ==> contains(with_images(html, seq![(src, data)]), single_quoted(data)),
{
    lemma_quoted(src);
    lemma_quoted(escaped(src));
    lemma_quoted(data);
    lemma_written_put_in(html, src, data, '"');
    lemma_written_put_in(html, src, data, '\'');
}

proof fn lemma_written_put_in(html: Seq<char>, src: Seq<char>, data: Seq<char>, q: char)
    requires
        q == '"' || q == '\'',
        clear(src),
        clear(data),
        data != src,
        data != escaped(src),
    ensures
        contains(html, quoted(q, src)) || contains(html, quoted(q, escaped(src))) ==> contains(
            with_images(html, seq![(src, data)]),
            quoted(q, data),
        ),
{
    let one = seq![(src, data)];
    let steps = spellings(one);
    let w = escaped(src);
    lemma_clear_escaped(src);
    lemma_spellings_have(one, 0);
    assert forall|j: int| 0 <= j < steps.len() implies clear((#[trigger] steps[j]).0) && steps[j].0
        != data && steps[j].1 == data by {
        let i = lemma_spelling_from(one, j);
        assert(i == 0 && one[i] == (src, data));
        assert(comes_from(steps[j], (src, data)));
    }
    assert(one[0] == (src, data));
    lemma_spellings_contain(one, (src, data));
    let k = choose|k: int| 0 <= k < steps.len() && steps[k] == (src, data);
    assert(steps[k].0 == src);
    if w != src {
        lemma_spellings_contain(one, (w, data));
        let n = choose|n: int| 0 <= n < steps.len() && steps[n] == (w, data);
        assert(steps[n].0 == w);
    }
    if contains(html, quoted(q, src)) || contains(html, quoted(q, w)) {
        lemma_steps_put_in(html, steps, data, q);
    }
}

/// The Base64 text has four characters for every three bytes, and for what is left of them.
pub proof fn law_base64_length(bytes: Seq<u8>)
    ensures
        base64(bytes).len() == (bytes.len() + 2) / 3 * 4,
{
    lemma_base64_length(bytes);
}

/// The kind of an image is the first of PNG, GIF, WebP and SVG that its content type speaks of,
/// wherever it does so, and JPEG where it speaks of none, or cannot be read, or is not there.
pub proof fn law_image_kind(content_type: Seq<char>)
    ensures
        contains(content_type, "png"@) ==> image_kind(content_type) == "image/png"@,
        !contains(content_type, "png"@) && contains(content_type, "gif"@) ==> image_kind(
            content_type,
        ) == "image/gif"@,
        !contains(content_type, "png"@) && !contains(content_type, "gif"@) && contains(
            content_type,
            "webp"@,
        ) ==> image_kind(content_type) == "image/webp"@,
        !contains(content_type, "png"@) && !contains(content_type, "gif"@) && !contains(
            content_type,
            "webp"@,
        ) && contains(content_type, "svg"@) ==> image_kind(content_type) == "image/svg+xml"@,
        !contains(content_type, "png"@) && !contains(content_type, "gif"@) && !contains(
            content_type,
            "webp"@,
        ) && !contains(content_type, "svg"@) ==> image_kind(content_type) == "image/jpeg"@,
{
}

/// The kind of an image is that of its content type, where that can be read, else JPEG.
pub proof fn law_header_kind(raw: Seq<u8>)
    ensures
        header_value(raw) matches Some(text) ==> header_kind(Some(raw)) == image_kind(text),
        header_value(raw) is None ==> header_kind(Some(raw)) == "image/jpeg"@,
        header_kind(None) == "image/jpeg"@,
{
}

/// A content type that holds the name of a kind of image speaks of it, whatever stands around the
/// name.
pub proof fn law_kind_spoken_of(before: Seq<char>, name: Seq<char>, behind: Seq<char>)
    ensures
        contains(before + name + behind, name),
{
    law_occurs(before, name, before.len() as int, behind);
    assert(before.take(before.len() as int) =~= before);
    assert(occurs_at(before + name + behind, name, before.len() as int));
}

/// A text whose image elements cannot be picked has no images.
pub proof fn law_no_images_picked(html: Seq<char>, base: Seq<char>)
    requires
        fragment_selection(html, "img"@, Some("src"@)) is None,
    ensures
        image_requests(html, base).len() == 0,
{
}

/// The images that are asked for are those of all image elements of the text that have a source:
/// each source once, with the address that it means on the site, and no other image.
pub proof fn law_images_asked_for(html: Seq<char>, base: Seq<char>, tags: Seq<TagView>)
    requires
        fragment_selection(html, "img"@, Some("src"@)) == Some(tags),
    ensures
        image_requests(html, base).no_duplicates(),
        forall|src: Seq<char>, url: Seq<char>| #[trigger]
            image_requests(html, base).contains((src, url)) <==> url == absolute(src, base) && exists|
                i: int,
            | 0 <= i < tags.len() && (#[trigger] tags[i]).value == Some(src),
{
    let srcs = image_sources(html);
    let all = image_requests(html, base);
    law_distinct_values(tags);
    assert forall|i: int, j: int| 0 <= i < all.len() && 0 <= j < all.len() && i != j implies all[i]
        != all[j] by {
        assert(srcs[i] != srcs[j]);
        assert(all[i].0 == srcs[i] && all[j].0 == srcs[j]);
    }
    assert forall|src: Seq<char>, url: Seq<char>| #[trigger] all.contains((src, url)) <==> url
        == absolute(src, base) && exists|i: int|
        0 <= i < tags.len() && (#[trigger] tags[i]).value == Some(src) by {
        assert(srcs.contains(src) <==> exists|i: int|
            0 <= i < tags.len() && (#[trigger] tags[i]).value == Some(src));
        if all.contains((src, url)) {
            let k = choose|k: int| 0 <= k < all.len() && all[k] == (src, url);
            assert(srcs[k] == src);
        }
        if srcs.contains(src) && url == absolute(src, base) {
            let k = choose|k: int| 0 <= k < srcs.len() && srcs[k] == src;
            assert(all[k] == (src, url));
        }
    }
}

proof fn lemma_put_contains(images: Seq<Image>, src: Seq<char>, data: Seq<char>, m: Image)
    requires
        distinct_sources(images),
    ensures
        put(images, src, data).contains(m) <==> if m.0 == src {
            m.1 == data
        } else {
            images.contains(m)
        },
{
    let all = put(images, src, data);
    if all.contains(m) {
        let k = choose|k: int| 0 <= k < all.len() && all[k] == m;
        if k < images.len() && m.0 != src {
            assert(images[k] == m);
        }
        if has_source(images, src) {
            assert(images[k].0 == all[k].0);
        } else if k < images.len() {
            assert(images[k] == m);
            assert(images[k].0 != src);
        }
    }
    if m == (src, data) {
        if has_source(images, src) {
            let k = choose|k: int| 0 <= k < images.len() && (#[trigger] images[k]).0 == src;
            assert(all[k] == m);
        } else {
            assert(all[images.len() as int] == m);
        }
    }
    if images.contains(m) && m.0 != src {
        let k = choose|k: int| 0 <= k < images.len() && images[k] == m;
        assert(all[k] == m);
    }
}

/// `m` is a result, and no later one is for the same source.
pub open spec fn last_result(results: Seq<Option<Image>>, m: Image) -> bool {
    exists|i: int|
        0 <= i < results.len() && #[trigger] results[i] == Some(m) && forall|j: int|
            i < j < results.len() && (#[trigger] results[j]) is Some ==> (results[j]->0).0 != m.0
}

/// `src` is the source of one of `results`.
pub open spec fn has_result(results: Seq<Option<Image>>, src: Seq<char>) -> bool {
    exists|i: int|
        0 <= i < results.len() && (#[trigger] results[i]) is Some && (results[i]->0).0 == src
}

proof fn lemma_put_all_contains(images: Seq<Image>, results: Seq<Option<Image>>, m: Image)
    requires
        distinct_sources(images),
    ensures
        put_all(images, results).contains(m) <==> last_result(results, m) || (images.contains(m)
            && !has_result(results, m.0)),
    decreases results.len(),
{
    if results.len() > 0 {
        let rest = results.skip(1);
        let next = match results[0] {
            Some(n) => put(images, n.0, n.1),
            None => images,
        };
        if let Some(n) = results[0] {
            lemma_put_distinct(images, n.0, n.1);
            lemma_put_contains(images, n.0, n.1, m);
        }
        lemma_put_all_contains(next, rest, m);
        if has_result(rest, m.0) {
            let i = choose|i: int|
                0 <= i < rest.len() && (#[trigger] rest[i]) is Some && (rest[i]->0).0 == m.0;
            assert(results[i + 1] == rest[i]);
        }
        if has_result(results, m.0) {
            let i = choose|i: int|
                0 <= i < results.len() && (#[trigger] results[i]) is Some && (results[i]->0).0 == m.0;
            if i > 0 {
                assert(rest[i - 1] == results[i]);
            }
        }
        if last_result(rest, m) {
            let i = choose|i: int|
                0 <= i < rest.len() && #[trigger] rest[i] == Some(m) && forall|j: int|
                    i < j < rest.len() && (#[trigger] rest[j]) is Some ==> (rest[j]->0).0 != m.0;
            assert(results[i + 1] == Some(m));
            assert forall|j: int|
                i + 1 < j < results.len() && (#[trigger] results[j]) is Some implies (results[j]->0).0
                != m.0 by {
                assert(rest[j - 1] == results[j]);
            }
        }
        if last_result(results, m) {
            let i = choose|i: int|
                0 <= i < results.len() && #[trigger] results[i] == Some(m) && forall|j: int|
                    i < j < results.len() && (#[trigger] results[j]) is Some ==> (results[j]->0).0
                        != m.0;
            if i > 0 {
                assert(rest[i - 1] == Some(m));
                assert forall|j: int|
                    i - 1 < j < rest.len() && (#[trigger] rest[j]) is Some implies (rest[j]->0).0
                    != m.0 by {
                    assert(results[j + 1] == rest[j]);
                }
                assert(last_result(rest, m));
            } else if has_result(rest, m.0) {
                let j = choose|j: int|
                    0 <= j < rest.len() && (#[trigger] rest[j]) is Some && (rest[j]->0).0 == m.0;
                assert(results[j + 1] == rest[j]);
            }
        }
        if results[0] == Some(m) && !has_result(rest, m.0) {
            assert forall|j: int| 0 < j < results.len() && (#[trigger] results[j]) is Some implies
                (results[j]->0).0 != m.0 by {
                assert(rest[j - 1] == results[j]);
            }
            assert(last_result(results, m));
        }
        if results[0] is Some && (results[0]->0).0 == m.0 {
            assert(has_result(results, m.0));
        }
    }
}

/// The images that came are all there, and nothing else: for each source that something came of,
/// what came last.
pub proof fn law_collected(results: Seq<Option<Image>>, src: Seq<char>, data: Seq<char>)
    ensures
        put_all(Seq::empty(), results).contains((src, data)) <==> exists|i: int|
            0 <= i < results.len() && #[trigger] results[i] == Some((src, data)) && forall|j: int|
                i < j < results.len() && (#[trigger] results[j]) is Some ==> (results[j]->0).0 != src,
{
    lemma_put_all_contains(Seq::empty(), results, (src, data));
    assert(last_result(results, (src, data)) <==> exists|i: int|
        0 <= i < results.len() && #[trigger] results[i] == Some((src, data)) && forall|j: int|
            i < j < results.len() && (#[trigger] results[j]) is Some ==> (results[j]->0).0 != src);
}

/// `s` can stand between the quotes `q` in a source attribute, and holds no `src=`.
pub open spec fn clear_between(s: Seq<char>, q: char) -> bool {
    !s.contains(q) && !contains(s, "src="@)
}

/// A source attribute in a text is replaced, or not, and so is what stands before it and behind
/// it.
proof fn lemma_source_apart(
    a: Seq<char>,
    p: char,
    v: Seq<char>,
    b: Seq<char>,
    src: Seq<char>,
    data: Seq<char>,
)
    requires
        p == '"' || p == '\'',
        clear_between(v, p),
        clear_between(src, p),
        clear_between(data, p),
    ensures
        with_source(a + quoted(p, v) + b, src, data) == with_source(a, src, data) + quoted(
            p,
            if v == src {
                data
            } else {
                v
            },
        ) + with_source(b, src, data),
{
    lemma_quoted(src);
    lemma_quoted(data);
    let v1 = if p == '"' && v == src {
        data
    } else {
        v
    };
    lemma_quoted_apart(a, p, v, b, '"', src, data);
    let a1 = replaced(a, quoted('"', src), quoted('"', data));
    let b1 = replaced(b, quoted('"', src), quoted('"', data));
    lemma_quoted_apart(a1, p, v1, b1, '\'', src, data);
}

proof fn lemma_quoted_apart(
    a: Seq<char>,
    p: char,
    v: Seq<char>,
    b: Seq<char>,
    q: char,
    src: Seq<char>,
    data: Seq<char>,
)
    requires
        p == '"' || p == '\'',
        q == '"' || q == '\'',
        clear_between(v, p),
        clear_between(src, p),
    ensures
        replaced(a + quoted(p, v) + b, quoted(q, src), quoted(q, data)) == replaced(
            a,
            quoted(q, src),
            quoted(q, data),
        ) + quoted(
            p,
            if p == q && v == src {
                data
            } else {
                v
            },
        ) + replaced(b, quoted(q, src), quoted(q, data)),
{
    reveal_strlit("src=");
    let x = quoted(p, v);
    let from = quoted(q, src);
    let s = a + x + b;
    let n = a.len() as int;
    assert(s.subrange(n, n + x.len()) =~= x);
    assert(occurs_at(s, x, n));
    assert(x[4] == p && from[4] == q);
    assert forall|j: int| #[trigger] occurs_at(s, from, j) implies j + from.len() <= n || n + x.len()
        <= j || (j == n && x == from) by {
        if j == n {
            lemma_occurring(s, x, n, n + 4);
            lemma_occurring(s, from, n, n + 4);
            lemma_same_place(s, q, src, p, v, n);
        } else if j < n {
            lemma_none_inside(s, q, src, j, p, v, n);
        } else {
            lemma_none_inside(s, p, v, n, q, src, j);
        }
    }
    if x == from {
        assert(x.subrange(0, x.len() as int) =~= x);
        assert(occurs_at(x, x, 0));
        lemma_same_place(x, p, v, q, src, 0);
    }
    law_replacing_apart(a, x, b, from, quoted(q, data));
}

/// What a source attribute with the value `v` holds after the images of `steps`, in order, were
/// put in.
spec fn value_after(v: Seq<char>, steps: Seq<Image>) -> Seq<char>
    decreases steps.len(),
{
    if steps.len() == 0 {
        v
    } else {
        value_after(
            if v == steps[0].0 {
                steps[0].1
            } else {
                v
            },
            steps.skip(1),
        )
    }
}

proof fn lemma_steps_apart(a: Seq<char>, p: char, v: Seq<char>, b: Seq<char>, steps: Seq<Image>)
    requires
        p == '"' || p == '\'',
        clear_between(v, p),
        forall|i: int|
            0 <= i < steps.len() ==> clear_between((#[trigger] steps[i]).0, p) && clear_between(
                steps[i].1,
                p,
            ),
    ensures
        put_in(a + quoted(p, v) + b, steps) == put_in(a, steps) + quoted(p, value_after(v, steps))
            + put_in(b, steps),
    decreases steps.len(),
{
    if steps.len() > 0 {
        let (src, data) = steps[0];
        let rest = steps.skip(1);
        assert(clear_between(steps[0].0, p) && clear_between(steps[0].1, p));
        lemma_source_apart(a, p, v, b, src, data);
        assert forall|i: int| 0 <= i < rest.len() implies clear_between((#[trigger] rest[i]).0, p)
            && clear_between(rest[i].1, p) by {
            assert(rest[i] == steps[i + 1]);
        }
        let next = if v == src {
            data
        } else {
            v
        };
        lemma_steps_apart(
            with_source(a, src, data),
            p,
            next,
            with_source(b, src, data),
            rest,
        );
    }
}

proof fn lemma_value_after(v: Seq<char>, steps: Seq<Image>, d: Seq<char>)
    requires
        v == d || exists|i: int| 0 <= i < steps.len() && (#[trigger] steps[i]).0 == v,
        forall|i: int|
            0 <= i < steps.len() && ((#[trigger] steps[i]).0 == v || steps[i].0 == d) ==> steps[i].1
                == d,
    ensures
        value_after(v, steps) == d,
    decreases steps.len(),
{
    if steps.len() > 0 {
        let rest = steps.skip(1);
        let next = if v == steps[0].0 {
            steps[0].1
        } else {
            v
        };
        assert(steps[0].0 == v || steps[0].0 == d ==> steps[0].1 == d);
        assert forall|i: int|
            0 <= i < rest.len() && ((#[trigger] rest[i]).0 == next || rest[i].0 == d) implies rest[i].1
            == d by {
            assert(rest[i] == steps[i + 1]);
        }
        if next != d {
            let i = choose|i: int| 0 <= i < steps.len() && (#[trigger] steps[i]).0 == v;
            assert(i > 0);
            assert(rest[i - 1].0 == v);
        }
        lemma_value_after(next, rest, d);
    }
}

proof fn lemma_clear_between_escaped(s: Seq<char>, q: char)
    requires
        q == '"' || q == '\'',
        clear_between(s, q),
    ensures
        clear_between(escaped(s), q),
{
    lemma_escaped_fits(s);
    if contains(escaped(s), "src="@) {
        lemma_escaped_source_mark(s);
    }
}

/// No two of `images` have a spelling of their sources in common.
pub open spec fn spelled_apart(images: Seq<Image>) -> bool {
    forall|i: int, j: int|
        0 <= i < images.len() && 0 <= j < images.len() && i != j ==> (#[trigger] images[i]).0 != (
        #[trigger] images[j]).0 && images[i].0 != escaped(images[j].0) && escaped(images[i].0)
            != escaped(images[j].0)
}

/// Each source attribute that names a source, as it is or as it is escaped, in whichever quotes,
/// has the image of that source in its place; what stands before it and behind it is as if it
/// stood alone. The sources and the images can stand between those quotes and hold no `src=`, and
/// no image is a source, or the escaped form of another one's.
pub proof fn law_image_in_place(
    before: Seq<char>,
    behind: Seq<char>,
    images: Seq<Image>,
    k: int,
    value: Seq<char>,
    quote: char,
)
    requires
        quote == '"' || quote == '\'',
        forall|i: int|
            0 <= i < images.len() ==> clear_between((#[trigger] images[i]).0, quote)
                && clear_between(images[i].1, quote),
        forall|i: int, j: int|
            0 <= i < images.len() && 0 <= j < images.len() ==> (#[trigger] images[i]).1 != (
            #[trigger] images[j]).0 && (i != j ==> images[i].1 != escaped(images[j].0)),
        spelled_apart(images),
        0 <= k < images.len(),
        value == images[k].0 || value == escaped(images[k].0),
    ensures
        with_images(before + "src="@ + seq![quote] + value + seq![quote] + behind, images)
            == with_images(before, images) + "src="@ + seq![quote] + images[k].1 + seq![quote]
            + with_images(behind, images),
{
    let steps = spellings(images);
    let d = images[k].1;
    assert(clear_between(images[k].0, quote) && clear_between(d, quote));
    lemma_clear_between_escaped(images[k].0, quote);
    assert forall|i: int| 0 <= i < steps.len() implies clear_between((#[trigger] steps[i]).0, quote)
        && clear_between(steps[i].1, quote) by {
        let n = lemma_spelling_from(images, i);
        assert(clear_between(images[n].0, quote) && clear_between(images[n].1, quote));
        lemma_clear_between_escaped(images[n].0, quote);
    }
    lemma_steps_apart(before, quote, value, behind, steps);
    assert forall|i: int|
        0 <= i < steps.len() && ((#[trigger] steps[i]).0 == value || steps[i].0
            == d) implies steps[i].1 == d by {
        let n = lemma_spelling_from(images, i);
        if n != k {
            assert(images[n].0 != images[k].0);
            assert(images[k].0 != images[n].0);
            assert(images[k].1 != images[n].0);
            assert(images[k].1 != escaped(images[n].0));
        }
    }
    lemma_spellings_have(images, k);
    let st = (value, d);
    if value == images[k].0 {
        assert(st == images[k]);
    }
    lemma_spellings_contain(images, st);
    assert(steps.contains(st));
    let m = choose|m: int| 0 <= m < steps.len() && steps[m] == st;
    assert(steps[m].0 == value);
    lemma_value_after(value, steps, d);
    assert(before + "src="@ + seq![quote] + value + seq![quote] + behind =~= before + quoted(
        quote,
        value,
    ) + behind);
    assert(with_images(before, images) + "src="@ + seq![quote] + d + seq![quote] + with_images(
        behind,
        images,
    ) =~= with_images(before, images) + quoted(quote, d) + with_images(behind, images));
}

} // verus!
