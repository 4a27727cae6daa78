//! Parsed HTML: the elements that a selector picks, as plain values.

use vstd::prelude::*;
use vstd::utf8::encode_utf8;

verus! {

/// The longest buffer, in bytes, that the parser can have: its buffers count in 32 bits and
/// grow by powers of two.
pub const MAX_BUFFER_BYTES: usize = 0x8000_0000;

/// How often `c` stands in `s`.
pub open spec fn count(s: Seq<char>, c: char) -> nat
    decreases s.len(),
{
    if s.len() == 0 {
        0
    } else {
        count(s.drop_last(), c) + if s.last() == c {
            1nat
        } else {
            0
        }
    }
}

/// How many bytes the parser can come to hold of `html`: a null character becomes three bytes
/// long, and a reference stands for one byte more than it is long at the most.
pub open spec fn parser_bytes(html: Seq<char>) -> nat {
    encode_utf8(html).len() + 2 * count(html, '\0') + count(html, '&')
}

/// The parser's buffers are large enough for `html`.
pub open spec fn parseable(html: Seq<char>) -> bool {
    parser_bytes(html) <= MAX_BUFFER_BYTES
}

/// The beginning of a text holds no more than the text.
proof fn lemma_count_take(s: Seq<char>, c: char, i: int)
    requires
        0 <= i <= s.len(),
    ensures
        count(s.take(i), c) <= count(s, c),
    decreases s.len(),
{
    if i < s.len() {
        lemma_count_take(s.drop_last(), c, i);
        assert(s.drop_last().take(i) =~= s.take(i));
    } else {
        assert(s.take(i) =~= s);
    }
}

/// Whether the parser's buffers are large enough for `html`.
pub fn is_parseable(html: &str) -> (r: bool)
    ensures
        r == parseable(html@),
{
    let length: usize = html.as_bytes().len();
    if length > MAX_BUFFER_BYTES {
        return false;
    }
    let mut nulls: u64 = 0;
    let mut references: u64 = 0;
    for c in it: html.chars()
        invariant
            it.seq() == html@,
            nulls == count(html@.take(it.index() as int), '\0'),
            references == count(html@.take(it.index() as int), '&'),
            nulls <= MAX_BUFFER_BYTES,
            references <= MAX_BUFFER_BYTES,
    {
        proof {
            let i = it.index() as int;
            assert(html@.take(i + 1).drop_last() =~= html@.take(i));
            assert(html@.take(i + 1).last() == c);
            lemma_count_take(html@, '\0', i + 1);
            lemma_count_take(html@, '&', i + 1);
        }
        if c == '\0' {
            if nulls == MAX_BUFFER_BYTES as u64 {
                return false;
            }
            nulls += 1;
        }
        if c == '&' {
            if references == MAX_BUFFER_BYTES as u64 {
                return false;
            }
            references += 1;
        }
    }
    assert(html@.take(html@.len() as int) =~= html@);
    length as u64 + 2 * nulls + references <= MAX_BUFFER_BYTES as u64
}

/// The opening tag of an element.
pub struct Tag {
    /// The element's name.
    pub name: String,
    /// Its attributes, by local name, in the parser's order.
    pub attrs: Vec<(String, String)>,
    /// The value of the attribute that was asked for.
    pub value: Option<String>,
}

/// What a [`Tag`] holds.
pub struct TagView {
    pub name: Seq<char>,
    pub attrs: Seq<(Seq<char>, Seq<char>)>,
    pub value: Option<Seq<char>>,
}

impl DeepView for Tag {
    type V = TagView;

    open spec fn deep_view(&self) -> TagView {
        TagView {
            name: self.name@,
            attrs: self.attrs.deep_view(),
            value: self.value.deep_view(),
        }
    }
}

/// The content of an element.
pub struct Node {
    /// The value of the attribute that was asked for.
    pub value: Option<String>,
    /// The pieces of text in the element and in the elements inside it.
    pub texts: Vec<String>,
    /// The HTML between the element's tags.
    pub inner_html: String,
}

/// What a [`Node`] holds.
pub struct NodeView {
    pub value: Option<Seq<char>>,
    pub texts: Seq<Seq<char>>,
    pub inner_html: Seq<char>,
}

impl DeepView for Node {
    type V = NodeView;

    open spec fn deep_view(&self) -> NodeView {
        NodeView {
            value: self.value.deep_view(),
            texts: self.texts.deep_view(),
            inner_html: self.inner_html@,
        }
    }
}

/// The elements of an HTML fragment that a selector picks, each with the value of the
/// attribute asked for; none where the selector is no selector.
pub uninterp spec fn fragment_selection(
    html: Seq<char>,
    selector: Seq<char>,
    attr: Option<Seq<char>>,
) -> Option<Seq<TagView>>;

/// The elements of an HTML document that a selector picks, each with the value of the
/// attribute asked for; none where the selector is no selector.
pub uninterp spec fn document_selection(
    html: Seq<char>,
    selector: Seq<char>,
    attr: Option<Seq<char>>,
) -> Option<Seq<NodeView>>;

/// `scraper::Html::parse_fragment`, then, for each selector, `Selector::parse` and
/// `Html::select`: the picked elements, each by `Element::name`, `Element::attrs` and
/// `Element::attr`. What comes out depends on nothing but the fragment, the selector and
/// the attribute's name, and one selector's elements not on the other selectors.
#[verifier::external_body]
pub(crate) fn select_in_fragment(
    html: &str,
    selectors: &Vec<&'static str>,
    attr: Option<&str>,
) -> (r: Vec<Option<Vec<Tag>>>)
    requires
        parseable(html@),
    ensures
        r.deep_view() == selectors.deep_view().map_values(
            |s: Seq<char>| fragment_selection(html@, s, attr.deep_view()),
        ),
{
    let doc = scraper::Html::parse_fragment(html);
    let tag = |el: scraper::ElementRef| Tag {
        name: el.value().name().to_string(),
        attrs: el.value().attrs().map(|(k, v)| (k.to_string(), v.to_string())).collect(),
        value: attr.and_then(|a| el.value().attr(a)).map(|v| v.to_string()),
    };
    let pick = |s: &&str| scraper::Selector::parse(s).ok().map(|sel| doc.select(&sel).map(tag).collect());
    selectors.iter().map(pick).collect()
}

/// `scraper::Html::parse_document`, then, for each selector, `Selector::parse` and
/// `Html::select`: the picked elements, each by `Element::attr`, `ElementRef::text` and
/// `ElementRef::inner_html`. What comes out depends on nothing but the document, the
/// selector and the attribute's name, and one selector's elements not on the other
/// selectors.
#[verifier::external_body]
pub(crate) fn select_in_document(
    html: &str,
    selectors: &Vec<&'static str>,
    attr: Option<&str>,
) -> (r: Vec<Option<Vec<Node>>>)
    requires
        parseable(html@),
    ensures
        r.deep_view() == selectors.deep_view().map_values(
            |s: Seq<char>| document_selection(html@, s, attr.deep_view()),
        ),
{
    let doc = scraper::Html::parse_document(html);
    let node = |el: scraper::ElementRef| Node {
        value: attr.and_then(|a| el.value().attr(a)).map(|v| v.to_string()),
        texts: el.text().map(|t| t.to_string()).collect(),
        inner_html: el.inner_html(),
    };
    let pick = |s: &&str| scraper::Selector::parse(s).ok().map(|sel| doc.select(&sel).map(node).collect());
    selectors.iter().map(pick).collect()
}

// ---------------------------------------------------------------------------
// Laws
// ---------------------------------------------------------------------------

proof fn lemma_encoded_length(s: Seq<char>)
    ensures
        encode_utf8(s).len() <= 4 * s.len(),
    decreases s.len(),
{
    if s.len() > 0 {
        lemma_encoded_length(s.drop_first());
    }
}

proof fn lemma_count_bound(s: Seq<char>, c: char)
    ensures
        count(s, c) <= s.len(),
    decreases s.len(),
{
    if s.len() > 0 {
        lemma_count_bound(s.drop_last(), c);
    }
}

/// The parser takes every text of up to three hundred million characters, and every text without
/// null characters and references of up to two gibibytes.
pub proof fn law_parseable(html: Seq<char>)
    ensures
        html.len() <= 300_000_000 ==> parseable(html),
        !html.contains('\0') && !html.contains('&') ==> (parseable(html) <==> encode_utf8(
            html,
        ).len() <= 0x8000_0000),
{
    lemma_encoded_length(html);
    lemma_count_bound(html, '\0');
    lemma_count_bound(html, '&');
    if !html.contains('\0') && !html.contains('&') {
        lemma_count_none(html, '\0');
        lemma_count_none(html, '&');
    }
}

proof fn lemma_count_none(s: Seq<char>, c: char)
    requires
        !s.contains(c),
    ensures
        count(s, c) == 0,
    decreases s.len(),
{
    if s.len() > 0 {
        assert(s.contains(s.last()));
        assert forall|i: int| 0 <= i < s.drop_last().len() implies #[trigger] s.drop_last()[i] != c by {
            assert(s.contains(s[i]));
        }
        lemma_count_none(s.drop_last(), c);
    }
}

/// An element counts as the parser gives it: by its name, all its attributes in their order, the
/// value that was asked for, all its texts, and its HTML.
pub proof fn law_element_taken(tag: Tag, node: Node)
    ensures
        tag.deep_view().name == tag.name@,
        tag.deep_view().attrs == tag.attrs.deep_view(),
        tag.deep_view().value == tag.value.deep_view(),
        node.deep_view().value == node.value.deep_view(),
        node.deep_view().texts == node.texts.deep_view(),
        node.deep_view().inner_html == node.inner_html@,
{
}

} // verus!
