//! Opening tags and the inline styles that they get.

use crate::dom::{fragment_selection, parseable, select_in_fragment, Tag, TagView};
use crate::style::{merge_styles, merged};
use crate::style::{S_H1, S_H2, S_H3, S_H4, S_HR, S_IMG, S_LI, S_OL, S_P, S_STRONG, S_TABLE, S_TD};
use crate::style::{S_TH, S_UL};
use crate::scan::{lemma_until, scan, until, Stop};
use crate::text::{chars_of, join, joined, law_joined, slice_text};
use crate::token::{attribute_at, lemma_attribute_end, opening_at, read_attribute, read_tag};
use crate::token::{equal_attributes, same_attributes, text_of, tokenize, tokens, write_tokens};
use crate::token::{Attribute, Token, TokenView};
use crate::value::{write_value, written};
use vstd::prelude::*;

verus! {

// ---------------------------------------------------------------------------
// Opening tags
// ---------------------------------------------------------------------------

/// An attribute as it stands in a tag.
pub open spec fn attribute_text(a: Attribute) -> Seq<char> {
    a.0 + "=\""@ + written(a.1) + "\""@
}

/// The opening tag of the element `name` with the attributes `attrs`.
pub open spec fn tag_text(name: Seq<char>, attrs: Seq<Attribute>) -> Seq<char> {
    if attrs.len() == 0 {
        "<"@ + name + ">"@
    } else {
        "<"@ + name + " "@ + joined(attrs.map_values(|a: Attribute| attribute_text(a)), " "@) + ">"@
    }
}

/// The attributes other than `style`.
pub open spec fn without_style(attrs: Seq<Attribute>) -> Seq<Attribute>
    decreases attrs.len(),
{
    if attrs.len() == 0 {
        attrs
    } else if attrs.last().0 == "style"@ {
        without_style(attrs.drop_last())
    } else {
        without_style(attrs.drop_last()).push(attrs.last())
    }
}

/// The attributes with `style` as their style: it comes last, and an empty one is left out.
pub open spec fn with_style(attrs: Seq<Attribute>, style: Seq<char>) -> Seq<Attribute> {
    if style.len() == 0 {
        without_style(attrs)
    } else {
        without_style(attrs).push(("style"@, style))
    }
}

fn attribute_string(name: &str, value: &str) -> (r: String)
    ensures
        r@ == attribute_text((name@, value@)),
{
    let mut out = name.to_owned();
    out.append("=\"");
    out.append(write_value(value).as_str());
    out.append("\"");
    out
}

/// The opening tag of the element `name` with the attributes `attrs`.
pub fn write_tag(name: &str, attrs: &Vec<(String, String)>) -> (r: String)
    ensures
        r@ == tag_text(name@, attrs.deep_view()),
{
    let ghost all = attrs.deep_view();
    let ghost texts = all.map_values(|a: Attribute| attribute_text(a));
    let mut parts: Vec<String> = Vec::new();
    let mut i: usize = 0;
    while i < attrs.len()
        invariant
            all == attrs.deep_view(),
            texts == all.map_values(|a: Attribute| attribute_text(a)),
            i <= attrs@.len(),
            parts.deep_view() == texts.take(i as int),
        decreases attrs@.len() - i,
    {
        let ghost before = parts.deep_view();
        let text = attribute_string(attrs[i].0.as_str(), attrs[i].1.as_str());
        assert(all[i as int] == attrs[i as int].deep_view());
        parts.push(text);
        assert(parts.deep_view() =~= before.push(text@));
        assert(texts.take(i + 1) =~= texts.take(i as int).push(texts[i as int]));
        i += 1;
    }
    assert(texts.take(i as int) =~= texts);
    assert(all.len() == attrs@.len());
    let mut out = "<".to_owned();
    out.append(name);
    if attrs.len() > 0 {
        out.append(" ");
        out.append(join(&parts, " ").as_str());
    }
    out.append(">");
    out
}

/// The element's attributes with `style` as their style.
fn restyle_attributes(el: &Tag, style: &str) -> (r: Vec<(String, String)>)
    ensures
        r.deep_view() == with_style(el.attrs.deep_view(), style@),
{
    let name = "style".to_owned();
    let ghost all = el.attrs.deep_view();
    let mut out: Vec<(String, String)> = Vec::new();
    let mut i: usize = 0;
    assert(out.deep_view() =~= without_style(all.take(0)));
    while i < el.attrs.len()
        invariant
            name@ == "style"@,
            all == el.attrs.deep_view(),
            i <= el.attrs@.len(),
            out.deep_view() == without_style(all.take(i as int)),
        decreases el.attrs@.len() - i,
    {
        let ghost before = out.deep_view();
        proof {
            assert(all[i as int] == el.attrs[i as int].deep_view());
            assert(all.take(i + 1).drop_last() =~= all.take(i as int));
            assert(all.take(i + 1).last() == all[i as int]);
        }
        if el.attrs[i].0 != name {
            out.push((el.attrs[i].0.clone(), el.attrs[i].1.clone()));
            assert(out.deep_view() =~= before.push(all[i as int]));
        }
        i += 1;
    }
    assert(all.take(i as int) =~= all);
    if !style.is_empty() {
        let ghost before = out.deep_view();
        out.push((name, style.to_owned()));
        assert(out.deep_view() =~= before.push(("style"@, style@)));
    }
    out
}

/// The element's opening tag with `new_style` in place of its style.
pub fn rebuild_tag(el: &Tag, new_style: &str) -> (r: String)
    ensures
        r@ == tag_text(el.name@, with_style(el.attrs.deep_view(), new_style@)),
{
    write_tag(el.name.as_str(), &restyle_attributes(el, new_style))
}

// ---------------------------------------------------------------------------
// Tags in a text
// ---------------------------------------------------------------------------

/// The part of a text is an opening tag that reads as `tag`: by its name, and by its attributes
/// in whatever order, with whatever quotes, and with references decoded.
pub open spec fn reads_as(part: TokenView, tag: TagView) -> bool {
    part.tag matches Some((name, attrs)) && name == tag.name && same_attributes(attrs, tag.attrs)
}

/// The first of `parts` from `k` on that reads as `tag`.
pub open spec fn found_from(parts: Seq<TokenView>, tag: TagView, k: int) -> Option<int>
    decreases parts.len() - k,
{
    if k >= parts.len() {
        None
    } else if reads_as(parts[k], tag) {
        Some(k)
    } else {
        found_from(parts, tag, k + 1)
    }
}

/// The first of `parts` that reads as `tag`.
pub open spec fn found(parts: Seq<TokenView>, tag: TagView) -> Option<int> {
    found_from(parts, tag, 0)
}

/// The first of `parts` that reads as `el`.
fn find_tag(parts: &Vec<Token>, el: &Tag) -> (r: Option<usize>)
    ensures
        match r {
            Some(k) => found(parts.deep_view(), el.deep_view()) == Some(k as int) && k
                < parts@.len(),
            None => found(parts.deep_view(), el.deep_view()) is None,
        },
{
    let ghost all = parts.deep_view();
    let ghost tag = el.deep_view();
    let mut k: usize = 0;
    while k < parts.len()
        invariant
            all == parts.deep_view(),
            tag == el.deep_view(),
            k <= parts@.len(),
            found_from(all, tag, k as int) == found(all, tag),
        decreases parts@.len() - k,
    {
        assert(all[k as int] == parts[k as int].deep_view());
        if let Some(own) = &parts[k].tag {
            if own.0 == el.name && equal_attributes(&own.1, &el.attrs) {
                return Some(k);
            }
        }
        k += 1;
    }
    None
}

/// The opening tag of an element as it stands in `html`: the first one that reads as it, or,
/// where none does, as it would be written.
pub open spec fn opening_text(html: Seq<char>, tag: TagView) -> Seq<char> {
    match found(tokens(html), tag) {
        Some(k) => tokens(html)[k].text,
        None => tag_text(tag.name, tag.attrs),
    }
}

/// The element's opening tag as it stands in `html`.
pub fn opening_tag_str(html: &str, el: &Tag) -> (r: String)
    ensures
        r@ == opening_text(html@, el.deep_view()),
{
    let parts = tokenize(html);
    match find_tag(&parts, el) {
        Some(k) => {
            assert(parts.deep_view()[k as int] == parts[k as int].deep_view());
            parts[k].text.clone()
        },
        None => write_tag(el.name.as_str(), &el.attrs),
    }
}

// ---------------------------------------------------------------------------
// Styling
// ---------------------------------------------------------------------------

/// The elements that get a style, each with its style.
pub open spec fn style_rules() -> Seq<(Seq<char>, Seq<char>)> {
    seq![
        ("p"@, S_P@),
        ("h1"@, S_H1@),
        ("h2"@, S_H2@),
        ("h3"@, S_H3@),
        ("h4"@, S_H4@),
        ("table"@, S_TABLE@),
        ("th"@, S_TH@),
        ("td"@, S_TD@),
        ("img"@, S_IMG@),
        ("strong"@, S_STRONG@),
        ("ul"@, S_UL@),
        ("ol"@, S_OL@),
        ("li"@, S_LI@),
    ]
}

/// The style that an element has, empty where it has none.
pub open spec fn own_style(tag: TagView) -> Seq<char> {
    match tag.value {
        Some(s) => s,
        None => Seq::empty(),
    }
}

/// The element `tag` with the style `style` behind what it sets itself.
pub open spec fn styled_tag(tag: TagView, style: Seq<char>) -> TagView {
    let given = merged(own_style(tag), style);
    TagView {
        name: tag.name,
        attrs: with_style(tag.attrs, given),
        value: if given.len() > 0 {
            Some(given)
        } else {
            None
        },
    }
}

/// A style as it stands behind the other attributes of a tag.
pub open spec fn style_text(style: Seq<char>) -> Seq<char> {
    if style.len() == 0 {
        Seq::empty()
    } else {
        " "@ + attribute_text(("style"@, style))
    }
}

/// The tag in `s` from `i` on, without its styles, and with `style` behind its other
/// attributes, which stay as they stand.
pub open spec fn rest_text(s: Seq<char>, i: int, style: Seq<char>) -> Seq<char>
    decreases s.len() - i,
{
    let p = until(s, i, Stop::NonGap);
    proof {
        if 0 <= i <= s.len() {
            lemma_until(s, i, Stop::NonGap);
            if p < s.len() {
                lemma_attribute_end(s, p);
            }
        }
    }
    if !(0 <= i <= s.len()) || p >= s.len() {
        Seq::empty()
    } else if s[p] == '>' {
        style_text(style) + s.subrange(i, p + 1)
    } else {
        match attribute_at(s, p) {
            Some((a, e)) => if a.0 == "style"@ {
                rest_text(s, e, style)
            } else {
                s.subrange(i, e) + rest_text(s, e, style)
            },
            None => Seq::empty(),
        }
    }
}

/// The opening tag `text` with `style` as its style, and otherwise as it stands.
pub open spec fn respelled(text: Seq<char>, style: Seq<char>) -> Seq<char> {
    if text.len() == 0 {
        text
    } else {
        let e = until(text, 1, Stop::TagName);
        text.take(e) + rest_text(text, e, style)
    }
}

/// The whole of `text` is an opening tag that reads as `tag`.
pub open spec fn spells(text: Seq<char>, tag: TagView) -> bool {
    opening_at(text, 0) matches Some((name, attrs, end)) && end == text.len() && name == tag.name
        && same_attributes(attrs, tag.attrs)
}

/// The opening tag `text`, which is to read as `after`: its other attributes stay as they stand,
/// wherever it then reads so, else all of it is written anew.
pub open spec fn styled_opening(text: Seq<char>, after: TagView) -> Seq<char> {
    let kept = respelled(text, own_style(after));
    if spells(kept, after) {
        kept
    } else {
        tag_text(after.name, after.attrs)
    }
}

/// The part is an opening tag that reads as `tag` and is to read as `after`. Where the two read
/// the same, it is to be spelled like `after`.
pub open spec fn pending(part: TokenView, tag: TagView, after: TagView) -> bool {
    &&& reads_as(part, tag)
    &&& same_attributes(after.attrs, tag.attrs) ==> styled_opening(part.text, after) != part.text
}

/// The first of `parts` from `k` on that reads as `tag` and is to read as `after`.
pub open spec fn pending_from(
    parts: Seq<TokenView>,
    tag: TagView,
    after: TagView,
    k: int,
) -> Option<int>
    decreases parts.len() - k,
{
    if k >= parts.len() {
        None
    } else if pending(parts[k], tag, after) {
        Some(k)
    } else {
        pending_from(parts, tag, after, k + 1)
    }
}

/// The part of a text that stands for `after` in place of the opening tag `text`.
pub open spec fn styled_token(text: Seq<char>, after: TagView) -> TokenView {
    TokenView { text: styled_opening(text, after), tag: Some((after.name, after.attrs)) }
}

/// `parts` with the first opening tag that reads as `tag` given the style `style`, behind what
/// the element sets itself and behind its other attributes. An element that has all of that is
/// left as it is.
pub open spec fn restyled(parts: Seq<TokenView>, tag: TagView, style: Seq<char>) -> Seq<TokenView> {
    let after = styled_tag(tag, style);
    if after.attrs == tag.attrs {
        parts
    } else {
        match pending_from(parts, tag, after, 0) {
            Some(k) => parts.update(k, styled_token(parts[k].text, after)),
            None => parts,
        }
    }
}

/// `parts` with each of `tags`, in order, given the style `style`.
pub open spec fn restyled_all(
    parts: Seq<TokenView>,
    tags: Seq<TagView>,
    style: Seq<char>,
) -> Seq<TokenView>
    decreases tags.len(),
{
    if tags.len() == 0 {
        parts
    } else {
        restyled_all(restyled(parts, tags[0], style), tags.skip(1), style)
    }
}

/// `parts` with the elements of each selection given the style at the same place in `styles`.
pub open spec fn styled(
    parts: Seq<TokenView>,
    selections: Seq<Option<Seq<TagView>>>,
    styles: Seq<Seq<char>>,
) -> Seq<TokenView>
    decreases styles.len(),
{
    if selections.len() == 0 || styles.len() == 0 {
        parts
    } else {
        let next = match selections[0] {
            Some(tags) => restyled_all(parts, tags, styles[0]),
            None => parts,
        };
        styled(next, selections.skip(1), styles.skip(1))
    }
}

/// The text `html` with the elements of each selection given the style at the same place in
/// `styles`.
pub open spec fn styled_text(
    html: Seq<char>,
    selections: Seq<Option<Seq<TagView>>>,
    styles: Seq<Seq<char>>,
) -> Seq<char> {
    text_of(styled(tokens(html), selections, styles))
}

/// The styles of the rules, in order.
pub open spec fn rule_styles() -> Seq<Seq<char>> {
    style_rules().map_values(|r: (Seq<char>, Seq<char>)| r.1)
}

/// The elements that each rule is about.
pub open spec fn rule_selections(html: Seq<char>) -> Seq<Option<Seq<TagView>>> {
    style_rules().map_values(
        |r: (Seq<char>, Seq<char>)| fragment_selection(html, r.0, Some("style"@)),
    )
}

/// `html` with the inline styles of the editor.
pub open spec fn inline_styled(html: Seq<char>) -> Seq<char> {
    styled_text(html, rule_selections(html), rule_styles())
}

/// The opening tag `text` with `style` as its style, and otherwise as it stands.
pub fn respell(text: &str, style: &str) -> (r: String)
    ensures
        r@ == respelled(text@, style@),
{
    let chars = chars_of(text);
    if chars.len() == 0 {
        return text.to_owned();
    }
    let ghost s = text@;
    let e = scan(&chars, 1, Stop::TagName);
    let name = "style".to_owned();
    let mut out = slice_text(&chars, 0, e);
    let mut at: usize = e;
    let ghost all = respelled(s, style@);
    assert(out@ =~= s.take(e as int));
    loop
        invariant_except_break
            out@ + rest_text(s, at as int, style@) == all,
        invariant
            chars@ == s,
            name@ == "style"@,
            at <= chars@.len(),
        ensures
            out@ == all,
        decreases chars@.len() - at,
    {
        let ghost before = out@;
        let p = scan(&chars, at, Stop::NonGap);
        if p >= chars.len() {
            assert(out@ + Seq::<char>::empty() =~= out@);
            break;
        }
        if chars[p] == '>' {
            if !style.is_empty() {
                out.append(" ");
                out.append(attribute_string("style", style).as_str());
            }
            let tail = slice_text(&chars, at, p + 1);
            out.append(tail.as_str());
            assert(out@ =~= before + (style_text(style@) + tail@));
            break;
        }
        match read_attribute(&chars, p) {
            Some((a, e)) => {
                if a.0 != name {
                    let piece = slice_text(&chars, at, e);
                    out.append(piece.as_str());
                    assert(out@ + rest_text(s, e as int, style@) =~= before + (piece@ + rest_text(
                        s,
                        e as int,
                        style@,
                    )));
                }
                at = e;
            },
            None => {
                assert(out@ + Seq::<char>::empty() =~= out@);
                break;
            },
        }
    }
    out
}

/// The opening tag `text`, which is to read as `after`.
fn style_opening(text: &String, after: &Tag) -> (r: String)
    ensures
        r@ == styled_opening(text@, after.deep_view()),
{
    let given = style_of(after);
    let kept = respell(text.as_str(), given.as_str());
    if let Some((tag, end)) = read_tag(kept.as_str()) {
        if end == chars_of(kept.as_str()).len() && tag.0 == after.name && equal_attributes(
            &tag.1,
            &after.attrs,
        ) {
            return kept;
        }
    }
    write_tag(after.name.as_str(), &after.attrs)
}

/// The style that the element has, empty where it has none.
fn style_of(el: &Tag) -> (r: String)
    ensures
        r@ == own_style(el.deep_view()),
{
    let r = match &el.value {
        Some(s) => s.clone(),
        None => String::new(),
    };
    assert(r@ =~= own_style(el.deep_view()));
    r
}

/// The element with the style `style` behind what it sets itself.
fn style_tag(el: &Tag, style: &str) -> (r: Tag)
    ensures
        r.deep_view() == styled_tag(el.deep_view(), style@),
{
    let given = merge_styles(style_of(el).as_str(), style);
    let attrs = restyle_attributes(el, given.as_str());
    let value = if given.as_str().is_empty() {
        None
    } else {
        Some(given)
    };
    Tag { name: el.name.clone(), attrs, value }
}

/// The first of `parts` that reads as `el` and is to read as `after`.
fn find_pending(parts: &Vec<Token>, el: &Tag, after: &Tag) -> (r: Option<usize>)
    ensures
        match r {
            Some(k) => pending_from(parts.deep_view(), el.deep_view(), after.deep_view(), 0)
                == Some(k as int) && k < parts@.len(),
            None => pending_from(parts.deep_view(), el.deep_view(), after.deep_view(), 0) is None,
        },
{
    let ghost all = parts.deep_view();
    let ghost tag = el.deep_view();
    let ghost next = after.deep_view();
    let whole = equal_attributes(&after.attrs, &el.attrs);
    let mut k: usize = 0;
    while k < parts.len()
        invariant
            all == parts.deep_view(),
            tag == el.deep_view(),
            next == after.deep_view(),
            whole == same_attributes(next.attrs, tag.attrs),
            k <= parts@.len(),
            pending_from(all, tag, next, k as int) == pending_from(all, tag, next, 0),
        decreases parts@.len() - k,
    {
        assert(all[k as int] == parts[k as int].deep_view());
        if let Some(own) = &parts[k].tag {
            if own.0 == el.name && equal_attributes(&own.1, &el.attrs) {
                if !whole || style_opening(&parts[k].text, after) != parts[k].text {
                    return Some(k);
                }
            }
        }
        k += 1;
    }
    None
}

/// `parts` with the first opening tag that reads as `el` given `style`.
pub fn restyle(parts: Vec<Token>, el: &Tag, style: &str) -> (r: Vec<Token>)
    ensures
        r.deep_view() == restyled(parts.deep_view(), el.deep_view(), style@),
{
    let after = style_tag(el, style);
    if identical_attributes(&after.attrs, &el.attrs) {
        return parts;
    }
    match find_pending(&parts, el, &after) {
        Some(k) => {
            let ghost before = parts.deep_view();
            assert(before[k as int] == parts[k as int].deep_view());
            let text = style_opening(&parts[k].text, &after);
            let ghost view = styled_token(before[k as int].text, after.deep_view());
            let token = Token { text, tag: Some((after.name, after.attrs)) };
            assert(token.deep_view() == view);
            let mut out = parts;
            out.set(k, token);
            assert(out.deep_view() =~= before.update(k as int, view));
            out
        },
        None => parts,
    }
}

/// Whether the attributes are the same, in the same order.
fn identical_attributes(a: &Vec<(String, String)>, b: &Vec<(String, String)>) -> (r: bool)
    ensures
        r == (a.deep_view() == b.deep_view()),
{
    let ghost x = a.deep_view();
    let ghost y = b.deep_view();
    if a.len() != b.len() {
        assert(x.len() != y.len());
        return false;
    }
    let mut i: usize = 0;
    while i < a.len()
        invariant
            x == a.deep_view(),
            y == b.deep_view(),
            a@.len() == b@.len(),
            i <= a@.len(),
            forall|j: int| 0 <= j < i ==> #[trigger] x[j] == y[j],
        decreases a@.len() - i,
    {
        assert(x[i as int] == a[i as int].deep_view());
        assert(y[i as int] == b[i as int].deep_view());
        if a[i].0 != b[i].0 || a[i].1 != b[i].1 {
            assert(x[i as int] != y[i as int]);
            return false;
        }
        i += 1;
    }
    assert(x =~= y);
    true
}

/// The rules as executable values.
fn rules() -> (r: (Vec<&'static str>, Vec<&'static str>))
    ensures
        r.0.deep_view() == style_rules().map_values(|x: (Seq<char>, Seq<char>)| x.0),
        r.1.deep_view() == rule_styles(),
{
    let names = vec![
        "p", "h1", "h2", "h3", "h4", "table", "th", "td", "img", "strong", "ul", "ol", "li",
    ];
    let styles = vec![
        S_P, S_H1, S_H2, S_H3, S_H4, S_TABLE, S_TH, S_TD, S_IMG, S_STRONG, S_UL, S_OL, S_LI,
    ];
    assert(names.deep_view() =~= style_rules().map_values(|x: (Seq<char>, Seq<char>)| x.0));
    assert(styles.deep_view() =~= rule_styles());
    (names, styles)
}

/// `html` with the elements that were selected for each rule given that rule's style.
pub fn style_selections(html: &str, selections: &Vec<Option<Vec<Tag>>>) -> (r: String)
    ensures
        r@ == styled_text(html@, selections.deep_view(), rule_styles()),
{
    let (_, styles) = rules();
    let ghost chosen = selections.deep_view();
    let ghost given = styles.deep_view();
    let mut output = tokenize(html);
    let mut i: usize = 0;
    assert(chosen.skip(0) =~= chosen);
    assert(given.skip(0) =~= given);
    while i < selections.len() && i < styles.len()
        invariant
            chosen == selections.deep_view(),
            given == styles.deep_view(),
            i <= selections@.len(),
            i <= styles@.len(),
            styled(output.deep_view(), chosen.skip(i as int), given.skip(i as int)) == styled(
                tokens(html@),
                chosen,
                given,
            ),
        decreases styles@.len() - i,
    {
        proof {
            assert(chosen.skip(i as int).skip(1) =~= chosen.skip(i + 1));
            assert(given.skip(i as int).skip(1) =~= given.skip(i + 1));
            assert(chosen[i as int] == selections[i as int].deep_view());
        }
        if let Some(tags) = &selections[i] {
            let ghost picked = tags.deep_view();
            let ghost start = output.deep_view();
            let mut k: usize = 0;
            assert(picked.skip(0) =~= picked);
            while k < tags.len()
                invariant
                    picked == tags.deep_view(),
                    i < styles@.len(),
                    k <= tags@.len(),
                    restyled_all(output.deep_view(), picked.skip(k as int), styles[i as int]@)
                        == restyled_all(start, picked, styles[i as int]@),
                decreases tags@.len() - k,
            {
                assert(picked.skip(k as int).skip(1) =~= picked.skip(k + 1));
                assert(picked[k as int] == tags[k as int].deep_view());
                output = restyle(output, &tags[k], styles[i]);
                k += 1;
            }
        }
        i += 1;
    }
    write_tokens(&output)
}

/// Gives the elements of an HTML fragment the inline styles of the editor.
pub fn apply_inline_styles(html: &str) -> (r: String)
    requires
        parseable(html@),
    ensures
        r@ == inline_styled(html@),
{
    let (names, _) = rules();
    let selections = select_in_fragment(html, &names, Some("style"));
    assert(selections.deep_view() =~= rule_selections(html@));
    style_selections(html, &selections)
}

/// A page as one fragment: its title as a heading, a rule, and its body.
pub open spec fn rich_fragment(title: Seq<char>, body: Seq<char>) -> Seq<char> {
    "<h1 style=\""@ + S_H1@ + "\">"@ + title + "</h1><hr style=\""@ + S_HR@ + "\"/>"@ + body
}

/// The rich-text fragment of a single page.
pub fn build_rich_fragment_single(title: &str, body: &str) -> (r: String)
    ensures
        r@ == rich_fragment(title@, body@),
{
    let mut out = "<h1 style=\"".to_owned();
    out.append(S_H1);
    out.append("\">");
    out.append(title);
    out.append("</h1><hr style=\"");
    out.append(S_HR);
    out.append("\"/>");
    out.append(body);
    out
}

// ---------------------------------------------------------------------------
// Laws
// ---------------------------------------------------------------------------

/// Where no rule has an element, the parts stay as they are.
pub proof fn law_nothing_selected(
    parts: Seq<TokenView>,
    selections: Seq<Option<Seq<TagView>>>,
    styles: Seq<Seq<char>>,
)
    requires
        forall|i: int|
            0 <= i < selections.len() ==> ((#[trigger] selections[i]) matches Some(tags) ==> tags.len()
                == 0),
    ensures
        styled(parts, selections, styles) == parts,
    decreases styles.len(),
{
    if selections.len() > 0 && styles.len() > 0 {
        assert(selections[0] matches Some(tags) ==> tags.len() == 0);
        let rest = selections.skip(1);
        assert forall|i: int| 0 <= i < rest.len() implies ((#[trigger] rest[i]) matches Some(tags)
            ==> tags.len() == 0) by {
            assert(rest[i] == selections[i + 1]);
        }
        law_nothing_selected(parts, rest, styles.skip(1));
    }
}

/// Giving an element a style touches no other attribute: the others stay, in their order.
pub proof fn law_other_attributes_kept(attrs: Seq<Attribute>, style: Seq<char>)
    ensures
        without_style(with_style(attrs, style)) == without_style(attrs),
{
    lemma_without_style_twice(attrs);
    if style.len() > 0 {
        let all = with_style(attrs, style);
        assert(all.last() == ("style"@, style));
        assert(all.drop_last() =~= without_style(attrs));
    }
}

proof fn lemma_without_style_twice(attrs: Seq<Attribute>)
    ensures
        without_style(without_style(attrs)) == without_style(attrs),
        forall|i: int| 0 <= i < without_style(attrs).len() ==> (#[trigger] without_style(attrs)[i]).0
            != "style"@,
    decreases attrs.len(),
{
    if attrs.len() > 0 {
        lemma_without_style_twice(attrs.drop_last());
        let kept = without_style(attrs.drop_last());
        if attrs.last().0 != "style"@ {
            assert(kept.push(attrs.last()).drop_last() =~= kept);
            assert(kept.push(attrs.last()).last() == attrs.last());
        }
    }
}

/// An element that was given a style has that style and no other.
pub proof fn law_one_style(attrs: Seq<Attribute>, style: Seq<char>, i: int)
    requires
        0 <= i < with_style(attrs, style).len(),
        with_style(attrs, style)[i].0 == "style"@,
    ensures
        with_style(attrs, style)[i].1 == style,
        i == with_style(attrs, style).len() - 1,
        style.len() > 0,
{
    lemma_without_style_twice(attrs);
    if i < without_style(attrs).len() {
        assert(without_style(attrs)[i] == with_style(attrs, style)[i]);
        assert(without_style(attrs)[i].0 != "style"@);
    }
}

/// The attributes other than `style` are those that have another name, in their order.
pub proof fn law_without_style(attrs: Seq<Attribute>)
    ensures
        without_style(attrs) == attrs.filter(|a: Attribute| a.0 != "style"@),
    decreases attrs.len(),
{
    reveal(Seq::filter);
    if attrs.len() > 0 {
        law_without_style(attrs.drop_last());
    }
}

/// A style is put behind the other attributes, and an empty one is left out.
pub proof fn law_with_style(attrs: Seq<Attribute>, style: Seq<char>)
    ensures
        style.len() == 0 ==> with_style(attrs, style) == attrs.filter(
            |a: Attribute| a.0 != "style"@,
        ),
        style.len() > 0 ==> with_style(attrs, style) == attrs.filter(
            |a: Attribute| a.0 != "style"@,
        ).push(("style"@, style)),
{
    law_without_style(attrs);
}

/// A tag is written as its name and its attributes, each behind a space, as its name, an equals
/// sign and its value in double quotes.
pub proof fn law_tag_text(name: Seq<char>, attrs: Seq<Attribute>, a: Attribute)
    ensures
        tag_text(name, Seq::empty()) == "<"@ + name + ">"@,
        tag_text(name, attrs.push(a)) == tag_text(name, attrs).drop_last() + " "@ + a.0 + "=\""@
            + written(a.1) + "\""@ + ">"@,
{
    reveal_strlit(">");
    let texts = attrs.map_values(|a: Attribute| attribute_text(a));
    let text = attribute_text(a);
    let all = attrs.push(a);
    law_joined(texts, text, " "@);
    assert(all.map_values(|a: Attribute| attribute_text(a)) =~= texts.push(text));
    if attrs.len() == 0 {
        assert(texts.push(text) =~= seq![text]);
    }
    assert(tag_text(name, all) =~= tag_text(name, attrs).drop_last() + " "@ + a.0 + "=\""@ + written(
        a.1,
    ) + "\""@ + ">"@);
}

/// A page as one fragment is its title as a heading in the style of the editor, a rule, and its
/// body, whatever title and body are.
pub proof fn law_rich_fragment(title: Seq<char>, body: Seq<char>)
    ensures
        rich_fragment(title, body) == "<h1 style=\""@
            + "font-size:20px; font-weight:bold; text-align:center; \
               letter-spacing:2px; margin:16px 0 10px; \
               font-family:Microsoft YaHei,SimSun,Arial,sans-serif; color:#222"@ + "\">"@ + title
            + "</h1>"@ + ("<hr style=\""@
            + "border:none; border-top:1px solid #e0e0e0; margin:12px 0"@ + "\"/>"@) + body,
{
    reveal_strlit("</h1><hr style=\"");
    reveal_strlit("</h1>");
    reveal_strlit("<hr style=\"");
    assert("</h1><hr style=\""@ =~= "</h1>"@ + "<hr style=\""@);
    assert(rich_fragment(title, body) =~= "<h1 style=\""@ + S_H1@ + "\">"@ + title + "</h1>"@ + (
    "<hr style=\""@ + S_HR@ + "\"/>"@) + body);
}

} // verus!
