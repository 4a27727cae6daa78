//! What holds of the inline styles of a text as a whole.

use crate::dom::{fragment_selection, TagView};
use crate::markup::{attribute_text, found, own_style, pending, pending_from, reads_as, respelled};
use crate::markup::{law_nothing_selected, law_other_attributes_kept, rest_text, restyled};
use crate::markup::{restyled_all, rule_styles, spells, style_rules, style_text, styled};
use crate::markup::{styled_opening, styled_tag, styled_text, styled_token, tag_text, with_style};
use crate::markup::{found_from, inline_styled, opening_text, rule_selections, without_style};
use crate::scan::{lemma_until, lemma_until_is, lower_name, stops, until, Stop};
use crate::style::{all_simple, holds_writable, law_merged_not_empty, law_merging_twice, merged};
use crate::style::{law_simple_merged, law_simple_writable, simple};
use crate::style::{S_H1, S_H2, S_H3, S_H4, S_IMG, S_LI, S_OL, S_P, S_STRONG, S_TABLE, S_TD, S_TH};
use crate::style::S_UL;
use crate::text::joined;
use crate::token::{attribute_at, attributes_at, distinct_names, has_name, letter, opening_at};
use crate::token::{law_part_read_alone, law_tokens_cover, lemma_attribute_end, lemma_attributes_end};
use crate::token::same_attributes;
use crate::token::{text_of, tokens, Attribute, TokenView};
use crate::value::{law_plain_value_stays, law_written_read_back, value_of, written};
use vstd::prelude::*;

verus! {

// ---------------------------------------------------------------------------
// A written tag is read back
// ---------------------------------------------------------------------------

/// A name that an attribute can be written with.
pub open spec fn attribute_name(name: Seq<char>) -> bool {
    &&& name.len() > 0
    &&& lower_name(name) == name
    &&& forall|j: int| 0 <= j < name.len() ==> !stops(Stop::AttributeName, #[trigger] name[j])
}

/// A name that a tag can be written with.
pub open spec fn tag_name(name: Seq<char>) -> bool {
    &&& name.len() > 0
    &&& letter(name[0])
    &&& lower_name(name) == name
    &&& forall|j: int| 0 <= j < name.len() ==> !stops(Stop::TagName, #[trigger] name[j])
}

/// Attributes that a tag can be written with.
pub open spec fn attributes_writable(attrs: Seq<Attribute>) -> bool {
    &&& forall|i: int|
        0 <= i < attrs.len() ==> attribute_name((#[trigger] attrs[i]).0) && !attrs[i].1.contains(
            '\r',
        ) && !attrs[i].1.contains('\0')
    &&& forall|i: int, j: int|
        0 <= i < j < attrs.len() ==> (#[trigger] attrs[i]).0 != (#[trigger] attrs[j]).0
}

/// The attributes as they stand in a tag, with a space between each two.
pub open spec fn attributes_text(attrs: Seq<Attribute>) -> Seq<char> {
    joined(attrs.map_values(|a: Attribute| attribute_text(a)), " "@)
}

/// The character at a place in a text that is known from there on.
proof fn lemma_tail_index(s: Seq<char>, p: int, tail: Seq<char>, j: int)
    requires
        0 <= p <= s.len(),
        s.skip(p) == tail,
        0 <= j < tail.len(),
    ensures
        s[p + j] == tail[j],
        p + tail.len() == s.len(),
{
    assert(s.skip(p)[j] == s[p + j]);
}

proof fn lemma_attribute_read_back(s: Seq<char>, p: int, a: Attribute, rest: Seq<char>)
    requires
        0 <= p <= s.len(),
        s.skip(p) == attribute_text(a) + rest,
        attribute_name(a.0),
        !a.1.contains('\r'),
        !a.1.contains('\0'),
    ensures
        attribute_at(s, p) == Some((a, p + attribute_text(a).len())),
{
    reveal_strlit("=\"");
    reveal_strlit("\"");
    let raw = written(a.1);
    let text = attribute_text(a);
    let tail = text + rest;
    let n = a.0.len() as int;
    let m = raw.len() as int;
    law_written_read_back(a.1);
    assert(tail.len() == text.len() + rest.len());
    lemma_tail_index(s, p, tail, 0);
    assert(s.len() == p + tail.len());
    assert forall|j: int| 0 <= j < text.len() implies #[trigger] s[p + j] == text[j] by {
        lemma_tail_index(s, p, tail, j);
        assert(tail[j] == text[j]);
    }
    let e = p + n;
    assert(s[p + n] == text[n] && text[n] == '=');
    assert forall|j: int| p + 1 <= j < e implies !stops(Stop::AttributeName, #[trigger] s[j]) by {
        assert(s[p + (j - p)] == text[j - p]);
        assert(text[j - p] == a.0[j - p]);
    }
    lemma_until_is(s, p + 1, Stop::AttributeName, e);
    assert(s.subrange(p, e) =~= a.0) by {
        assert forall|j: int| 0 <= j < n implies #[trigger] s.subrange(p, e)[j] == a.0[j] by {
            assert(s[p + j] == text[j]);
        }
    }
    lemma_until_is(s, e, Stop::NonSpace, e);
    assert(s[p + (n + 1)] == text[n + 1] && text[n + 1] == '"');
    lemma_until_is(s, e + 1, Stop::NonSpace, e + 1);
    let q = e + 2 + m;
    assert(s[p + (n + 2 + m)] == text[n + 2 + m] && text[n + 2 + m] == '"');
    assert forall|j: int| e + 2 <= j < q implies !stops(Stop::At('"'), #[trigger] s[j]) by {
        assert(s[p + (j - p)] == text[j - p]);
        assert(text[j - p] == raw[j - e - 2]);
        assert(raw.contains(raw[j - e - 2]));
    }
    lemma_until_is(s, e + 2, Stop::At('"'), q);
    assert(s.subrange(e + 2, q) =~= raw) by {
        assert forall|j: int| 0 <= j < m implies #[trigger] s.subrange(e + 2, q)[j] == raw[j] by {
            assert(s[p + (n + 2 + j)] == text[n + 2 + j]);
        }
    }
    assert(text.len() == n + 2 + m + 1);
}

proof fn lemma_gap_skipped(s: Seq<char>, i: int)
    requires
        0 <= i < s.len(),
        !stops(Stop::NonGap, s[i]),
    ensures
        attributes_at(s, i) == attributes_at(s, i + 1),
{
    lemma_until(s, i, Stop::NonGap);
    lemma_until(s, i + 1, Stop::NonGap);
}

proof fn lemma_attributes_read_back(s: Seq<char>, p: int, attrs: Seq<Attribute>, rest: Seq<char>)
    requires
        0 <= p <= s.len(),
        attrs.len() > 0,
        attributes_writable(attrs),
        s.skip(p) == attributes_text(attrs) + ">"@ + rest,
    ensures
        attributes_at(s, p) == Some((attrs, p + attributes_text(attrs).len() + 1)),
    decreases attrs.len(),
{
    reveal_strlit(" ");
    reveal_strlit(">");
    let texts = attrs.map_values(|a: Attribute| attribute_text(a));
    let a = attrs[0];
    let text = attribute_text(a);
    let more = attrs.skip(1);
    let after = if attrs.len() == 1 {
        ">"@ + rest
    } else {
        " "@ + (attributes_text(more) + ">"@ + rest)
    };
    assert(texts[0] == text);
    if attrs.len() > 1 {
        assert(texts.skip(1) =~= more.map_values(|a: Attribute| attribute_text(a)));
        assert(attributes_text(attrs) == text + " "@ + attributes_text(more));
    }
    assert(s.skip(p) =~= text + after);
    lemma_attribute_read_back(s, p, a, after);
    let e = p + text.len();
    reveal_strlit("=\"");
    reveal_strlit("\"");
    assert(text.len() > 0);
    assert(s.len() - p == text.len() + after.len()) by {
        assert(s.skip(p).len() == s.len() - p);
    }
    assert(s.skip(e) =~= after) by {
        assert forall|j: int| 0 <= j < after.len() implies #[trigger] s.skip(e)[j] == after[j] by {
            assert(s.skip(p)[text.len() + j] == s[e + j]);
            assert((text + after)[text.len() + j] == after[j]);
        }
    }
    assert(s[p] == a.0[0]) by {
        assert(s.skip(p)[0] == s[p]);
        assert((text + after)[0] == text[0]);
    }
    assert(!stops(Stop::AttributeName, a.0[0]));
    lemma_until_is(s, p, Stop::NonGap, p);
    assert(s[e] == after[0]) by {
        assert(s.skip(e)[0] == s[e]);
    }
    if attrs.len() == 1 {
        lemma_until_is(s, e, Stop::NonGap, e);
        assert(attributes_at(s, e) == Some((Seq::<Attribute>::empty(), e + 1)));
        assert(seq![a] + Seq::<Attribute>::empty() =~= attrs);
    } else {
        lemma_gap_skipped(s, e);
        let tail = attributes_text(more) + ">"@ + rest;
        assert(s.skip(e + 1) =~= tail) by {
            assert forall|j: int| 0 <= j < tail.len() implies #[trigger] s.skip(e + 1)[j]
                == tail[j] by {
                assert(s.skip(e)[1 + j] == s[e + 1 + j]);
                assert(after[1 + j] == tail[j]);
            }
        }
        assert forall|i: int| 0 <= i < more.len() implies attribute_name((#[trigger] more[i]).0)
            && !more[i].1.contains('\r') && !more[i].1.contains('\0') by {
            assert(more[i] == attrs[i + 1]);
        }
        assert forall|i: int, j: int| 0 <= i < j < more.len() implies (#[trigger] more[i]).0 != (
        #[trigger] more[j]).0 by {
            assert(more[i] == attrs[i + 1]);
            assert(more[j] == attrs[j + 1]);
        }
        lemma_attributes_read_back(s, e + 1, more, rest);
        assert(seq![a] + more =~= attrs);
    }
}

proof fn lemma_names_kept(attrs: Seq<Attribute>)
    requires
        forall|i: int, j: int|
            0 <= i < j < attrs.len() ==> (#[trigger] attrs[i]).0 != (#[trigger] attrs[j]).0,
    ensures
        distinct_names(attrs) == attrs,
    decreases attrs.len(),
{
    if attrs.len() > 0 {
        let front = attrs.drop_last();
        assert forall|i: int, j: int| 0 <= i < j < front.len() implies (#[trigger] front[i]).0 != (
        #[trigger] front[j]).0 by {
            assert(front[i] == attrs[i]);
            assert(front[j] == attrs[j]);
        }
        lemma_names_kept(front);
        assert(!has_name(front, attrs.last().0)) by {
            assert forall|i: int| 0 <= i < front.len() implies (#[trigger] front[i]).0
                != attrs.last().0 by {
                assert(front[i] == attrs[i]);
                assert(attrs[i].0 != attrs[attrs.len() - 1].0);
            }
        }
        assert(front.push(attrs.last()) =~= attrs);
    }
}

/// An opening tag that was written is read back from where it stands, whatever follows it: by
/// its name, by its attributes, and by where it ends.
pub proof fn law_tag_read_back(name: Seq<char>, attrs: Seq<Attribute>, rest: Seq<char>)
    requires
        tag_name(name),
        attributes_writable(attrs),
    ensures
        opening_at(tag_text(name, attrs) + rest, 0) == Some(
            (name, attrs, tag_text(name, attrs).len() as int),
        ),
{
    reveal_strlit("<");
    reveal_strlit(">");
    reveal_strlit(" ");
    let text = tag_text(name, attrs);
    let s = text + rest;
    let n = name.len() as int;
    assert forall|j: int| 0 <= j < n implies #[trigger] s[1 + j] == name[j] by {}
    assert(s[1int + 0] == name[0]);
    assert(s[0] == '<');
    let e = 1 + n;
    assert forall|j: int| 1 <= j < e implies !stops(Stop::TagName, #[trigger] s[j]) by {
        assert(s[1 + (j - 1)] == name[j - 1]);
    }
    if attrs.len() == 0 {
        assert(s[e] == '>');
        lemma_until_is(s, 1, Stop::TagName, e);
        lemma_until_is(s, e, Stop::NonGap, e);
        assert(attributes_at(s, e) == Some((Seq::<Attribute>::empty(), e + 1)));
        assert(attrs =~= Seq::<Attribute>::empty());
    } else {
        assert(s[e] == ' ');
        lemma_until_is(s, 1, Stop::TagName, e);
        lemma_gap_skipped(s, e);
        assert(s.skip(e + 1) =~= attributes_text(attrs) + ">"@ + rest);
        lemma_attributes_read_back(s, e + 1, attrs, rest);
    }
    lemma_names_kept(attrs);
    assert(s.subrange(1, e) =~= name);
}

// ---------------------------------------------------------------------------
// A tag is read the same, whatever follows it
// ---------------------------------------------------------------------------

proof fn lemma_until_before(t: Seq<char>, rest: Seq<char>, i: int, stop: Stop)
    requires
        0 <= i <= t.len(),
        until(t, i, stop) < t.len(),
    ensures
        until(t + rest, i, stop) == until(t, i, stop),
{
    lemma_until(t, i, stop);
    let k = until(t, i, stop);
    assert forall|j: int| i <= j < k implies !stops(stop, #[trigger] (t + rest)[j]) by {
        assert((t + rest)[j] == t[j]);
    }
    assert((t + rest)[k] == t[k]);
    lemma_until_is(t + rest, i, stop, k);
}

proof fn lemma_attribute_before(t: Seq<char>, rest: Seq<char>, i: int)
    requires
        0 <= i < t.len(),
        attribute_at(t, i) is Some,
        ({
            let (_, e) = attribute_at(t, i)->0;
            attributes_at(t, e) is Some
        }),
    ensures
        attribute_at(t + rest, i) == attribute_at(t, i),
{
    let s = t + rest;
    let (_, end) = attribute_at(t, i)->0;
    lemma_attribute_end(t, i);
    lemma_attributes_end(t, end);
    assert(end < t.len());
    let e = until(t, i + 1, Stop::AttributeName);
    lemma_until(t, i + 1, Stop::AttributeName);
    let p = until(t, e, Stop::NonSpace);
    lemma_until(t, e, Stop::NonSpace);
    let v = until(t, p + 1, Stop::NonSpace);
    if p < t.len() && t[p] == '=' {
        lemma_until(t, p + 1, Stop::NonSpace);
        lemma_until_before(t, rest, i + 1, Stop::AttributeName);
        lemma_until_before(t, rest, e, Stop::NonSpace);
        lemma_until_before(t, rest, p + 1, Stop::NonSpace);
        assert(s[p] == t[p] && s[v] == t[v]);
        assert(s.subrange(i, e) =~= t.subrange(i, e));
        if t[v] == '"' || t[v] == '\'' {
            let q = until(t, v + 1, Stop::At(t[v]));
            lemma_until(t, v + 1, Stop::At(t[v]));
            lemma_until_before(t, rest, v + 1, Stop::At(t[v]));
            assert(s.subrange(v + 1, q) =~= t.subrange(v + 1, q));
        } else {
            let q = until(t, v, Stop::BareValue);
            lemma_until(t, v, Stop::BareValue);
            lemma_until_before(t, rest, v, Stop::BareValue);
            assert(s.subrange(v, q) =~= t.subrange(v, q));
        }
    } else {
        assert(end == e);
        lemma_until_before(t, rest, i + 1, Stop::AttributeName);
        let g = until(t, e, Stop::NonGap);
        lemma_until(t, e, Stop::NonGap);
        assert(g < t.len());
        if p >= t.len() {
            assert(!stops(Stop::NonSpace, t[g]));
        }
        lemma_until_before(t, rest, e, Stop::NonSpace);
        assert(s[p] == t[p]);
        assert(s.subrange(i, e) =~= t.subrange(i, e));
    }
}

proof fn lemma_attributes_before(t: Seq<char>, rest: Seq<char>, i: int)
    requires
        0 <= i <= t.len(),
        attributes_at(t, i) is Some,
    ensures
        attributes_at(t + rest, i) == attributes_at(t, i),
    decreases t.len() - i,
{
    let p = until(t, i, Stop::NonGap);
    lemma_until(t, i, Stop::NonGap);
    lemma_until_before(t, rest, i, Stop::NonGap);
    assert((t + rest)[p] == t[p]);
    if t[p] != '>' {
        lemma_attribute_end(t, p);
        let (_, e) = attribute_at(t, p)->0;
        lemma_attribute_before(t, rest, p);
        lemma_attributes_before(t, rest, e);
    }
}

/// An opening tag at the start of a text is read the same, whatever follows it.
pub proof fn law_tag_read_alone(t: Seq<char>, rest: Seq<char>)
    requires
        opening_at(t, 0) is Some,
    ensures
        opening_at(t + rest, 0) == opening_at(t, 0),
{
    let s = t + rest;
    let e = until(t, 1, Stop::TagName);
    lemma_until(t, 1, Stop::TagName);
    lemma_attributes_end(t, e);
    assert(s[0] == t[0] && s[1] == t[1]);
    lemma_until_before(t, rest, 1, Stop::TagName);
    assert(s.subrange(1, e) =~= t.subrange(1, e));
    lemma_attributes_before(t, rest, e);
}

/// A tag that was given a style reads, where it stands, as the element with that style.
pub proof fn law_styled_opening_reads(text: Seq<char>, after: TagView, rest: Seq<char>)
    requires
        tag_name(after.name),
        attributes_writable(after.attrs),
    ensures
        ({
            let opening = styled_opening(text, after);
            opening_at(opening + rest, 0) matches Some((name, attrs, end)) && name == after.name
                && same_attributes(attrs, after.attrs) && end == opening.len()
        }),
{
    let kept = respelled(text, own_style(after));
    if spells(kept, after) {
        law_tag_read_alone(kept, rest);
    } else {
        law_tag_read_back(after.name, after.attrs, rest);
    }
}

// ---------------------------------------------------------------------------
// A written tag is given a style
// ---------------------------------------------------------------------------

/// The attributes as they stand in a tag, with a space before each.
pub open spec fn gapped(attrs: Seq<Attribute>) -> Seq<char>
    decreases attrs.len(),
{
    if attrs.len() == 0 {
        Seq::empty()
    } else {
        " "@ + attribute_text(attrs[0]) + gapped(attrs.skip(1))
    }
}

proof fn lemma_gapped_joined(attrs: Seq<Attribute>)
    requires
        attrs.len() > 0,
    ensures
        gapped(attrs) == " "@ + attributes_text(attrs),
    decreases attrs.len(),
{
    let texts = attrs.map_values(|a: Attribute| attribute_text(a));
    let rest = attrs.skip(1);
    assert(texts[0] == attribute_text(attrs[0]));
    if rest.len() > 0 {
        lemma_gapped_joined(rest);
        assert(texts.skip(1) =~= rest.map_values(|a: Attribute| attribute_text(a)));
        assert(gapped(attrs) =~= " "@ + attributes_text(attrs));
    } else {
        assert(gapped(rest) =~= Seq::<char>::empty());
        assert(gapped(attrs) =~= " "@ + attributes_text(attrs));
    }
}

proof fn lemma_tag_text(name: Seq<char>, attrs: Seq<Attribute>)
    ensures
        tag_text(name, attrs) == "<"@ + name + gapped(attrs) + ">"@,
{
    if attrs.len() > 0 {
        lemma_gapped_joined(attrs);
    }
    assert(tag_text(name, attrs) =~= "<"@ + name + gapped(attrs) + ">"@);
}

proof fn lemma_gapped_push(attrs: Seq<Attribute>, a: Attribute)
    ensures
        gapped(attrs.push(a)) == gapped(attrs) + (" "@ + attribute_text(a)),
    decreases attrs.len(),
{
    let all = attrs.push(a);
    if attrs.len() == 0 {
        assert(all.skip(1) =~= attrs);
        assert(all[0] == a);
        assert(gapped(attrs) =~= Seq::<char>::empty());
        assert(gapped(all) =~= " "@ + attribute_text(a));
        assert(gapped(attrs) + (" "@ + attribute_text(a)) =~= " "@ + attribute_text(a));
    } else {
        lemma_gapped_push(attrs.skip(1), a);
        assert(all.skip(1) =~= attrs.skip(1).push(a));
        assert(all[0] == attrs[0]);
        assert(gapped(all) =~= gapped(attrs) + (" "@ + attribute_text(a)));
    }
}

proof fn lemma_without_style_first(attrs: Seq<Attribute>)
    requires
        attrs.len() > 0,
    ensures
        without_style(attrs) == if attrs[0].0 == "style"@ {
            without_style(attrs.skip(1))
        } else {
            seq![attrs[0]] + without_style(attrs.skip(1))
        },
    decreases attrs.len(),
{
    let front = attrs.drop_last();
    let rest = attrs.skip(1);
    if front.len() > 0 {
        lemma_without_style_first(front);
        assert(front.skip(1) =~= rest.drop_last());
        assert(rest.last() == attrs.last());
        assert(front[0] == attrs[0]);
        let kept = without_style(rest.drop_last());
        assert((seq![attrs[0]] + kept).push(attrs.last()) =~= seq![attrs[0]] + kept.push(
            attrs.last(),
        ));
    } else {
        assert(front =~= Seq::<Attribute>::empty());
        assert(rest =~= Seq::<Attribute>::empty());
        assert(without_style(front) =~= front);
        assert(without_style(rest) =~= rest);
        assert(front.push(attrs.last()) =~= seq![attrs[0]] + rest);
    }
}

proof fn lemma_rest_text(
    s: Seq<char>,
    i: int,
    attrs: Seq<Attribute>,
    rest: Seq<char>,
    style: Seq<char>,
)
    requires
        0 <= i <= s.len(),
        attributes_writable(attrs),
        s.skip(i) == gapped(attrs) + ">"@ + rest,
    ensures
        rest_text(s, i, style) == gapped(without_style(attrs)) + style_text(style) + ">"@,
    decreases attrs.len(),
{
    reveal_strlit(" ");
    reveal_strlit(">");
    let tail = gapped(attrs) + ">"@ + rest;
    assert(s.len() == i + tail.len()) by {
        assert(s.skip(i).len() == s.len() - i);
    }
    if attrs.len() == 0 {
        lemma_tail_index(s, i, tail, 0);
        assert(s[i] == '>');
        lemma_until_is(s, i, Stop::NonGap, i);
        assert(s.subrange(i, i + 1) =~= ">"@);
        assert(without_style(attrs) =~= attrs);
        assert(gapped(without_style(attrs)) + style_text(style) + ">"@ =~= style_text(style) + ">"@);
    } else {
        let a = attrs[0];
        let more = attrs.skip(1);
        let text = attribute_text(a);
        let after = gapped(more) + ">"@ + rest;
        assert(tail =~= " "@ + (text + after));
        assert(attribute_name(a.0));
        reveal_strlit("=\"");
        reveal_strlit("\"");
        lemma_tail_index(s, i, tail, 0);
        lemma_tail_index(s, i, tail, 1);
        assert(s[i] == ' ');
        assert(s[i + 1] == a.0[0]);
        assert(!stops(Stop::AttributeName, a.0[0]));
        lemma_until_is(s, i, Stop::NonGap, i + 1);
        assert(s.skip(i + 1) =~= text + after) by {
            assert forall|j: int| 0 <= j < (text + after).len() implies #[trigger] s.skip(i + 1)[j]
                == (text + after)[j] by {
                lemma_tail_index(s, i, tail, j + 1);
            }
        }
        lemma_attribute_read_back(s, i + 1, a, after);
        let e = i + 1 + text.len();
        assert(s.skip(e) =~= after) by {
            assert forall|j: int| 0 <= j < after.len() implies #[trigger] s.skip(e)[j]
                == after[j] by {
                lemma_tail_index(s, i + 1, text + after, text.len() + j);
            }
        }
        assert(s.subrange(i, e) =~= " "@ + text) by {
            assert forall|j: int| 0 <= j < 1 + text.len() implies #[trigger] s.subrange(i, e)[j]
                == (" "@ + text)[j] by {
                lemma_tail_index(s, i, tail, j);
            }
        }
        assert forall|k: int| 0 <= k < more.len() implies attribute_name((#[trigger] more[k]).0)
            && !more[k].1.contains('\r') && !more[k].1.contains('\0') by {
            assert(more[k] == attrs[k + 1]);
        }
        assert forall|k: int, j: int| 0 <= k < j < more.len() implies (#[trigger] more[k]).0 != (
        #[trigger] more[j]).0 by {
            assert(more[k] == attrs[k + 1]);
            assert(more[j] == attrs[j + 1]);
        }
        lemma_rest_text(s, e, more, rest, style);
        lemma_without_style_first(attrs);
        assert(s[i + 1] != '>');
        if a.0 != "style"@ {
            let kept = seq![a] + without_style(more);
            assert(kept.skip(1) =~= without_style(more));
            assert(gapped(kept) + style_text(style) + ">"@ =~= (" "@ + text) + (gapped(
                without_style(more),
            ) + style_text(style) + ">"@));
        }
    }
}

/// A written tag that is given a style is written with that style behind its other attributes.
pub proof fn law_written_tag_respelled(name: Seq<char>, attrs: Seq<Attribute>, style: Seq<char>)
    requires
        tag_name(name),
        attributes_writable(attrs),
    ensures
        respelled(tag_text(name, attrs), style) == tag_text(name, with_style(attrs, style)),
{
    reveal_strlit("<");
    reveal_strlit(">");
    reveal_strlit(" ");
    let text = tag_text(name, attrs);
    let e = 1 + name.len() as int;
    let none = Seq::<char>::empty();
    lemma_tag_text(name, attrs);
    lemma_tag_text(name, with_style(attrs, style));
    assert(text =~= "<"@ + name + (gapped(attrs) + ">"@));
    assert forall|j: int| 1 <= j < e implies !stops(Stop::TagName, #[trigger] text[j]) by {
        assert(text[j] == name[j - 1]);
    }
    assert(stops(Stop::TagName, text[e])) by {
        if attrs.len() > 0 {
            assert(gapped(attrs)[0] == ' ');
        }
        assert(text[e] == (gapped(attrs) + ">"@)[0]);
    }
    lemma_until_is(text, 1, Stop::TagName, e);
    assert(text.skip(e) =~= gapped(attrs) + ">"@ + none);
    lemma_rest_text(text, e, attrs, none, style);
    assert(text.take(e) =~= "<"@ + name);
    let kept = without_style(attrs);
    if style.len() > 0 {
        lemma_gapped_push(kept, ("style"@, style));
    }
    assert(gapped(with_style(attrs, style)) =~= gapped(kept) + style_text(style));
    assert(respelled(text, style) =~= "<"@ + name + gapped(with_style(attrs, style)) + ">"@);
}

// ---------------------------------------------------------------------------
// Every selected tag gets its style
// ---------------------------------------------------------------------------

/// One of `parts` reads as `tag`.
pub open spec fn present(parts: Seq<TokenView>, tag: TagView) -> bool {
    exists|k: int| 0 <= k < parts.len() && reads_as(#[trigger] parts[k], tag)
}

/// The style of `tag` is that of its attributes.
pub open spec fn coherent(tag: TagView) -> bool {
    forall|v: Seq<char>| #[trigger] tag.attrs.contains(("style"@, v)) <==> tag.value == Some(v)
}

/// The two elements read the same.
pub open spec fn same_tag(a: TagView, b: TagView) -> bool {
    a.name == b.name && same_attributes(a.attrs, b.attrs)
}

proof fn lemma_pending_from(parts: Seq<TokenView>, tag: TagView, after: TagView, k: int)
    requires
        0 <= k,
    ensures
        match pending_from(parts, tag, after, k) {
            Some(n) => k <= n < parts.len() && pending(parts[n], tag, after),
            None => forall|n: int|
                k <= n < parts.len() ==> !pending(#[trigger] parts[n], tag, after),
        },
    decreases parts.len() - k,
{
    if k < parts.len() && !pending(parts[k], tag, after) {
        lemma_pending_from(parts, tag, after, k + 1);
    }
}

/// The attribute list without styles has just the other attributes.
proof fn lemma_without_style_contains(attrs: Seq<Attribute>)
    ensures
        forall|x: Attribute| #[trigger]
            without_style(attrs).contains(x) <==> attrs.contains(x) && x.0 != "style"@,
    decreases attrs.len(),
{
    if attrs.len() > 0 {
        let front = attrs.drop_last();
        let kept = without_style(front);
        lemma_without_style_contains(front);
        assert forall|x: Attribute| #[trigger] without_style(attrs).contains(x) <==> attrs.contains(x)
            && x.0 != "style"@ by {
            assert(attrs =~= front.push(attrs.last()));
            lemma_push_contains(front, attrs.last(), x);
            lemma_push_contains(kept, attrs.last(), x);
            assert(kept.contains(x) <==> front.contains(x) && x.0 != "style"@);
        }
    }
}

proof fn lemma_push_contains(s: Seq<Attribute>, a: Attribute, x: Attribute)
    ensures
        s.push(a).contains(x) <==> s.contains(x) || x == a,
{
    if s.contains(x) {
        let i = choose|i: int| 0 <= i < s.len() && s[i] == x;
        assert(s.push(a)[i] == x);
    }
    assert(s.push(a)[s.len() as int] == a);
    if s.push(a).contains(x) && x != a {
        let i = choose|i: int| 0 <= i < s.push(a).len() && s.push(a)[i] == x;
        assert(s[i] == x);
    }
}

/// An element that was given a style has just the other attributes and that style.
proof fn lemma_with_style_contains(attrs: Seq<Attribute>, style: Seq<char>)
    ensures
        forall|x: Attribute| #[trigger]
            with_style(attrs, style).contains(x) <==> if x.0 == "style"@ {
                style.len() > 0 && x.1 == style
            } else {
                attrs.contains(x)
            },
{
    lemma_without_style_contains(attrs);
    let kept = without_style(attrs);
    assert forall|x: Attribute| #[trigger] with_style(attrs, style).contains(x) <==> if x.0
        == "style"@ {
        style.len() > 0 && x.1 == style
    } else {
        attrs.contains(x)
    } by {
        lemma_push_contains(kept, ("style"@, style), x);
        assert(kept.contains(x) <==> attrs.contains(x) && x.0 != "style"@);
    }
}

/// Elements that read the same have the same style.
proof fn lemma_same_style(a: TagView, b: TagView)
    requires
        coherent(a),
        coherent(b),
        same_tag(a, b),
    ensures
        a.value == b.value,
{
    if let Some(v) = a.value {
        assert(a.attrs.contains(("style"@, v)));
        assert(b.attrs.contains(("style"@, v)));
    }
    if let Some(v) = b.value {
        assert(b.attrs.contains(("style"@, v)));
        assert(a.attrs.contains(("style"@, v)));
    }
}

/// Elements that read the same, read the same with a style.
proof fn lemma_same_styled(a: TagView, b: TagView, style: Seq<char>)
    requires
        coherent(a),
        coherent(b),
        same_tag(a, b),
    ensures
        same_tag(styled_tag(a, style), styled_tag(b, style)),
{
    lemma_same_style(a, b);
    let given = merged(own_style(a), style);
    lemma_with_style_contains(a.attrs, given);
    lemma_with_style_contains(b.attrs, given);
    let x = with_style(a.attrs, given);
    let y = with_style(b.attrs, given);
    assert forall|v: Attribute| #[trigger] x.contains(v) <==> y.contains(v) by {
        assert(a.attrs.contains(v) <==> b.attrs.contains(v));
        assert(y.contains(v) <==> if v.0 == "style"@ {
            given.len() > 0 && v.1 == given
        } else {
            b.attrs.contains(v)
        });
    }
}

/// An element with a style has that style by its attributes too.
proof fn lemma_styled_coherent(tag: TagView, style: Seq<char>)
    ensures
        coherent(styled_tag(tag, style)),
        own_style(styled_tag(tag, style)) == merged(own_style(tag), style),
        own_style(styled_tag(tag, style)).len() == 0 ==> styled_tag(tag, style).value is None,
{
    let given = merged(own_style(tag), style);
    lemma_with_style_contains(tag.attrs, given);
    let after = styled_tag(tag, style);
    assert forall|v: Seq<char>| #[trigger] after.attrs.contains(("style"@, v)) <==> after.value
        == Some(v) by {}
    if given.len() == 0 {
        assert(given =~= Seq::<char>::empty());
    }
}

/// An element that sets all of a style reads the same when it is given that style.
proof fn lemma_complete(tag: TagView, style: Seq<char>)
    requires
        coherent(tag),
        merged(own_style(tag), style) == own_style(tag),
        own_style(tag).len() == 0 ==> tag.value is None,
    ensures
        same_tag(styled_tag(tag, style), tag),
{
    let given = own_style(tag);
    let after = styled_tag(tag, style);
    lemma_with_style_contains(tag.attrs, given);
    assert forall|x: Attribute| #[trigger] after.attrs.contains(x) <==> tag.attrs.contains(x) by {
        if x.0 == "style"@ {
            assert(x == ("style"@, x.1));
            assert(tag.attrs.contains(("style"@, x.1)) <==> tag.value == Some(x.1));
        }
    }
}

/// An element that a style changes reads otherwise when it is given that style.
proof fn lemma_changed(tag: TagView, style: Seq<char>)
    requires
        coherent(tag),
        merged(own_style(tag), style) != own_style(tag),
    ensures
        !same_attributes(styled_tag(tag, style).attrs, tag.attrs),
{
    let given = merged(own_style(tag), style);
    let after = styled_tag(tag, style);
    lemma_with_style_contains(tag.attrs, given);
    if same_attributes(after.attrs, tag.attrs) {
        if given.len() > 0 {
            assert(after.attrs.contains(("style"@, given)));
            assert(tag.attrs.contains(("style"@, given)));
        } else {
            assert(given =~= Seq::<char>::empty());
            let v = own_style(tag);
            assert(tag.attrs.contains(("style"@, v)));
            assert(after.attrs.contains(("style"@, v)));
        }
    }
}

proof fn lemma_same_tag_symmetric(a: TagView, b: TagView)
    requires
        same_tag(a, b),
    ensures
        same_tag(b, a),
{
    assert forall|x: Attribute| #[trigger] b.attrs.contains(x) <==> a.attrs.contains(x) by {
        assert(a.attrs.contains(x) <==> b.attrs.contains(x));
    }
}

/// Whoever reads as one of two elements that read the same, reads as the other.
proof fn lemma_reads_as_same(part: TokenView, a: TagView, b: TagView)
    requires
        reads_as(part, a),
    ensures
        reads_as(part, b) <==> same_tag(a, b),
{
    let (_, attrs) = part.tag->0;
    if reads_as(part, b) {
        assert forall|x: Attribute| #[trigger] a.attrs.contains(x) <==> b.attrs.contains(x) by {
            assert(attrs.contains(x) <==> a.attrs.contains(x));
            assert(attrs.contains(x) <==> b.attrs.contains(x));
        }
    }
    if same_tag(a, b) {
        assert forall|x: Attribute| #[trigger] attrs.contains(x) <==> b.attrs.contains(x) by {
            assert(a.attrs.contains(x) <==> b.attrs.contains(x));
        }
    }
}

proof fn lemma_present_same(parts: Seq<TokenView>, a: TagView, b: TagView)
    requires
        present(parts, a),
        same_tag(a, b),
    ensures
        present(parts, b),
{
    let k = choose|k: int| 0 <= k < parts.len() && reads_as(#[trigger] parts[k], a);
    lemma_reads_as_same(parts[k], a, b);
    assert(reads_as(parts[k], b));
}

/// A tag that stands in the text is given its style there: one that reads as it becomes one
/// that reads as it with the style, and nothing else is touched.
pub proof fn law_style_given(parts: Seq<TokenView>, tag: TagView, style: Seq<char>)
    requires
        present(parts, tag),
    ensures
        ({
            let after = restyled(parts, tag, style);
            exists|k: int| #![trigger parts[k]]
                0 <= k < parts.len() && reads_as(parts[k], tag) && reads_as(
                    after[k],
                    styled_tag(tag, style),
                ) && after == parts.update(k, after[k])
        }),
        present(restyled(parts, tag, style), styled_tag(tag, style)),
{
    let next = styled_tag(tag, style);
    let after = restyled(parts, tag, style);
    lemma_pending_from(parts, tag, next, 0);
    let some = choose|k: int| 0 <= k < parts.len() && reads_as(#[trigger] parts[k], tag);
    if next.attrs != tag.attrs && pending_from(parts, tag, next, 0) is Some {
        let k = pending_from(parts, tag, next, 0)->0;
        assert(after[k] == styled_token(parts[k].text, next));
        assert(reads_as(after[k], next));
        assert(after =~= parts.update(k, after[k]));
        assert(reads_as(parts[k], tag));
    } else {
        assert(after == parts);
        if next.attrs != tag.attrs {
            assert(!pending(parts[some], tag, next));
            lemma_same_tag_symmetric(next, tag);
        }
        lemma_reads_as_same(parts[some], tag, next);
        assert(reads_as(after[some], next));
        assert(parts.update(some, parts[some]) =~= parts);
    }
}

/// A tag stays in the text when others are given a style, or those that have it.
proof fn lemma_present_kept(
    parts: Seq<TokenView>,
    kept: TagView,
    tag: TagView,
    style: Seq<char>,
)
    requires
        present(parts, kept),
        same_tag(kept, tag) ==> same_tag(styled_tag(tag, style), tag),
    ensures
        present(restyled(parts, tag, style), kept),
{
    let next = styled_tag(tag, style);
    lemma_pending_from(parts, tag, next, 0);
    let k = choose|k: int| 0 <= k < parts.len() && reads_as(#[trigger] parts[k], kept);
    let after = restyled(parts, tag, style);
    if next.attrs != tag.attrs && pending_from(parts, tag, next, 0) == Some(k) {
        lemma_reads_as_same(parts[k], kept, tag);
        let part = styled_token(parts[k].text, next);
        assert(after[k] == part);
        assert(reads_as(part, next));
        lemma_reads_as_same(part, next, tag);
        lemma_same_tag_symmetric(kept, tag);
        lemma_reads_as_same(part, tag, kept);
    } else {
        assert(after[k] == parts[k]);
    }
    assert(reads_as(after[k], kept));
}

proof fn lemma_present_kept_by_all(
    parts: Seq<TokenView>,
    kept: TagView,
    tags: Seq<TagView>,
    style: Seq<char>,
)
    requires
        present(parts, kept),
        forall|i: int|
            0 <= i < tags.len() && same_tag(kept, #[trigger] tags[i]) ==> same_tag(
                styled_tag(tags[i], style),
                tags[i],
            ),
    ensures
        present(restyled_all(parts, tags, style), kept),
    decreases tags.len(),
{
    if tags.len() > 0 {
        let rest = tags.skip(1);
        assert(same_tag(kept, tags[0]) ==> same_tag(styled_tag(tags[0], style), tags[0]));
        lemma_present_kept(parts, kept, tags[0], style);
        assert forall|i: int|
            0 <= i < rest.len() && same_tag(kept, #[trigger] rest[i]) implies same_tag(
            styled_tag(rest[i], style),
            rest[i],
        ) by {
            assert(rest[i] == tags[i + 1]);
        }
        lemma_present_kept_by_all(restyled(parts, tags[0], style), kept, rest, style);
    }
}

/// Elements that a rule can style: their styles can be written, and are those of their
/// attributes.
pub open spec fn stylable(tags: Seq<TagView>) -> bool {
    forall|i: int|
        0 <= i < tags.len() ==> coherent(#[trigger] tags[i]) && holds_writable(own_style(tags[i]))
}

/// Every element that a rule selects, and that some tag of the text reads as, is given the
/// style of the rule: a tag of the result reads as it with what it sets itself and the style
/// merged.
pub proof fn law_selected_styled(
    parts: Seq<TokenView>,
    tags: Seq<TagView>,
    style: Seq<char>,
    i: int,
)
    requires
        0 <= i < tags.len(),
        stylable(tags),
        holds_writable(style),
        present(parts, tags[i]),
    ensures
        present(restyled_all(parts, tags, style), styled_tag(tags[i], style)),
        own_style(styled_tag(tags[i], style)) == merged(own_style(tags[i]), style),
    decreases tags.len(),
{
    let tag = tags[i];
    let first = tags[0];
    let rest = tags.skip(1);
    let next = restyled(parts, first, style);
    assert(coherent(tag) && coherent(first) && holds_writable(own_style(tag)));
    lemma_styled_coherent(tag, style);
    assert forall|j: int| 0 <= j < rest.len() implies coherent(#[trigger] rest[j])
        && holds_writable(own_style(rest[j])) by {
        assert(rest[j] == tags[j + 1]);
    }
    if same_tag(tag, first) {
        lemma_present_same(parts, tag, first);
        law_style_given(parts, first, style);
        let after = styled_tag(tag, style);
        lemma_same_tag_symmetric(tag, first);
        lemma_same_styled(first, tag, style);
        lemma_present_same(next, styled_tag(first, style), after);
        assert forall|j: int|
            0 <= j < rest.len() && same_tag(after, #[trigger] rest[j]) implies same_tag(
            styled_tag(rest[j], style),
            rest[j],
        ) by {
            assert(coherent(rest[j]));
            lemma_same_style(after, rest[j]);
            law_merging_twice(own_style(tag), style);
            lemma_complete(rest[j], style);
        }
        lemma_present_kept_by_all(next, after, rest, style);
    } else {
        lemma_present_kept(parts, tag, first, style);
        assert(rest[i - 1] == tag);
        law_selected_styled(next, rest, style, i - 1);
    }
}

/// How many of `parts` read as `tag`.
pub open spec fn occurrences(parts: Seq<TokenView>, tag: TagView) -> nat
    decreases parts.len(),
{
    if parts.len() == 0 {
        0
    } else {
        occurrences(parts.drop_last(), tag) + if reads_as(parts.last(), tag) {
            1nat
        } else {
            0
        }
    }
}

/// How many of `tags` read the same as `tag`.
pub open spec fn times(tags: Seq<TagView>, tag: TagView) -> nat
    decreases tags.len(),
{
    if tags.len() == 0 {
        0
    } else {
        times(tags.skip(1), tag) + if same_tag(tags[0], tag) {
            1nat
        } else {
            0
        }
    }
}

proof fn lemma_occurrences_update(parts: Seq<TokenView>, k: int, part: TokenView, tag: TagView)
    requires
        0 <= k < parts.len(),
    ensures
        occurrences(parts.update(k, part), tag) + if reads_as(parts[k], tag) {
            1int
        } else {
            0
        } == occurrences(parts, tag) + if reads_as(part, tag) {
            1int
        } else {
            0
        },
    decreases parts.len(),
{
    let after = parts.update(k, part);
    if k == parts.len() - 1 {
        assert(after.drop_last() =~= parts.drop_last());
    } else {
        lemma_occurrences_update(parts.drop_last(), k, part, tag);
        assert(after.drop_last() =~= parts.drop_last().update(k, part));
    }
}

proof fn lemma_no_occurrence(parts: Seq<TokenView>, tag: TagView)
    ensures
        occurrences(parts, tag) == 0 <==> !present(parts, tag),
    decreases parts.len(),
{
    if parts.len() > 0 {
        let front = parts.drop_last();
        lemma_no_occurrence(front, tag);
        if present(front, tag) {
            let k = choose|k: int| 0 <= k < front.len() && reads_as(#[trigger] front[k], tag);
            assert(reads_as(parts[k], tag));
        }
        if reads_as(parts.last(), tag) {
            assert(reads_as(parts[parts.len() - 1], tag));
        }
        if present(parts, tag) {
            let k = choose|k: int| 0 <= k < parts.len() && reads_as(#[trigger] parts[k], tag);
            if k < front.len() {
                assert(reads_as(front[k], tag));
            }
        }
    }
}

/// What a rule makes of an element is nothing that the rule would change.
proof fn lemma_styled_is_other(from: TagView, tag: TagView, style: Seq<char>)
    requires
        coherent(from),
        coherent(tag),
        holds_writable(own_style(from)),
        holds_writable(style),
        merged(own_style(tag), style) != own_style(tag),
    ensures
        !same_tag(styled_tag(from, style), tag),
{
    lemma_styled_coherent(from, style);
    if same_tag(styled_tag(from, style), tag) {
        lemma_same_style(styled_tag(from, style), tag);
        law_merging_twice(own_style(from), style);
    }
}

/// No tag of the text is left without the style of a rule that selected it: where the rule
/// selects an element as often as the text has it, no tag is left that reads as it did.
pub proof fn law_none_left(
    parts: Seq<TokenView>,
    tags: Seq<TagView>,
    style: Seq<char>,
    tag: TagView,
)
    requires
        stylable(tags),
        coherent(tag),
        holds_writable(style),
        merged(own_style(tag), style) != own_style(tag),
        occurrences(parts, tag) <= times(tags, tag),
    ensures
        !present(restyled_all(parts, tags, style), tag),
    decreases tags.len(),
{
    lemma_no_occurrence(parts, tag);
    if tags.len() > 0 {
        let first = tags[0];
        let rest = tags.skip(1);
        let next = restyled(parts, first, style);
        assert(coherent(first) && holds_writable(own_style(first)));
        assert forall|j: int| 0 <= j < rest.len() implies coherent(#[trigger] rest[j])
            && holds_writable(own_style(rest[j])) by {
            assert(rest[j] == tags[j + 1]);
        }
        let after = styled_tag(first, style);
        lemma_pending_from(parts, first, after, 0);
        if same_tag(first, tag) {
            lemma_same_style(first, tag);
            lemma_changed(first, style);
        }
        match pending_from(parts, first, after, 0) {
            Some(k) => {
                let part = styled_token(parts[k].text, after);
                lemma_occurrences_update(parts, k, part, tag);
                lemma_reads_as_same(parts[k], first, tag);
                lemma_styled_is_other(first, tag, style);
                assert(reads_as(part, after));
                lemma_reads_as_same(part, after, tag);
            },
            None => {
                if same_tag(first, tag) && present(parts, tag) {
                    let k = choose|k: int| 0 <= k < parts.len() && reads_as(#[trigger] parts[k], tag);
                    lemma_same_tag_symmetric(first, tag);
                    lemma_reads_as_same(parts[k], tag, first);
                    assert(pending(parts[k], first, after));
                }
            },
        }
        law_none_left(next, rest, style, tag);
    }
}

/// The elements of different rules have different names.
pub open spec fn names_apart(selections: Seq<Option<Seq<TagView>>>) -> bool {
    forall|a: int, b: int, i: int, j: int|
        0 <= a < b < selections.len() && (#[trigger] selections[a]) is Some && (
        #[trigger] selections[b]) is Some && 0 <= i < selections[a]->0.len() && 0 <= j
            < selections[b]->0.len() ==> (#[trigger] selections[a]->0[i]).name != (
        #[trigger] selections[b]->0[j]).name
}

proof fn lemma_names_apart_rest(selections: Seq<Option<Seq<TagView>>>)
    requires
        names_apart(selections),
        selections.len() > 0,
    ensures
        names_apart(selections.skip(1)),
{
    let rest = selections.skip(1);
    assert forall|a: int, b: int, i: int, j: int|
        0 <= a < b < rest.len() && (#[trigger] rest[a]) is Some && (#[trigger] rest[b]) is Some && 0
            <= i < rest[a]->0.len() && 0 <= j < rest[b]->0.len() implies (
    #[trigger] rest[a]->0[i]).name != (#[trigger] rest[b]->0[j]).name by {
        assert(rest[a] == selections[a + 1]);
        assert(rest[b] == selections[b + 1]);
        assert(selections[a + 1]->0[i].name != selections[b + 1]->0[j].name);
    }
}

proof fn lemma_kept_by_rules(
    parts: Seq<TokenView>,
    kept: TagView,
    selections: Seq<Option<Seq<TagView>>>,
    styles: Seq<Seq<char>>,
)
    requires
        present(parts, kept),
        forall|r: int, j: int|
            0 <= r < selections.len() && (#[trigger] selections[r]) is Some && 0 <= j
                < selections[r]->0.len() ==> (#[trigger] selections[r]->0[j]).name != kept.name,
    ensures
        present(styled(parts, selections, styles), kept),
    decreases styles.len(),
{
    if selections.len() > 0 && styles.len() > 0 {
        let rest = selections.skip(1);
        let next = match selections[0] {
            Some(tags) => restyled_all(parts, tags, styles[0]),
            None => parts,
        };
        if let Some(tags) = selections[0] {
            assert forall|j: int| 0 <= j < tags.len() implies !same_tag(
                kept,
                #[trigger] tags[j],
            ) by {
                assert(selections[0]->0[j].name != kept.name);
            }
            lemma_present_kept_by_all(parts, kept, tags, styles[0]);
        }
        assert forall|r: int, j: int|
            0 <= r < rest.len() && (#[trigger] rest[r]) is Some && 0 <= j
                < rest[r]->0.len() implies (#[trigger] rest[r]->0[j]).name != kept.name by {
            assert(rest[r] == selections[r + 1]);
            assert(selections[r + 1]->0[j].name != kept.name);
        }
        lemma_kept_by_rules(next, kept, rest, styles.skip(1));
    }
}

/// Of all the rules together: every selected element that some tag of the text reads as is
/// given the style of its rule, and has it in the result.
pub proof fn law_all_styled(
    parts: Seq<TokenView>,
    selections: Seq<Option<Seq<TagView>>>,
    styles: Seq<Seq<char>>,
    r: int,
    i: int,
)
    requires
        0 <= r < selections.len(),
        r < styles.len(),
        selections[r] is Some,
        0 <= i < selections[r]->0.len(),
        stylable(selections[r]->0),
        holds_writable(styles[r]),
        names_apart(selections),
        present(parts, selections[r]->0[i]),
    ensures
        present(
            styled(parts, selections, styles),
            styled_tag(selections[r]->0[i], styles[r]),
        ),
        own_style(styled_tag(selections[r]->0[i], styles[r])) == merged(
            own_style(selections[r]->0[i]),
            styles[r],
        ),
    decreases r,
{
    let tag = selections[r]->0[i];
    let rest = selections.skip(1);
    let next = match selections[0] {
        Some(tags) => restyled_all(parts, tags, styles[0]),
        None => parts,
    };
    if r == 0 {
        let after = styled_tag(tag, styles[0]);
        law_selected_styled(parts, selections[0]->0, styles[0], i);
        assert forall|q: int, j: int|
            0 <= q < rest.len() && (#[trigger] rest[q]) is Some && 0 <= j
                < rest[q]->0.len() implies (#[trigger] rest[q]->0[j]).name != after.name by {
            assert(rest[q] == selections[q + 1]);
            assert(selections[0]->0[i].name != selections[q + 1]->0[j].name);
        }
        lemma_kept_by_rules(next, after, rest, styles.skip(1));
    } else {
        if let Some(tags) = selections[0] {
            assert forall|j: int| 0 <= j < tags.len() implies !same_tag(tag, #[trigger] tags[j]) by {
                assert(selections[0]->0[j].name != selections[r]->0[i].name);
            }
            lemma_present_kept_by_all(parts, tag, tags, styles[0]);
        }
        lemma_names_apart_rest(selections);
        assert(rest[r - 1] == selections[r]);
        assert(styles.skip(1)[r - 1] == styles[r]);
        law_all_styled(next, rest, styles.skip(1), r - 1, i);
    }
}

/// An element that was given the style of a rule is left alone by that rule.
pub proof fn law_restyling_twice(parts: Seq<TokenView>, tag: TagView, style: Seq<char>)
    requires
        holds_writable(own_style(tag)),
        holds_writable(style),
    ensures
        restyled(parts, styled_tag(tag, style), style) == parts,
{
    let given = merged(own_style(tag), style);
    lemma_styled_coherent(tag, style);
    law_merging_twice(own_style(tag), style);
    law_other_attributes_kept(tag.attrs, given);
}

/// An element whose tag is written in a text is found there.
pub proof fn law_written_tag_present(tag: TagView, rest: Seq<char>)
    requires
        tag_name(tag.name),
        attributes_writable(tag.attrs),
    ensures
        found(tokens(tag_text(tag.name, tag.attrs) + rest), tag) == Some(0int),
        present(tokens(tag_text(tag.name, tag.attrs) + rest), tag),
{
    law_tag_read_back(tag.name, tag.attrs, rest);
    let parts = tokens(tag_text(tag.name, tag.attrs) + rest);
    reveal_strlit("<");
    assert(parts.len() > 0 && parts[0].tag == Some((tag.name, tag.attrs)));
    assert(reads_as(parts[0], tag));
}

// ---------------------------------------------------------------------------
// The styling of a single element
// ---------------------------------------------------------------------------

/// The closing tag of the element `name`.
pub open spec fn closing_text(name: Seq<char>) -> Seq<char> {
    "</"@ + name + ">"@
}

proof fn lemma_text_of_update(parts: Seq<TokenView>, part: TokenView)
    requires
        parts.len() > 0,
    ensures
        text_of(parts.update(0, part)) == part.text + text_of(parts.skip(1)),
{
    assert(parts.update(0, part).skip(1) =~= parts.skip(1));
}

/// Where one rule selects one element and the others none, that element is styled.
proof fn lemma_one_selected(
    parts: Seq<TokenView>,
    selections: Seq<Option<Seq<TagView>>>,
    styles: Seq<Seq<char>>,
    r: int,
    tag: TagView,
)
    requires
        only_selected(selections, r, tag),
        r < styles.len(),
    ensures
        styled(parts, selections, styles) == restyled(parts, tag, styles[r]),
    decreases r,
{
    let rest = selections.skip(1);
    if r == 0 {
        reveal_with_fuel(restyled_all, 3);
        assert(seq![tag].skip(1) =~= Seq::<TagView>::empty());
        let next = restyled(parts, tag, styles[0]);
        assert(restyled_all(parts, seq![tag], styles[0]) == next);
        assert forall|i: int| 0 <= i < rest.len() implies ((#[trigger] rest[i]) matches Some(tags)
            ==> tags.len() == 0) by {
            assert(rest[i] == selections[i + 1]);
        }
        law_nothing_selected(next, rest, styles.skip(1));
    } else {
        assert(selections[0] matches Some(tags) ==> tags.len() == 0);
        assert(rest[r - 1] == selections[r]);
        assert forall|i: int| 0 <= i < rest.len() && i != r - 1 implies ((
        #[trigger] rest[i]) matches Some(tags) ==> tags.len() == 0) by {
            assert(rest[i] == selections[i + 1]);
        }
        lemma_one_selected(parts, rest, styles.skip(1), r - 1, tag);
        assert(styles.skip(1)[r - 1] == styles[r]);
    }
}

/// The selection at `r` is `tag` alone, and the others are empty.
pub open spec fn only_selected(
    selections: Seq<Option<Seq<TagView>>>,
    r: int,
    tag: TagView,
) -> bool {
    &&& 0 <= r < selections.len()
    &&& selections[r] == Some(seq![tag])
    &&& forall|i: int|
        0 <= i < selections.len() && i != r ==> ((#[trigger] selections[i]) matches Some(tags)
            ==> tags.len() == 0)
}

/// An element whose tag is written in a text, and that one rule selects, is given the style of
/// the rule, with its other attributes as they were, and the rest of the text is not touched.
pub proof fn law_written_element_styled(
    tag: TagView,
    rest: Seq<char>,
    selections: Seq<Option<Seq<TagView>>>,
    styles: Seq<Seq<char>>,
    r: int,
)
    requires
        tag_name(tag.name),
        attributes_writable(tag.attrs),
        only_selected(selections, r, tag),
        r < styles.len(),
        attributes_writable(styled_tag(tag, styles[r]).attrs),
    ensures
        ({
            let after = styled_tag(tag, styles[r]);
            styled_text(tag_text(tag.name, tag.attrs) + rest, selections, styles) == tag_text(
                after.name,
                after.attrs,
            ) + rest
        }),
{
    let text = tag_text(tag.name, tag.attrs);
    let html = text + rest;
    let parts = tokens(html);
    let after = styled_tag(tag, styles[r]);
    reveal_strlit("<");
    law_written_tag_present(tag, rest);
    law_tag_read_back(tag.name, tag.attrs, rest);
    law_tokens_cover(html);
    assert(html.subrange(0, text.len() as int) =~= text);
    assert(parts[0].text == text);
    assert(text_of(parts) == parts[0].text + text_of(parts.skip(1)));
    assert(text_of(parts.skip(1)) =~= rest) by {
        assert(text_of(parts.skip(1)) =~= html.skip(text.len() as int));
    }
    lemma_one_selected(parts, selections, styles, r, tag);
    let none = Seq::<char>::empty();
    lemma_styled_coherent(tag, styles[r]);
    law_written_tag_respelled(tag.name, tag.attrs, own_style(after));
    let text_after = tag_text(after.name, after.attrs);
    assert(styled_opening(text, after) == text_after);
    assert(reads_as(parts[0], tag));
    if after.attrs != tag.attrs {
        law_tag_read_back(tag.name, tag.attrs, none);
        law_tag_read_back(after.name, after.attrs, none);
        assert(text != text_after);
        assert(pending(parts[0], tag, after));
        assert(pending_from(parts, tag, after, 0) == Some(0int));
        lemma_text_of_update(parts, styled_token(text, after));
    }
}

/// The names and the styles of the rules are such that a tag can be written with them.
proof fn lemma_rules(r: int)
    requires
        0 <= r < style_rules().len(),
    ensures
        tag_name(style_rules()[r].0),
        rule_styles()[r] == style_rules()[r].1,
        rule_styles().len() == style_rules().len(),
{
    reveal_strlit("p");
    reveal_strlit("h1");
    reveal_strlit("h2");
    reveal_strlit("h3");
    reveal_strlit("h4");
    reveal_strlit("table");
    reveal_strlit("th");
    reveal_strlit("td");
    reveal_strlit("img");
    reveal_strlit("strong");
    reveal_strlit("ul");
    reveal_strlit("ol");
    reveal_strlit("li");
    let name = style_rules()[r].0;
    assert(lower_name(name) =~= name);
}

/// Every style of the editor can stand in an attribute as it is, and sets something.
pub proof fn law_rule_styles_simple(r: int)
    requires
        0 <= r < rule_styles().len(),
    ensures
        all_simple(rule_styles()[r]),
        rule_styles()[r].contains(':'),
{
    lemma_simple_text_styles();
    lemma_simple_heading_styles();
    lemma_simple_table_styles();
    lemma_simple_list_styles();
}

proof fn lemma_has(s: Seq<char>, i: int)
    requires
        0 <= i < s.len(),
    ensures
        s.contains(s[i]),
{
}

proof fn lemma_simple_text_styles()
    ensures
        all_simple(S_P@),
        S_P@.contains(':'),
        all_simple(S_STRONG@),
        S_STRONG@.contains(':'),
        all_simple(S_IMG@),
        S_IMG@.contains(':'),
{
    reveal_strlit(
        "font-size:14px; line-height:1.8; margin:6px 0; \
     font-family:Microsoft YaHei,SimSun,Arial,sans-serif; color:#333",
    );
    reveal_strlit(
        "font-weight:bold; color:#222",
    );
    reveal_strlit(
        "max-width:100%; height:auto; display:block; margin:10px auto",
    );
    assert(all_simple(S_P@));
    lemma_has(S_P@, 9);
    assert(all_simple(S_STRONG@));
    lemma_has(S_STRONG@, 11);
    assert(all_simple(S_IMG@));
    lemma_has(S_IMG@, 9);
}

proof fn lemma_simple_heading_styles()
    ensures
        all_simple(S_H1@),
        S_H1@.contains(':'),
        all_simple(S_H2@),
        S_H2@.contains(':'),
        all_simple(S_H3@),
        S_H3@.contains(':'),
        all_simple(S_H4@),
        S_H4@.contains(':'),
{
    reveal_strlit(
        "font-size:20px; font-weight:bold; text-align:center; \
     letter-spacing:2px; margin:16px 0 10px; \
     font-family:Microsoft YaHei,SimSun,Arial,sans-serif; color:#222",
    );
    reveal_strlit(
        "font-size:17px; font-weight:bold; margin:14px 0 8px; \
     border-left:4px solid #1a73e8; padding-left:10px; \
     font-family:Microsoft YaHei,SimSun,Arial,sans-serif; color:#222",
    );
    reveal_strlit(
        "font-size:15px; font-weight:bold; margin:10px 0 6px; \
     font-family:Microsoft YaHei,SimSun,Arial,sans-serif; color:#333",
    );
    reveal_strlit(
        "font-size:14px; font-weight:bold; margin:8px 0 4px; \
     font-family:Microsoft YaHei,SimSun,Arial,sans-serif; color:#333",
    );
    assert(all_simple(S_H1@));
    lemma_has(S_H1@, 9);
    assert(all_simple(S_H2@));
    lemma_has(S_H2@, 9);
    assert(all_simple(S_H3@));
    lemma_has(S_H3@, 9);
    assert(all_simple(S_H4@));
    lemma_has(S_H4@, 9);
}

proof fn lemma_simple_table_styles()
    ensures
        all_simple(S_TABLE@),
        S_TABLE@.contains(':'),
        all_simple(S_TH@),
        S_TH@.contains(':'),
        all_simple(S_TD@),
        S_TD@.contains(':'),
{
    reveal_strlit(
        "border-collapse:collapse; width:100%; margin:12px 0; \
     font-size:13px; font-family:Microsoft YaHei,SimSun,Arial,sans-serif",
    );
    reveal_strlit(
        "border:1px solid #ccc; padding:7px 10px; \
     background-color:#f5f5f5; font-weight:bold; \
     text-align:center; color:#333",
    );
    reveal_strlit(
        "border:1px solid #ccc; padding:6px 10px; \
     vertical-align:top; color:#333",
    );
    assert(all_simple(S_TABLE@));
    lemma_has(S_TABLE@, 15);
    assert(all_simple(S_TH@));
    lemma_has(S_TH@, 6);
    assert(all_simple(S_TD@));
    lemma_has(S_TD@, 6);
}

proof fn lemma_simple_list_styles()
    ensures
        all_simple(S_UL@),
        S_UL@.contains(':'),
        all_simple(S_OL@),
        S_OL@.contains(':'),
        all_simple(S_LI@),
        S_LI@.contains(':'),
{
    reveal_strlit(
        "margin:6px 0; padding-left:24px; \
     font-size:14px; line-height:1.8; color:#333",
    );
    reveal_strlit(
        "margin:3px 0; font-size:14px; line-height:1.8; color:#333",
    );
    assert(all_simple(S_UL@));
    lemma_has(S_UL@, 6);
    assert(all_simple(S_OL@));
    lemma_has(S_OL@, 6);
    assert(all_simple(S_LI@));
    lemma_has(S_LI@, 6);
}

/// How an element with no attribute, or with a simple style, is written.
proof fn lemma_element_texts(name: Seq<char>, style: Seq<char>, content: Seq<char>)
    requires
        written(style) == style,
    ensures
        tag_text(name, Seq::empty()) + content + closing_text(name) == "<"@ + name + ">"@ + content
            + "</"@ + name + ">"@,
        tag_text(name, seq![("style"@, style)]) + content + closing_text(name) == "<"@ + name
            + " style=\""@ + style + "\">"@ + content + "</"@ + name + ">"@,
{
    reveal_strlit(" style=\"");
    reveal_strlit("style");
    reveal_strlit(" ");
    reveal_strlit("=\"");
    reveal_strlit("\"");
    reveal_strlit("\">");
    reveal_strlit(">");
    let one = seq![("style"@, style)];
    let texts = one.map_values(|a: Attribute| attribute_text(a));
    assert(texts[0] == attribute_text(one[0]));
    assert(" style=\""@ =~= " "@ + "style"@ + "=\""@);
    assert("\">"@ =~= "\""@ + ">"@);
    assert(tag_text(name, Seq::empty()) + content + closing_text(name) =~= "<"@ + name + ">"@
        + content + "</"@ + name + ">"@);
    assert(tag_text(name, one) + content + closing_text(name) =~= "<"@ + name + " style=\""@ + style
        + "\">"@ + content + "</"@ + name + ">"@);
}

/// A bare element of the editor is given the style of its rule in full, whatever it holds; and
/// once it has that style, it is left alone.
pub proof fn law_bare_element_styled(
    r: int,
    content: Seq<char>,
    selections: Seq<Option<Seq<TagView>>>,
    again: Seq<Option<Seq<TagView>>>,
)
    requires
        0 <= r < style_rules().len(),
        only_selected(
            selections,
            r,
            TagView { name: style_rules()[r].0, attrs: Seq::empty(), value: None },
        ),
        only_selected(
            again,
            r,
            TagView {
                name: style_rules()[r].0,
                attrs: seq![("style"@, merged(""@, style_rules()[r].1))],
                value: Some(merged(""@, style_rules()[r].1)),
            },
        ),
    ensures
        ({
            let name = style_rules()[r].0;
            let bare = "<"@ + name + ">"@ + content + "</"@ + name + ">"@;
            let full = "<"@ + name + " style=\""@ + merged(""@, style_rules()[r].1) + "\">"@
                + content + "</"@ + name + ">"@;
            &&& styled_text(bare, selections, rule_styles()) == full
            &&& styled_text(full, again, rule_styles()) == full
        }),
{
    let (name, style) = style_rules()[r];
    let given = merged(""@, style);
    let none = Seq::<Attribute>::empty();
    let one = seq![("style"@, given)];
    let tag = TagView { name, attrs: none, value: None };
    let after = TagView { name, attrs: one, value: Some(given) };
    lemma_rules(r);
    law_rule_styles_simple(r);
    reveal_strlit("");
    law_simple_merged(""@, style);
    law_simple_writable(""@);
    law_simple_writable(style);
    law_merged_not_empty(""@, style);
    law_merging_twice(""@, style);
    assert(own_style(tag) =~= ""@);
    assert(own_style(after) == given);
    assert(styled_tag(tag, style) == after) by {
        assert(with_style(none, given) =~= one);
    }
    law_merging_twice(""@, style);
    assert(styled_tag(after, style) == after) by {
        reveal_with_fuel(without_style, 2);
        assert(one.drop_last() =~= none);
        assert(with_style(one, given) =~= one);
    }
    reveal_strlit("style");
    assert(lower_name("style"@) =~= "style"@);
    assert forall|i: int| 0 <= i < given.len() implies (#[trigger] given[i]) != '&' && given[i]
        != '"' && given[i] != '\r' && given[i] != '\0' by {
        assert(simple(given[i]));
    }
    law_plain_value_stays(given);
    assert forall|i: int| 0 <= i < given.len() implies #[trigger] given[i] != '\r' && given[i]
        != '\0' by {
        assert(simple(given[i]));
    }
    let rest = content + closing_text(name);
    law_written_element_styled(tag, rest, selections, rule_styles(), r);
    law_written_element_styled(after, rest, again, rule_styles(), r);
    assert(tag_text(name, none) + rest =~= tag_text(name, none) + content + closing_text(name));
    assert(tag_text(name, one) + rest =~= tag_text(name, one) + content + closing_text(name));
    lemma_element_texts(name, given, content);
}

// ---------------------------------------------------------------------------
// The inline styles of a text
// ---------------------------------------------------------------------------

/// Giving an element a style changes no part but tags with its name, and those keep it.
proof fn lemma_restyled_shape(parts: Seq<TokenView>, tag: TagView, style: Seq<char>, k: int)
    requires
        0 <= k < parts.len(),
    ensures
        restyled(parts, tag, style).len() == parts.len(),
        restyled(parts, tag, style)[k] == parts[k] || (parts[k].tag is Some && (parts[k].tag->0).0
            == tag.name && restyled(parts, tag, style)[k].tag is Some && (restyled(
            parts,
            tag,
            style,
        )[k].tag->0).0 == tag.name),
{
    lemma_pending_from(parts, tag, styled_tag(tag, style), 0);
}

proof fn lemma_all_shape(
    parts: Seq<TokenView>,
    tags: Seq<TagView>,
    style: Seq<char>,
    names: Set<Seq<char>>,
    k: int,
)
    requires
        0 <= k < parts.len(),
        forall|j: int| 0 <= j < tags.len() ==> names.contains((#[trigger] tags[j]).name),
    ensures
        restyled_all(parts, tags, style).len() == parts.len(),
        same_place(parts[k], restyled_all(parts, tags, style)[k], names),
    decreases tags.len(),
{
    if tags.len() > 0 {
        let rest = tags.skip(1);
        let next = restyled(parts, tags[0], style);
        assert(names.contains(tags[0].name));
        lemma_restyled_shape(parts, tags[0], style, k);
        assert forall|j: int| 0 <= j < rest.len() implies names.contains((#[trigger] rest[j]).name) by {
            assert(rest[j] == tags[j + 1]);
        }
        lemma_all_shape(next, rest, style, names, k);
    }
}

/// The two parts are the same, or are opening tags with the same name, which is one of `names`.
pub open spec fn same_place(a: TokenView, b: TokenView, names: Set<Seq<char>>) -> bool {
    a == b || (a.tag is Some && b.tag is Some && (a.tag->0).0 == (b.tag->0).0 && names.contains(
        (a.tag->0).0,
    ))
}

/// Every selected element has one of `names`.
pub open spec fn all_named(selections: Seq<Option<Seq<TagView>>>, names: Set<Seq<char>>) -> bool {
    forall|r: int, j: int|
        0 <= r < selections.len() && (#[trigger] selections[r]) is Some && 0 <= j
            < selections[r]->0.len() ==> names.contains((#[trigger] selections[r]->0[j]).name)
}

proof fn lemma_styled_shape(
    parts: Seq<TokenView>,
    selections: Seq<Option<Seq<TagView>>>,
    styles: Seq<Seq<char>>,
    names: Set<Seq<char>>,
    k: int,
)
    requires
        0 <= k < parts.len(),
        all_named(selections, names),
    ensures
        styled(parts, selections, styles).len() == parts.len(),
        same_place(parts[k], styled(parts, selections, styles)[k], names),
    decreases styles.len(),
{
    if selections.len() > 0 && styles.len() > 0 {
        let rest = selections.skip(1);
        let next = match selections[0] {
            Some(tags) => restyled_all(parts, tags, styles[0]),
            None => parts,
        };
        if let Some(tags) = selections[0] {
            assert forall|j: int| 0 <= j < tags.len() implies names.contains(
                (#[trigger] tags[j]).name,
            ) by {
                assert(names.contains(selections[0]->0[j].name));
            }
            lemma_all_shape(parts, tags, styles[0], names, k);
        }
        assert forall|r: int, j: int|
            0 <= r < rest.len() && (#[trigger] rest[r]) is Some && 0 <= j
                < rest[r]->0.len() implies names.contains((#[trigger] rest[r]->0[j]).name) by {
            assert(rest[r] == selections[r + 1]);
            assert(names.contains(selections[r + 1]->0[j].name));
        }
        lemma_styled_shape(next, rest, styles.skip(1), names, k);
    }
}

/// The part, if it is an opening tag, is read alone as that tag.
pub open spec fn sound(part: TokenView) -> bool {
    part.tag matches Some((name, attrs)) ==> (opening_at(part.text, 0) matches Some((n, a, end)) && n
        == name && same_attributes(a, attrs) && end == part.text.len())
}

/// All opening tags among `parts` are read alone as those tags.
pub open spec fn all_sound(parts: Seq<TokenView>) -> bool {
    forall|k: int| 0 <= k < parts.len() ==> sound(#[trigger] parts[k])
}

proof fn lemma_without_style_writable(attrs: Seq<Attribute>)
    requires
        attributes_writable(attrs),
    ensures
        attributes_writable(without_style(attrs)),
    decreases attrs.len(),
{
    if attrs.len() > 0 {
        let front = attrs.drop_last();
        let last = attrs.last();
        let kept = without_style(front);
        assert forall|i: int| 0 <= i < front.len() implies attribute_name((#[trigger] front[i]).0)
            && !front[i].1.contains('\r') && !front[i].1.contains('\0') by {
            assert(front[i] == attrs[i]);
        }
        assert forall|i: int, j: int| 0 <= i < j < front.len() implies (#[trigger] front[i]).0 != (
        #[trigger] front[j]).0 by {
            assert(front[i] == attrs[i] && front[j] == attrs[j]);
        }
        lemma_without_style_writable(front);
        if last.0 != "style"@ {
            let all = kept.push(last);
            lemma_without_style_contains(front);
            assert(attrs[attrs.len() - 1] == last);
            assert(attribute_name(attrs[attrs.len() - 1].0));
            assert forall|i: int| 0 <= i < all.len() implies attribute_name((#[trigger] all[i]).0)
                && !all[i].1.contains('\r') && !all[i].1.contains('\0') by {
                if i < kept.len() {
                    assert(all[i] == kept[i]);
                }
            }
            assert forall|i: int, j: int| 0 <= i < j < all.len() implies (#[trigger] all[i]).0 != (
            #[trigger] all[j]).0 by {
                assert(all[i] == kept[i]);
                if j < kept.len() {
                    assert(all[j] == kept[j]);
                } else {
                    assert(kept.contains(kept[i]));
                    let m = choose|m: int| 0 <= m < front.len() && front[m] == kept[i];
                    assert(attrs[m].0 != attrs[attrs.len() - 1].0);
                }
            }
        }
    }
}

proof fn lemma_with_style_writable(attrs: Seq<Attribute>, style: Seq<char>)
    requires
        attributes_writable(attrs),
        !style.contains('\r'),
        !style.contains('\0'),
    ensures
        attributes_writable(with_style(attrs, style)),
{
    reveal_strlit("style");
    assert(lower_name("style"@) =~= "style"@);
    assert(attribute_name("style"@));
    lemma_without_style_writable(attrs);
    lemma_without_style_contains(attrs);
    let kept = without_style(attrs);
    let all = with_style(attrs, style);
    if style.len() > 0 {
        assert forall|i: int| 0 <= i < all.len() implies attribute_name((#[trigger] all[i]).0)
            && !all[i].1.contains('\r') && !all[i].1.contains('\0') by {
            if i < kept.len() {
                assert(all[i] == kept[i]);
            }
        }
        assert forall|i: int, j: int| 0 <= i < j < all.len() implies (#[trigger] all[i]).0 != (
        #[trigger] all[j]).0 by {
            assert(all[i] == kept[i]);
            if j < kept.len() {
                assert(all[j] == kept[j]);
            } else {
                assert(kept.contains(kept[i]));
            }
        }
    }
}

/// An element that can be written with a style: its attributes can, and so can what comes of its
/// own style and that one.
pub open spec fn restylable(tag: TagView, style: Seq<char>) -> bool {
    &&& tag_name(tag.name)
    &&& attributes_writable(tag.attrs)
    &&& coherent(tag)
    &&& holds_writable(own_style(tag))
    &&& !merged(own_style(tag), style).contains('\r')
    &&& !merged(own_style(tag), style).contains('\0')
}

proof fn lemma_restyled_sound(parts: Seq<TokenView>, tag: TagView, style: Seq<char>)
    requires
        restylable(tag, style),
        all_sound(parts),
    ensures
        all_sound(restyled(parts, tag, style)),
{
    let after = styled_tag(tag, style);
    let all = restyled(parts, tag, style);
    lemma_pending_from(parts, tag, after, 0);
    lemma_with_style_writable(tag.attrs, merged(own_style(tag), style));
    assert forall|k: int| 0 <= k < all.len() implies sound(#[trigger] all[k]) by {
        if all[k] != parts[k] {
            let opening = styled_opening(parts[k].text, after);
            law_styled_opening_reads(parts[k].text, after, Seq::empty());
            assert(opening + Seq::<char>::empty() =~= opening);
        }
    }
}

proof fn lemma_all_sound(parts: Seq<TokenView>, tags: Seq<TagView>, style: Seq<char>)
    requires
        forall|j: int| 0 <= j < tags.len() ==> restylable(#[trigger] tags[j], style),
        all_sound(parts),
    ensures
        all_sound(restyled_all(parts, tags, style)),
    decreases tags.len(),
{
    if tags.len() > 0 {
        let rest = tags.skip(1);
        assert(restylable(tags[0], style));
        lemma_restyled_sound(parts, tags[0], style);
        assert forall|j: int| 0 <= j < rest.len() implies restylable(#[trigger] rest[j], style) by {
            assert(rest[j] == tags[j + 1]);
        }
        lemma_all_sound(restyled(parts, tags[0], style), rest, style);
    }
}

/// Every selected element can be written with the style of its rule.
pub open spec fn all_restylable(
    selections: Seq<Option<Seq<TagView>>>,
    styles: Seq<Seq<char>>,
) -> bool {
    forall|r: int, j: int|
        0 <= r < selections.len() && r < styles.len() && (#[trigger] selections[r]) is Some && 0 <= j
            < selections[r]->0.len() ==> restylable(#[trigger] selections[r]->0[j], styles[r])
}

proof fn lemma_styled_sound(
    parts: Seq<TokenView>,
    selections: Seq<Option<Seq<TagView>>>,
    styles: Seq<Seq<char>>,
)
    requires
        all_restylable(selections, styles),
        all_sound(parts),
    ensures
        all_sound(styled(parts, selections, styles)),
    decreases styles.len(),
{
    if selections.len() > 0 && styles.len() > 0 {
        let rest = selections.skip(1);
        let less = styles.skip(1);
        let next = match selections[0] {
            Some(tags) => restyled_all(parts, tags, styles[0]),
            None => parts,
        };
        if let Some(tags) = selections[0] {
            assert forall|j: int| 0 <= j < tags.len() implies restylable(
                #[trigger] tags[j],
                styles[0],
            ) by {
                assert(restylable(selections[0]->0[j], styles[0]));
            }
            lemma_all_sound(parts, tags, styles[0]);
        }
        assert forall|r: int, j: int|
            0 <= r < rest.len() && r < less.len() && (#[trigger] rest[r]) is Some && 0 <= j
                < rest[r]->0.len() implies restylable(#[trigger] rest[r]->0[j], less[r]) by {
            assert(rest[r] == selections[r + 1]);
            assert(restylable(selections[r + 1]->0[j], styles[r + 1]));
        }
        lemma_styled_sound(next, rest, less);
    }
}

/// A rule does not change how often a tag stands in a text whose name it does not select.
proof fn lemma_other_rule(
    parts: Seq<TokenView>,
    tags: Seq<TagView>,
    style: Seq<char>,
    tag: TagView,
)
    requires
        forall|j: int| 0 <= j < tags.len() ==> (#[trigger] tags[j]).name != tag.name,
    ensures
        occurrences(restyled_all(parts, tags, style), tag) == occurrences(parts, tag),
    decreases tags.len(),
{
    if tags.len() > 0 {
        let rest = tags.skip(1);
        let after = styled_tag(tags[0], style);
        let next = restyled(parts, tags[0], style);
        assert(tags[0].name != tag.name);
        lemma_pending_from(parts, tags[0], after, 0);
        if after.attrs != tags[0].attrs {
            if let Some(k) = pending_from(parts, tags[0], after, 0) {
                lemma_occurrences_update(parts, k, styled_token(parts[k].text, after), tag);
            }
        }
        assert forall|j: int| 0 <= j < rest.len() implies (#[trigger] rest[j]).name != tag.name by {
            assert(rest[j] == tags[j + 1]);
        }
        lemma_other_rule(next, rest, style, tag);
    }
}

proof fn lemma_other_rules(
    parts: Seq<TokenView>,
    selections: Seq<Option<Seq<TagView>>>,
    styles: Seq<Seq<char>>,
    tag: TagView,
)
    requires
        forall|r: int, j: int|
            0 <= r < selections.len() && (#[trigger] selections[r]) is Some && 0 <= j
                < selections[r]->0.len() ==> (#[trigger] selections[r]->0[j]).name != tag.name,
    ensures
        occurrences(styled(parts, selections, styles), tag) == occurrences(parts, tag),
    decreases styles.len(),
{
    if selections.len() > 0 && styles.len() > 0 {
        let rest = selections.skip(1);
        let next = match selections[0] {
            Some(tags) => restyled_all(parts, tags, styles[0]),
            None => parts,
        };
        if let Some(tags) = selections[0] {
            assert forall|j: int| 0 <= j < tags.len() implies (#[trigger] tags[j]).name
                != tag.name by {
                assert(selections[0]->0[j].name != tag.name);
            }
            lemma_other_rule(parts, tags, styles[0], tag);
        }
        assert forall|r: int, j: int|
            0 <= r < rest.len() && (#[trigger] rest[r]) is Some && 0 <= j
                < rest[r]->0.len() implies (#[trigger] rest[r]->0[j]).name != tag.name by {
            assert(rest[r] == selections[r + 1]);
            assert(selections[r + 1]->0[j].name != tag.name);
        }
        lemma_other_rules(next, rest, styles.skip(1), tag);
    }
}

proof fn lemma_none_left_of_all(
    parts: Seq<TokenView>,
    selections: Seq<Option<Seq<TagView>>>,
    styles: Seq<Seq<char>>,
    r: int,
    tag: TagView,
)
    requires
        0 <= r < selections.len(),
        r < styles.len(),
        selections[r] is Some,
        stylable(selections[r]->0),
        holds_writable(styles[r]),
        coherent(tag),
        merged(own_style(tag), styles[r]) != own_style(tag),
        occurrences(parts, tag) <= times(selections[r]->0, tag),
        forall|a: int, j: int|
            0 <= a < selections.len() && a != r && (#[trigger] selections[a]) is Some && 0 <= j
                < selections[a]->0.len() ==> (#[trigger] selections[a]->0[j]).name != tag.name,
    ensures
        !present(styled(parts, selections, styles), tag),
    decreases r,
{
    let rest = selections.skip(1);
    let less = styles.skip(1);
    let next = match selections[0] {
        Some(tags) => restyled_all(parts, tags, styles[0]),
        None => parts,
    };
    if r == 0 {
        law_none_left(parts, selections[0]->0, styles[0], tag);
        assert forall|a: int, j: int|
            0 <= a < rest.len() && (#[trigger] rest[a]) is Some && 0 <= j
                < rest[a]->0.len() implies (#[trigger] rest[a]->0[j]).name != tag.name by {
            assert(rest[a] == selections[a + 1]);
            assert(selections[a + 1]->0[j].name != tag.name);
        }
        lemma_other_rules(next, rest, less, tag);
        lemma_no_occurrence(next, tag);
        lemma_no_occurrence(styled(next, rest, less), tag);
    } else {
        if let Some(tags) = selections[0] {
            assert forall|j: int| 0 <= j < tags.len() implies (#[trigger] tags[j]).name
                != tag.name by {
                assert(selections[0]->0[j].name != tag.name);
            }
            lemma_other_rule(parts, tags, styles[0], tag);
        }
        assert(rest[r - 1] == selections[r]);
        assert(less[r - 1] == styles[r]);
        assert forall|a: int, j: int|
            0 <= a < rest.len() && a != r - 1 && (#[trigger] rest[a]) is Some && 0 <= j
                < rest[a]->0.len() implies (#[trigger] rest[a]->0[j]).name != tag.name by {
            assert(rest[a] == selections[a + 1]);
            assert(selections[a + 1]->0[j].name != tag.name);
        }
        lemma_none_left_of_all(next, rest, less, r - 1, tag);
    }
}

proof fn lemma_rule_names_differ(a: int, b: int)
    requires
        0 <= a < b < style_rules().len(),
    ensures
        style_rules()[a].0 != style_rules()[b].0,
{
    reveal_strlit("p");
    reveal_strlit("h1");
    reveal_strlit("h2");
    reveal_strlit("h3");
    reveal_strlit("h4");
    reveal_strlit("table");
    reveal_strlit("th");
    reveal_strlit("td");
    reveal_strlit("img");
    reveal_strlit("strong");
    reveal_strlit("ul");
    reveal_strlit("ol");
    reveal_strlit("li");
    let x = style_rules()[a].0;
    let y = style_rules()[b].0;
    if x == y {
        assert(x.len() == y.len() && x[0] == y[0] && x[x.len() - 1] == y[y.len() - 1]);
        assert(false);
    }
}

/// The part is an opening tag with this name and just these attributes, in whatever order.
pub open spec fn stands_for(part: TokenView, name: Seq<char>, attrs: Seq<Attribute>) -> bool {
    part.tag matches Some((n, own)) && n == name && forall|x: Attribute| #[trigger]
        own.contains(x) <==> attrs.contains(x)
}

/// `parts` are those of `html`, in which a tag reads as the element at `i` of `tags` with its other
/// attributes, and with a style that is its own one, completed by that of the rule at `r`. Where
/// the element is selected as often as it stands in the text, no tag is left that reads as it did.
/// Parts that are no tags, and tags of which no rule speaks, are as they were; and every tag is
/// read alone as that tag.
pub open spec fn styled_parts(
    html: Seq<char>,
    rules: Seq<(Seq<char>, Seq<char>)>,
    r: int,
    tags: Seq<TagView>,
    i: int,
    parts: Seq<TokenView>,
) -> bool {
    &&& parts.len() == tokens(html).len()
    &&& forall|k: int|
        0 <= k < parts.len() ==> (#[trigger] parts[k]) == tokens(html)[k] || (
        tokens(html)[k].tag is Some && parts[k].tag is Some && (parts[k].tag->0).0 == (tokens(
            html,
        )[k].tag->0).0 && exists|a: int|
            0 <= a < rules.len() && (#[trigger] rules[a]).0 == (parts[k].tag->0).0)
    &&& forall|k: int|
        0 <= k < parts.len() && (#[trigger] parts[k]).tag is Some ==> (opening_at(
            parts[k].text,
            0,
        ) matches Some((name, attrs, end)) && stands_for(parts[k], name, attrs) && end
            == parts[k].text.len())
    &&& exists|k: int|
        0 <= k < parts.len() && (#[trigger] parts[k]).tag is Some && (parts[k].tag->0).0
            == tags[i].name && forall|x: Attribute| #[trigger]
            (parts[k].tag->0).1.contains(x) <==> if x.0 == "style"@ {
                x.1 == merged(
                    if tags[i].value is Some {
                        tags[i].value->0
                    } else {
                        Seq::empty()
                    },
                    rules[r].1,
                )
            } else {
                tags[i].attrs.contains(x)
            }
    &&& occurrences(tokens(html), tags[i]) <= times(tags, tags[i]) && merged(
        if tags[i].value is Some {
            tags[i].value->0
        } else {
            Seq::empty()
        },
        rules[r].1,
    ) != (if tags[i].value is Some {
        tags[i].value->0
    } else {
        Seq::empty()
    }) ==> forall|k: int|
        0 <= k < parts.len() ==> !stands_for(#[trigger] parts[k], tags[i].name, tags[i].attrs)
}

#[verifier::rlimit(60)]
#[verifier::spinoff_prover]
proof fn lemma_inline_styles(
    html: Seq<char>,
    rules: Seq<(Seq<char>, Seq<char>)>,
    r: int,
    tags: Seq<TagView>,
    i: int,
) -> (parts: Seq<TokenView>)
    requires
        rules == style_rules(),
        0 <= r < rules.len(),
        fragment_selection(html, rules[r].0, Some("style"@)) == Some(tags),
        0 <= i < tags.len(),
        forall|a: int, j: int|
            0 <= a < rules.len() && fragment_selection(
                html,
                (#[trigger] rules[a]).0,
                Some("style"@),
            ) is Some && 0 <= j < fragment_selection(html, rules[a].0, Some("style"@))->0.len() ==> (
            #[trigger] fragment_selection(html, rules[a].0, Some("style"@))->0[j]).name
                == rules[a].0 && restylable(
                fragment_selection(html, rules[a].0, Some("style"@))->0[j],
                rules[a].1,
            ),
        exists|k: int|
            0 <= k < tokens(html).len() && stands_for(
                #[trigger] tokens(html)[k],
                tags[i].name,
                tags[i].attrs,
            ),
    ensures
        parts == styled(tokens(html), rule_selections(html), rule_styles()),
        styled_parts(html, rules, r, tags, i, parts),
{
    let start = tokens(html);
    let selections = rule_selections(html);
    let styles = rule_styles();
    let tag = tags[i];
    let parts = styled(start, selections, styles);
    let names = Set::new(
        |n: Seq<char>| exists|a: int| 0 <= a < rules.len() && (#[trigger] rules[a]).0 == n,
    );
    assert(selections.len() == rules.len() && styles.len() == rules.len());
    assert forall|a: int| 0 <= a < rules.len() implies #[trigger] selections[a]
        == fragment_selection(html, rules[a].0, Some("style"@)) && styles[a] == rules[a].1 by {}
    assert forall|a: int, j: int|
        0 <= a < selections.len() && (#[trigger] selections[a]) is Some && 0 <= j
            < selections[a]->0.len() implies (#[trigger] selections[a]->0[j]).name == rules[a].0
        && restylable(selections[a]->0[j], styles[a]) by {
        assert(fragment_selection(html, rules[a].0, Some("style"@))->0[j].name == rules[a].0);
    }
    assert(all_restylable(selections, styles));
    assert forall|a: int, j: int|
        0 <= a < selections.len() && (#[trigger] selections[a]) is Some && 0 <= j
            < selections[a]->0.len() implies names.contains((#[trigger] selections[a]->0[j]).name) by {
        assert(selections[a]->0[j].name == rules[a].0);
    }
    assert(names_apart(selections)) by {
        assert forall|a: int, b: int, i: int, j: int|
            0 <= a < b < selections.len() && (#[trigger] selections[a]) is Some && (
            #[trigger] selections[b]) is Some && 0 <= i < selections[a]->0.len() && 0 <= j
                < selections[b]->0.len() implies (#[trigger] selections[a]->0[i]).name != (
        #[trigger] selections[b]->0[j]).name by {
            lemma_rule_names_differ(a, b);
        }
    }
    assert(selections[r] == Some(tags));
    assert(stylable(tags)) by {
        assert forall|j: int| 0 <= j < tags.len() implies coherent(#[trigger] tags[j])
            && holds_writable(own_style(tags[j])) by {
            assert(restylable(selections[r]->0[j], styles[r]));
        }
    }
    law_rule_styles_simple(r);
    law_simple_writable(styles[r]);
    law_merged_not_empty(own_style(tag), styles[r]);
    assert forall|k: int| 0 <= k < start.len() implies sound(#[trigger] start[k]) by {
        law_part_read_alone(html, k);
    }
    assert forall|k: int| 0 <= k < start.len() implies same_place(
        start[k],
        #[trigger] parts[k],
        names,
    ) && parts.len() == start.len() by {
        lemma_styled_shape(start, selections, styles, names, k);
    }
    let at = choose|k: int|
        0 <= k < start.len() && stands_for(#[trigger] start[k], tag.name, tag.attrs);
    assert(parts.len() == start.len()) by {
        lemma_styled_shape(start, selections, styles, names, at);
    }
    lemma_styled_sound(start, selections, styles);
    assert(reads_as(start[at], tag));
    assert(present(start, tag));
    assert(selections[r]->0[i] == tag);
    law_all_styled(start, selections, styles, r, i);
    let after = styled_tag(tag, styles[r]);
    let k = choose|k: int| 0 <= k < parts.len() && reads_as(#[trigger] parts[k], after);
    lemma_with_style_contains(tag.attrs, merged(own_style(tag), styles[r]));
    assert forall|x: Attribute| #[trigger] (parts[k].tag->0).1.contains(x) <==> if x.0 == "style"@ {
        x.1 == merged(own_style(tag), styles[r])
    } else {
        tag.attrs.contains(x)
    } by {
        assert((parts[k].tag->0).1.contains(x) <==> after.attrs.contains(x));
    }
    assert forall|k: int| 0 <= k < parts.len() && (#[trigger] parts[k]).tag is Some implies (
    opening_at(parts[k].text, 0) matches Some((name, attrs, end)) && stands_for(
        parts[k],
        name,
        attrs,
    ) && end == parts[k].text.len()) by {
        assert(sound(parts[k]));
        let (name, attrs, _) = opening_at(parts[k].text, 0)->0;
        let own = (parts[k].tag->0).1;
        assert forall|x: Attribute| #[trigger] own.contains(x) <==> attrs.contains(x) by {
            assert(attrs.contains(x) <==> own.contains(x));
        }
    }
    if occurrences(start, tag) <= times(tags, tag) && merged(own_style(tag), styles[r])
        != own_style(tag) {
        assert(coherent(tags[i]));
        assert forall|a: int, j: int|
            0 <= a < selections.len() && a != r && (#[trigger] selections[a]) is Some && 0 <= j
                < selections[a]->0.len() implies (#[trigger] selections[a]->0[j]).name
            != tag.name by {
            assert(selections[a]->0[j].name == rules[a].0);
            assert(selections[r]->0[i].name == rules[r].0);
            if a < r {
                lemma_rule_names_differ(a, r);
            } else {
                lemma_rule_names_differ(r, a);
            }
        }
        lemma_none_left_of_all(start, selections, styles, r, tag);
        assert forall|k: int| 0 <= k < parts.len() implies !stands_for(
            #[trigger] parts[k],
            tag.name,
            tag.attrs,
        ) by {
            if stands_for(parts[k], tag.name, tag.attrs) {
                assert(reads_as(parts[k], tag));
            }
        }
    }
    assert(own_style(tag) == if tag.value is Some {
        tag.value->0
    } else {
        Seq::<char>::empty()
    });
    parts
}

/// Every element that a rule of the editor selects in a text, and that stands there as a tag, is
/// given the style of the rule, however long the text is: the result is the text part by part,
/// in which a tag reads as that element with its other attributes, and with a style that is its
/// own one, completed by that of the rule. Where the rule selects the element as often as it
/// stands in the text, no tag is left that reads as it did. Parts that are no tags, and tags of
/// which no rule speaks, stay as they are.
pub proof fn law_inline_styles(
    html: Seq<char>,
    rules: Seq<(Seq<char>, Seq<char>)>,
    r: int,
    tags: Seq<TagView>,
    i: int,
) -> (parts: Seq<TokenView>)
    requires
        rules == seq![
            (
                "p"@,
                "font-size:14px; line-height:1.8; margin:6px 0; \
                 font-family:Microsoft YaHei,SimSun,Arial,sans-serif; color:#333"@,
            ),
            (
                "h1"@,
                "font-size:20px; font-weight:bold; text-align:center; \
                 letter-spacing:2px; margin:16px 0 10px; \
                 font-family:Microsoft YaHei,SimSun,Arial,sans-serif; color:#222"@,
            ),
            (
                "h2"@,
                "font-size:17px; font-weight:bold; margin:14px 0 8px; \
                 border-left:4px solid #1a73e8; padding-left:10px; \
                 font-family:Microsoft YaHei,SimSun,Arial,sans-serif; color:#222"@,
            ),
            (
                "h3"@,
                "font-size:15px; font-weight:bold; margin:10px 0 6px; \
                 font-family:Microsoft YaHei,SimSun,Arial,sans-serif; color:#333"@,
            ),
            (
                "h4"@,
                "font-size:14px; font-weight:bold; margin:8px 0 4px; \
                 font-family:Microsoft YaHei,SimSun,Arial,sans-serif; color:#333"@,
            ),
            (
                "table"@,
                "border-collapse:collapse; width:100%; margin:12px 0; \
                 font-size:13px; font-family:Microsoft YaHei,SimSun,Arial,sans-serif"@,
            ),
            (
                "th"@,
                "border:1px solid #ccc; padding:7px 10px; \
                 background-color:#f5f5f5; font-weight:bold; \
                 text-align:center; color:#333"@,
            ),
            (
                "td"@,
                "border:1px solid #ccc; padding:6px 10px; \
                 vertical-align:top; color:#333"@,
            ),
            ("img"@, "max-width:100%; height:auto; display:block; margin:10px auto"@),
            ("strong"@, "font-weight:bold; color:#222"@),
            (
                "ul"@,
                "margin:6px 0; padding-left:24px; \
                 font-size:14px; line-height:1.8; color:#333"@,
            ),
            (
                "ol"@,
                "margin:6px 0; padding-left:24px; \
                 font-size:14px; line-height:1.8; color:#333"@,
            ),
            ("li"@, "margin:3px 0; font-size:14px; line-height:1.8; color:#333"@),
        ],
        0 <= r < rules.len(),
        fragment_selection(html, rules[r].0, Some("style"@)) == Some(tags),
        0 <= i < tags.len(),
        forall|a: int, j: int|
            0 <= a < rules.len() && fragment_selection(
                html,
                (#[trigger] rules[a]).0,
                Some("style"@),
            ) is Some && 0 <= j < fragment_selection(html, rules[a].0, Some("style"@))->0.len() ==> (
            #[trigger] fragment_selection(html, rules[a].0, Some("style"@))->0[j]).name
                == rules[a].0 && restylable(
                fragment_selection(html, rules[a].0, Some("style"@))->0[j],
                rules[a].1,
            ),
        exists|k: int|
            0 <= k < tokens(html).len() && stands_for(
                #[trigger] tokens(html)[k],
                tags[i].name,
                tags[i].attrs,
            ),
    ensures
        inline_styled(html) == text_of(parts),
        styled_parts(html, rules, r, tags, i, parts),
{
    assert(rules =~= style_rules());
    lemma_inline_styles(html, rules, r, tags, i)
}

/// A text in which no rule of the editor selects anything stays as it is.
pub proof fn law_nothing_to_style(html: Seq<char>, rules: Seq<(Seq<char>, Seq<char>)>)
    requires
        rules == seq![
            (
                "p"@,
                "font-size:14px; line-height:1.8; margin:6px 0; \
                 font-family:Microsoft YaHei,SimSun,Arial,sans-serif; color:#333"@,
            ),
            (
                "h1"@,
                "font-size:20px; font-weight:bold; text-align:center; \
                 letter-spacing:2px; margin:16px 0 10px; \
                 font-family:Microsoft YaHei,SimSun,Arial,sans-serif; color:#222"@,
            ),
            (
                "h2"@,
                "font-size:17px; font-weight:bold; margin:14px 0 8px; \
                 border-left:4px solid #1a73e8; padding-left:10px; \
                 font-family:Microsoft YaHei,SimSun,Arial,sans-serif; color:#222"@,
            ),
            (
                "h3"@,
                "font-size:15px; font-weight:bold; margin:10px 0 6px; \
                 font-family:Microsoft YaHei,SimSun,Arial,sans-serif; color:#333"@,
            ),
            (
                "h4"@,
                "font-size:14px; font-weight:bold; margin:8px 0 4px; \
                 font-family:Microsoft YaHei,SimSun,Arial,sans-serif; color:#333"@,
            ),
            (
                "table"@,
                "border-collapse:collapse; width:100%; margin:12px 0; \
                 font-size:13px; font-family:Microsoft YaHei,SimSun,Arial,sans-serif"@,
            ),
            (
                "th"@,
                "border:1px solid #ccc; padding:7px 10px; \
                 background-color:#f5f5f5; font-weight:bold; \
                 text-align:center; color:#333"@,
            ),
            (
                "td"@,
                "border:1px solid #ccc; padding:6px 10px; \
                 vertical-align:top; color:#333"@,
            ),
            ("img"@, "max-width:100%; height:auto; display:block; margin:10px auto"@),
            ("strong"@, "font-weight:bold; color:#222"@),
            (
                "ul"@,
                "margin:6px 0; padding-left:24px; \
                 font-size:14px; line-height:1.8; color:#333"@,
            ),
            (
                "ol"@,
                "margin:6px 0; padding-left:24px; \
                 font-size:14px; line-height:1.8; color:#333"@,
            ),
            ("li"@, "margin:3px 0; font-size:14px; line-height:1.8; color:#333"@),
        ],
        forall|a: int|
            0 <= a < rules.len() ==> (fragment_selection(
                html,
                (#[trigger] rules[a]).0,
                Some("style"@),
            ) matches Some(tags) ==> tags.len() == 0),
    ensures
        inline_styled(html) == html,
{
    let selections = rule_selections(html);
    assert(rules =~= style_rules());
    assert forall|a: int| 0 <= a < selections.len() implies ((#[trigger] selections[a]) matches Some(
        tags,
    ) ==> tags.len() == 0) by {
        assert(selections[a] == fragment_selection(html, rules[a].0, Some("style"@)));
    }
    law_nothing_selected(tokens(html), selections, rule_styles());
    law_tokens_cover(html);
}

/// A bare element of which a rule of the editor speaks, whatever it holds and however long that
/// is, gets the whole style of the rule, if no rule selects anything else; and nothing else of
/// the text changes.
pub proof fn law_bare_element_inline(
    rules: Seq<(Seq<char>, Seq<char>)>,
    r: int,
    content: Seq<char>,
)
    requires
        rules == seq![
            (
                "p"@,
                "font-size:14px; line-height:1.8; margin:6px 0; \
                 font-family:Microsoft YaHei,SimSun,Arial,sans-serif; color:#333"@,
            ),
            (
                "h1"@,
                "font-size:20px; font-weight:bold; text-align:center; \
                 letter-spacing:2px; margin:16px 0 10px; \
                 font-family:Microsoft YaHei,SimSun,Arial,sans-serif; color:#222"@,
            ),
            (
                "h2"@,
                "font-size:17px; font-weight:bold; margin:14px 0 8px; \
                 border-left:4px solid #1a73e8; padding-left:10px; \
                 font-family:Microsoft YaHei,SimSun,Arial,sans-serif; color:#222"@,
            ),
            (
                "h3"@,
                "font-size:15px; font-weight:bold; margin:10px 0 6px; \
                 font-family:Microsoft YaHei,SimSun,Arial,sans-serif; color:#333"@,
            ),
            (
                "h4"@,
                "font-size:14px; font-weight:bold; margin:8px 0 4px; \
                 font-family:Microsoft YaHei,SimSun,Arial,sans-serif; color:#333"@,
            ),
            (
                "table"@,
                "border-collapse:collapse; width:100%; margin:12px 0; \
                 font-size:13px; font-family:Microsoft YaHei,SimSun,Arial,sans-serif"@,
            ),
            (
                "th"@,
                "border:1px solid #ccc; padding:7px 10px; \
                 background-color:#f5f5f5; font-weight:bold; \
                 text-align:center; color:#333"@,
            ),
            (
                "td"@,
                "border:1px solid #ccc; padding:6px 10px; \
                 vertical-align:top; color:#333"@,
            ),
            ("img"@, "max-width:100%; height:auto; display:block; margin:10px auto"@),
            ("strong"@, "font-weight:bold; color:#222"@),
            (
                "ul"@,
                "margin:6px 0; padding-left:24px; \
                 font-size:14px; line-height:1.8; color:#333"@,
            ),
            (
                "ol"@,
                "margin:6px 0; padding-left:24px; \
                 font-size:14px; line-height:1.8; color:#333"@,
            ),
            ("li"@, "margin:3px 0; font-size:14px; line-height:1.8; color:#333"@),
        ],
        0 <= r < rules.len(),
        ({
            let name = rules[r].0;
            let html = "<"@ + name + ">"@ + content + "</"@ + name + ">"@;
            &&& fragment_selection(html, name, Some("style"@)) == Some(
                seq![TagView { name, attrs: Seq::empty(), value: None }],
            )
            &&& forall|a: int|
                0 <= a < rules.len() && a != r ==> (fragment_selection(
                    html,
                    (#[trigger] rules[a]).0,
                    Some("style"@),
                ) matches Some(tags) ==> tags.len() == 0)
        }),
    ensures
        ({
            let name = rules[r].0;
            inline_styled("<"@ + name + ">"@ + content + "</"@ + name + ">"@) == "<"@ + name
                + " style=\""@ + merged(""@, rules[r].1) + "\">"@ + content + "</"@ + name + ">"@
        }),
{
    assert(rules =~= style_rules());
    let (name, style) = rules[r];
    let html = "<"@ + name + ">"@ + content + "</"@ + name + ">"@;
    let selections = rule_selections(html);
    let full = TagView {
        name,
        attrs: seq![("style"@, merged(""@, style))],
        value: Some(merged(""@, style)),
    };
    let again = Seq::new(
        rules.len(),
        |a: int|
            if a == r {
                Some(seq![full])
            } else {
                None::<Seq<TagView>>
            },
    );
    assert forall|a: int| 0 <= a < selections.len() implies #[trigger] selections[a]
        == fragment_selection(html, rules[a].0, Some("style"@)) by {}
    assert(selections[r] == Some(seq![TagView { name, attrs: Seq::empty(), value: None }]));
    law_bare_element_styled(r, content, selections, again);
}

proof fn lemma_found_from(parts: Seq<TokenView>, tag: TagView, k: int)
    requires
        0 <= k,
    ensures
        match found_from(parts, tag, k) {
            Some(n) => k <= n < parts.len() && reads_as(parts[n], tag) && forall|j: int|
                k <= j < n ==> !reads_as(#[trigger] parts[j], tag),
            None => forall|j: int| k <= j < parts.len() ==> !reads_as(#[trigger] parts[j], tag),
        },
    decreases parts.len() - k,
{
    if k < parts.len() && !reads_as(parts[k], tag) {
        lemma_found_from(parts, tag, k + 1);
    }
}

/// The opening tag of an element is, as it stands in a text, the first tag there with its name and
/// just its attributes; where there is none, it is as it would be written.
pub proof fn law_opening_text(html: Seq<char>, tag: TagView, k: int)
    requires
        0 <= k <= tokens(html).len(),
        k < tokens(html).len() ==> stands_for(tokens(html)[k], tag.name, tag.attrs),
        forall|j: int|
            0 <= j < k ==> !stands_for(#[trigger] tokens(html)[j], tag.name, tag.attrs),
    ensures
        k < tokens(html).len() ==> opening_text(html, tag) == tokens(html)[k].text,
        k == tokens(html).len() ==> opening_text(html, tag) == tag_text(tag.name, tag.attrs),
{
    let parts = tokens(html);
    lemma_found_from(parts, tag, 0);
    assert forall|j: int| 0 <= j < parts.len() implies reads_as(#[trigger] parts[j], tag)
        == stands_for(parts[j], tag.name, tag.attrs) by {
        if reads_as(parts[j], tag) {
            assert(stands_for(parts[j], tag.name, tag.attrs));
        }
        if stands_for(parts[j], tag.name, tag.attrs) {
            assert(reads_as(parts[j], tag));
        }
    }
    if k < parts.len() {
        assert(reads_as(parts[k], tag));
    }
}

proof fn lemma_distinct_has(attrs: Seq<Attribute>, name: Seq<char>)
    ensures
        has_name(distinct_names(attrs), name) == has_name(attrs, name),
    decreases attrs.len(),
{
    if attrs.len() > 0 {
        let front = attrs.drop_last();
        let last = attrs.last();
        let kept = distinct_names(front);
        lemma_distinct_has(front, name);
        lemma_distinct_has(front, last.0);
        if has_name(front, name) {
            let i = choose|i: int| 0 <= i < front.len() && (#[trigger] front[i]).0 == name;
            assert(attrs[i].0 == name);
        }
        if has_name(attrs, name) {
            let i = choose|i: int| 0 <= i < attrs.len() && (#[trigger] attrs[i]).0 == name;
            if i < front.len() {
                assert(front[i].0 == name);
            }
        }
        assert(attrs[attrs.len() - 1] == last);
        if has_name(kept, name) {
            let i = choose|i: int| 0 <= i < kept.len() && (#[trigger] kept[i]).0 == name;
            assert(kept.push(last)[i].0 == name);
        }
        if has_name(kept.push(last), name) && last.0 != name {
            let i = choose|i: int|
                0 <= i < kept.push(last).len() && (#[trigger] kept.push(last)[i]).0 == name;
            assert(kept[i].0 == name);
        }
        assert(kept.push(last)[kept.len() as int] == last);
    }
}

proof fn lemma_rest_kept(s: Seq<char>, i: int, style: Seq<char>) -> (k: int)
    requires
        0 <= i <= s.len(),
        attributes_at(s, i) is Some,
        (attributes_at(s, i)->0).1 == s.len(),
        !has_name((attributes_at(s, i)->0).0, "style"@),
    ensures
        i <= k <= s.len(),
        rest_text(s, i, style) == s.subrange(i, k) + style_text(style) + s.skip(k),
    decreases s.len() - i,
{
    let p = until(s, i, Stop::NonGap);
    lemma_until(s, i, Stop::NonGap);
    if s[p] == '>' {
        assert(s.subrange(i, p + 1) =~= s.skip(i));
        assert(s.subrange(i, i) + style_text(style) + s.skip(i) =~= style_text(style) + s.skip(i));
        i
    } else {
        lemma_attribute_end(s, p);
        let (a, e) = attribute_at(s, p)->0;
        let rest = (attributes_at(s, e)->0).0;
        let all = (attributes_at(s, i)->0).0;
        assert(all == seq![a] + rest);
        assert(all[0] == a);
        assert(!has_name(rest, "style"@)) by {
            if has_name(rest, "style"@) {
                let j = choose|j: int| 0 <= j < rest.len() && (#[trigger] rest[j]).0 == "style"@;
                assert(all[j + 1] == rest[j]);
            }
        }
        let k = lemma_rest_kept(s, e, style);
        assert(s.subrange(i, e) + (s.subrange(e, k) + style_text(style) + s.skip(k))
            =~= s.subrange(i, k) + style_text(style) + s.skip(k));
        k
    }
}

/// A tag without a style is given one by writing it into the tag: everything else of the tag stays
/// as it stands, however it is written.
pub proof fn law_tag_text_kept(text: Seq<char>, style: Seq<char>) -> (k: int)
    requires
        style.len() > 0,
        opening_at(text, 0) matches Some((_, attrs, end)) && end == text.len() && !has_name(
            attrs,
            "style"@,
        ),
    ensures
        0 < k < text.len(),
        respelled(text, style) == text.take(k) + (" "@ + "style"@ + "=\""@ + written(style) + "\""@)
            + text.skip(k),
{
    let e = until(text, 1, Stop::TagName);
    lemma_until(text, 1, Stop::TagName);
    lemma_attributes_end(text, e);
    let raw = (attributes_at(text, e)->0).0;
    lemma_distinct_has(raw, "style"@);
    let k = lemma_rest_kept(text, e, style);
    let given = " "@ + "style"@ + "=\""@ + written(style) + "\""@;
    assert(style_text(style) =~= given);
    assert(text.take(e) + (text.subrange(e, k) + style_text(style) + text.skip(k)) =~= text.take(k)
        + given + text.skip(k));
    assert(k < text.len()) by {
        if k == text.len() {
            lemma_rest_ends(text, e, style);
            reveal_strlit("\"");
            assert(respelled(text, style).last() == '"');
        }
    }
    k
}

proof fn lemma_rest_ends(s: Seq<char>, i: int, style: Seq<char>)
    requires
        0 <= i <= s.len(),
        attributes_at(s, i) is Some,
    ensures
        rest_text(s, i, style).len() > 0,
        rest_text(s, i, style).last() == '>',
    decreases s.len() - i,
{
    let p = until(s, i, Stop::NonGap);
    lemma_until(s, i, Stop::NonGap);
    if s[p] == '>' {
        assert(s.subrange(i, p + 1).last() == '>');
    } else {
        lemma_attribute_end(s, p);
        let (_, e) = attribute_at(s, p)->0;
        lemma_rest_ends(s, e, style);
    }
}

/// An attribute is read by its name, in lower case, and by its value, between double quotes or
/// single ones, or without quotes up to white space or the end of the tag; without an equals sign
/// its value is empty.
pub proof fn law_attribute_read(name: Seq<char>, raw: Seq<char>, quote: char, rest: Seq<char>)
    requires
        name.len() > 0,
        forall|j: int| 1 <= j < name.len() ==> !stops(Stop::AttributeName, #[trigger] name[j]),
        quote == '"' || quote == '\'',
    ensures
        !raw.contains(quote) ==> attribute_at(
            name + "="@ + seq![quote] + raw + seq![quote] + rest,
            0,
        ) == Some(((lower_name(name), value_of(raw)), (name.len() + raw.len() + 3) as int)),
        raw.len() > 0 && raw[0] != '"' && raw[0] != '\'' && rest.len() > 0 && stops(
            Stop::BareValue,
            rest[0],
        ) && (forall|j: int| 0 <= j < raw.len() ==> !stops(Stop::BareValue, #[trigger] raw[j]))
            ==> attribute_at(name + "="@ + raw + rest, 0) == Some(
            ((lower_name(name), value_of(raw)), (name.len() + raw.len() + 1) as int),
        ),
        rest.len() > 0 && (rest[0] == '>' || rest[0] == '/') ==> attribute_at(name + rest, 0) == Some(
            ((lower_name(name), Seq::<char>::empty()), name.len() as int),
        ),
{
    reveal_strlit("=");
    let n = name.len() as int;
    if !raw.contains(quote) {
        let s = name + "="@ + seq![quote] + raw + seq![quote] + rest;
        let q = n + 2 + raw.len();
        assert forall|j: int| 1 <= j < n implies !stops(Stop::AttributeName, #[trigger] s[j]) by {
            assert(s[j] == name[j]);
        }
        assert(s[n] == '=' && s[n + 1] == quote && s[q] == quote);
        lemma_until_is(s, 1, Stop::AttributeName, n);
        lemma_until_is(s, n, Stop::NonSpace, n);
        lemma_until_is(s, n + 1, Stop::NonSpace, n + 1);
        assert forall|j: int| n + 2 <= j < q implies !stops(Stop::At(quote), #[trigger] s[j]) by {
            assert(s[j] == raw[j - n - 2]);
            assert(raw.contains(raw[j - n - 2]));
        }
        lemma_until_is(s, n + 2, Stop::At(quote), q);
        assert(s.subrange(0, n) =~= name);
        assert(s.subrange(n + 2, q) =~= raw);
    }
    if raw.len() > 0 && raw[0] != '"' && raw[0] != '\'' && rest.len() > 0 && stops(
        Stop::BareValue,
        rest[0],
    ) && (forall|j: int| 0 <= j < raw.len() ==> !stops(Stop::BareValue, #[trigger] raw[j])) {
        let s = name + "="@ + raw + rest;
        let q = n + 1 + raw.len();
        assert forall|j: int| 1 <= j < n implies !stops(Stop::AttributeName, #[trigger] s[j]) by {
            assert(s[j] == name[j]);
        }
        assert(s[n] == '=' && s[n + 1] == raw[0] && s[q] == rest[0]);
        assert(!stops(Stop::BareValue, raw[0]));
        lemma_until_is(s, 1, Stop::AttributeName, n);
        lemma_until_is(s, n, Stop::NonSpace, n);
        lemma_until_is(s, n + 1, Stop::NonSpace, n + 1);
        assert forall|j: int| n + 1 <= j < q implies !stops(Stop::BareValue, #[trigger] s[j]) by {
            assert(s[j] == raw[j - n - 1]);
        }
        lemma_until_is(s, n + 1, Stop::BareValue, q);
        assert(s.subrange(0, n) =~= name);
        assert(s.subrange(n + 1, q) =~= raw);
    }
    if rest.len() > 0 && (rest[0] == '>' || rest[0] == '/') {
        let s = name + rest;
        assert forall|j: int| 1 <= j < n implies !stops(Stop::AttributeName, #[trigger] s[j]) by {
            assert(s[j] == name[j]);
        }
        assert(s[n] == rest[0]);
        lemma_until_is(s, 1, Stop::AttributeName, n);
        lemma_until_is(s, n, Stop::NonSpace, n);
        assert(s.subrange(0, n) =~= name);
    }
}

} // verus!
