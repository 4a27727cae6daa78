//! Inline styles: the styles of the editor, and how they complete a style that is already
//! there.

use crate::text::{all_ascii, ascii_lower, first, joined, lower, occurs_at, pieces, trimmed};
use crate::text::{chars_of, find_from, join, slice_text, split, to_lower, trim};
use crate::text::{lemma_first_from, lemma_first_is, lemma_occurs_char, lemma_occurs_in_tail};
use crate::text::{law_joined, law_pieces, lemma_trimmed, lemma_trimmed_ends};
use crate::text::{trimmed_end, trimmed_start, white_space};
use vstd::prelude::*;

verus! {

// ---------------------------------------------------------------------------
// The styles of the editor
// ---------------------------------------------------------------------------

pub const S_H1: &'static str =
    "font-size:20px; font-weight:bold; text-align:center; \
     letter-spacing:2px; margin:16px 0 10px; \
     font-family:Microsoft YaHei,SimSun,Arial,sans-serif; color:#222";

pub const S_H2: &'static str =
    "font-size:17px; font-weight:bold; margin:14px 0 8px; \
     border-left:4px solid #1a73e8; padding-left:10px; \
     font-family:Microsoft YaHei,SimSun,Arial,sans-serif; color:#222";

pub const S_H3: &'static str =
    "font-size:15px; font-weight:bold; margin:10px 0 6px; \
     font-family:Microsoft YaHei,SimSun,Arial,sans-serif; color:#333";

pub const S_H4: &'static str =
    "font-size:14px; font-weight:bold; margin:8px 0 4px; \
     font-family:Microsoft YaHei,SimSun,Arial,sans-serif; color:#333";

pub const S_P: &'static str =
    "font-size:14px; line-height:1.8; margin:6px 0; \
     font-family:Microsoft YaHei,SimSun,Arial,sans-serif; color:#333";

pub const S_TABLE: &'static str =
    "border-collapse:collapse; width:100%; margin:12px 0; \
     font-size:13px; font-family:Microsoft YaHei,SimSun,Arial,sans-serif";

pub const S_TH: &'static str =
    "border:1px solid #ccc; padding:7px 10px; \
     background-color:#f5f5f5; font-weight:bold; \
     text-align:center; color:#333";

pub const S_TD: &'static str =
    "border:1px solid #ccc; padding:6px 10px; \
     vertical-align:top; color:#333";

pub const S_IMG: &'static str =
    "max-width:100%; height:auto; display:block; margin:10px auto";

pub const S_STRONG: &'static str = "font-weight:bold; color:#222";

pub const S_UL: &'static str =
    "margin:6px 0; padding-left:24px; \
     font-size:14px; line-height:1.8; color:#333";

pub const S_OL: &'static str =
    "margin:6px 0; padding-left:24px; \
     font-size:14px; line-height:1.8; color:#333";

pub const S_LI: &'static str = "margin:3px 0; font-size:14px; line-height:1.8; color:#333";

pub const S_HR: &'static str = "border:none; border-top:1px solid #e0e0e0; margin:12px 0";

// ---------------------------------------------------------------------------
// What a style says
// ---------------------------------------------------------------------------

/// A property and its value.
pub type Property = (Seq<char>, Seq<char>);

/// The declaration that one piece of a style holds: the text before its first colon and
/// the text after it. A piece without a colon holds none.
pub open spec fn declaration(piece: Seq<char>) -> Option<Property> {
    let p = trimmed(piece);
    match first(p, seq![':']) {
        Some(i) => Some((trimmed(p.take(i)), trimmed(p.skip(i + 1)))),
        None => None,
    }
}

/// The declarations that the pieces hold, in order.
pub open spec fn declared(parts: Seq<Seq<char>>) -> Seq<Property>
    decreases parts.len(),
{
    if parts.len() == 0 {
        Seq::empty()
    } else {
        match declaration(parts[0]) {
            Some(d) => seq![d] + declared(parts.skip(1)),
            None => declared(parts.skip(1)),
        }
    }
}

/// The declarations of a style, as written.
pub open spec fn declarations(style: Seq<char>) -> Seq<Property> {
    declared(pieces(style, ';'))
}

/// The declarations with their property names in lower case.
pub open spec fn lower_names(props: Seq<Property>) -> Seq<Property> {
    props.map_values(|p: Property| (lower(p.0), p.1))
}

/// The properties that a style sets, in order.
pub open spec fn properties(style: Seq<char>) -> Seq<Property> {
    lower_names(declarations(style))
}

/// One of `props` sets the property `name`.
pub open spec fn sets(props: Seq<Property>, name: Seq<char>) -> bool {
    exists|i: int| 0 <= i < props.len() && (#[trigger] props[i]).0 == name
}

/// `props` with those of `extra` added whose property nothing before them sets.
pub open spec fn completed(props: Seq<Property>, extra: Seq<Property>) -> Seq<Property>
    decreases extra.len(),
{
    if extra.len() == 0 {
        props
    } else if sets(props, extra[0].0) {
        completed(props, extra.skip(1))
    } else {
        completed(props.push(extra[0]), extra.skip(1))
    }
}

/// The text of one property.
pub open spec fn property_text(p: Property) -> Seq<char> {
    p.0 + ": "@ + p.1
}

/// The style that sets `props`.
pub open spec fn rendered(props: Seq<Property>) -> Seq<char> {
    joined(props.map_values(|p: Property| property_text(p)), "; "@)
}

/// The style `existing`, completed by what `defaults` sets and it does not.
pub open spec fn merged(existing: Seq<char>, defaults: Seq<char>) -> Seq<char> {
    rendered(completed(properties(existing), properties(defaults)))
}

// ---------------------------------------------------------------------------
// Reading, completing and writing styles
// ---------------------------------------------------------------------------

/// The declaration that one piece of a style holds.
pub fn parse_declaration(piece: &str) -> (r: Option<(String, String)>)
    ensures
        r.deep_view() == declaration(piece@),
{
    let part = trim(piece);
    let chars = chars_of(part.as_str());
    let mut colon: Vec<char> = Vec::new();
    colon.push(':');
    assert(colon@ =~= seq![':']);
    proof {
        lemma_first_from(chars@, colon@, 0);
    }
    match find_from(&chars, &colon, 0) {
        Some(i) => {
            assert(i < chars.len());
            let name = slice_text(&chars, 0, i);
            let value = slice_text(&chars, i + 1, chars.len());
            assert(name@ =~= part@.take(i as int));
            assert(value@ =~= part@.skip(i + 1));
            Some((trim(name.as_str()), trim(value.as_str())))
        },
        None => None,
    }
}

/// The declarations of a style, as written.
pub fn style_declarations(style: &str) -> (r: Vec<(String, String)>)
    ensures
        r.deep_view() == declarations(style@),
{
    let parts = split(style, ';');
    let ghost all = parts.deep_view();
    let mut out: Vec<(String, String)> = Vec::new();
    let mut i: usize = 0;
    assert(all.skip(0) =~= all);
    assert(out.deep_view() + declared(all.skip(0)) =~= declared(all));
    while i < parts.len()
        invariant
            all == parts.deep_view(),
            i <= parts@.len(),
            out.deep_view() + declared(all.skip(i as int)) == declared(all),
        decreases parts@.len() - i,
    {
        let ghost before = out.deep_view();
        assert(all.skip(i as int).skip(1) =~= all.skip(i + 1));
        if let Some(d) = parse_declaration(parts[i].as_str()) {
            out.push(d);
            assert(out.deep_view() =~= before.push(d.deep_view()));
            assert(out.deep_view() + declared(all.skip(i + 1)) =~= before + (seq![d.deep_view()]
                + declared(all.skip(i + 1))));
        }
        i += 1;
    }
    assert(out.deep_view() + declared(all.skip(i as int)) =~= out.deep_view());
    out
}

/// The properties that a style sets, in order.
pub fn style_properties(style: &str) -> (r: Vec<(String, String)>)
    ensures
        r.deep_view() == properties(style@),
{
    let written = style_declarations(style);
    let ghost all = declarations(style@);
    let mut out: Vec<(String, String)> = Vec::new();
    let mut i: usize = 0;
    while i < written.len()
        invariant
            written.deep_view() == all,
            i <= written@.len(),
            out.deep_view() == lower_names(all.take(i as int)),
        decreases written@.len() - i,
    {
        let ghost before = out.deep_view();
        let name = to_lower(written[i].0.as_str());
        let value = written[i].1.clone();
        assert(all[i as int] == written[i as int].deep_view());
        out.push((name, value));
        assert(out.deep_view() =~= before.push((lower(all[i as int].0), all[i as int].1)));
        assert(lower_names(all.take(i + 1)) =~= lower_names(all.take(i as int)).push(
            (lower(all[i as int].0), all[i as int].1),
        ));
        i += 1;
    }
    assert(all.take(i as int) =~= all);
    out
}

/// Whether one of `props` sets the property `name`.
pub fn sets_property(props: &Vec<(String, String)>, name: &String) -> (r: bool)
    ensures
        r == sets(props.deep_view(), name@),
{
    let ghost all = props.deep_view();
    let mut i: usize = 0;
    while i < props.len()
        invariant
            all == props.deep_view(),
            i <= props@.len(),
            forall|j: int| 0 <= j < i ==> (#[trigger] all[j]).0 != name@,
        decreases props@.len() - i,
    {
        assert(all[i as int] == props[i as int].deep_view());
        if props[i].0 == *name {
            return true;
        }
        i += 1;
    }
    false
}

/// `props` with those of `extra` added whose property nothing before them sets.
pub fn complete_properties(props: Vec<(String, String)>, extra: &Vec<(String, String)>) -> (r: Vec<
    (String, String),
>)
    ensures
        r.deep_view() == completed(props.deep_view(), extra.deep_view()),
{
    let ghost more = extra.deep_view();
    let ghost start = props.deep_view();
    let mut out = props;
    let mut i: usize = 0;
    assert(more.skip(0) =~= more);
    while i < extra.len()
        invariant
            more == extra.deep_view(),
            i <= extra@.len(),
            completed(out.deep_view(), more.skip(i as int)) == completed(start, more),
        decreases extra@.len() - i,
    {
        let ghost before = out.deep_view();
        assert(more.skip(i as int).skip(1) =~= more.skip(i + 1));
        assert(more[i as int] == extra[i as int].deep_view());
        if !sets_property(&out, &extra[i].0) {
            out.push((extra[i].0.clone(), extra[i].1.clone()));
            assert(out.deep_view() =~= before.push(more[i as int]));
        }
        i += 1;
    }
    out
}

/// The style that sets `props`.
pub fn render_properties(props: &Vec<(String, String)>) -> (r: String)
    ensures
        r@ == rendered(props.deep_view()),
{
    let ghost all = props.deep_view();
    let ghost texts = all.map_values(|p: Property| property_text(p));
    let mut parts: Vec<String> = Vec::new();
    let mut i: usize = 0;
    while i < props.len()
        invariant
            all == props.deep_view(),
            texts == all.map_values(|p: Property| property_text(p)),
            i <= props@.len(),
            parts.deep_view() == texts.take(i as int),
        decreases props@.len() - i,
    {
        let ghost before = parts.deep_view();
        let mut part = props[i].0.clone();
        part.append(": ");
        part.append(props[i].1.as_str());
        assert(all[i as int] == props[i as int].deep_view());
        parts.push(part);
        assert(parts.deep_view() =~= before.push(part@));
        assert(texts.take(i + 1) =~= texts.take(i as int).push(texts[i as int]));
        i += 1;
    }
    assert(texts.take(i as int) =~= texts);
    join(&parts, "; ")
}

/// The style `existing`, completed by what `defaults` sets and it does not: what is
/// already set is never overridden.
pub fn merge_styles(existing: &str, defaults: &str) -> (r: String)
    ensures
        r@ == merged(existing@, defaults@),
{
    let props = style_properties(existing);
    let extra = style_properties(defaults);
    render_properties(&complete_properties(props, &extra))
}

// ---------------------------------------------------------------------------
// Laws
// ---------------------------------------------------------------------------

/// Completing keeps every property that was there: the same ones come first, in the same
/// order, with the same values.
pub proof fn law_existing_kept(props: Seq<Property>, extra: Seq<Property>)
    ensures
        props.len() <= completed(props, extra).len(),
        completed(props, extra).take(props.len() as int) == props,
    decreases extra.len(),
{
    if extra.len() == 0 {
        assert(props.take(props.len() as int) =~= props);
    } else if sets(props, extra[0].0) {
        law_existing_kept(props, extra.skip(1));
    } else {
        let longer = props.push(extra[0]);
        law_existing_kept(longer, extra.skip(1));
        let all = completed(longer, extra.skip(1));
        assert(all.take(props.len() as int) =~= all.take(longer.len() as int).take(
            props.len() as int,
        ));
        assert(longer.take(props.len() as int) =~= props);
    }
}

/// After completing, every property of the defaults is set.
pub proof fn law_defaults_set(props: Seq<Property>, extra: Seq<Property>, i: int)
    requires
        0 <= i < extra.len(),
    ensures
        sets(completed(props, extra), extra[i].0),
    decreases extra.len(),
{
    let next = if sets(props, extra[0].0) {
        props
    } else {
        props.push(extra[0])
    };
    let all = completed(next, extra.skip(1));
    if i == 0 {
        law_existing_kept(next, extra.skip(1));
        let k = if sets(props, extra[0].0) {
            choose|k: int| 0 <= k < props.len() && (#[trigger] props[k]).0 == extra[0].0
        } else {
            props.len() as int
        };
        assert(next[k].0 == extra[0].0);
        assert(all.take(next.len() as int)[k] == all[k]);
    } else {
        law_defaults_set(next, extra.skip(1), i - 1);
        assert(extra.skip(1)[i - 1] == extra[i]);
    }
}

/// A property that completing adds comes from the defaults, and nothing before it in the
/// result sets the same property.
pub proof fn law_added_is_new(props: Seq<Property>, extra: Seq<Property>, k: int)
    requires
        props.len() <= k < completed(props, extra).len(),
    ensures
        extra.contains(completed(props, extra)[k]),
        !sets(completed(props, extra).take(k), completed(props, extra)[k].0),
    decreases extra.len(),
{
    let all = completed(props, extra);
    if extra.len() == 0 {
    } else if sets(props, extra[0].0) {
        law_added_is_new(props, extra.skip(1), k);
        let j = choose|j: int| 0 <= j < extra.skip(1).len() && extra.skip(1)[j] == all[k];
        assert(extra[j + 1] == all[k]);
    } else if k == props.len() {
        let longer = props.push(extra[0]);
        law_existing_kept(longer, extra.skip(1));
        assert(all.take(longer.len() as int)[k] == all[k]);
        assert(all.take(k) =~= all.take(longer.len() as int).take(k));
        assert(longer.take(k) =~= props);
        assert(all[k] == extra[0]);
    } else {
        law_added_is_new(props.push(extra[0]), extra.skip(1), k);
        let j = choose|j: int| 0 <= j < extra.skip(1).len() && extra.skip(1)[j] == all[k];
        assert(extra[j + 1] == all[k]);
    }
}

/// Where everything that `extra` sets is set already, completing changes nothing.
pub proof fn law_nothing_missing(props: Seq<Property>, extra: Seq<Property>)
    requires
        forall|i: int| 0 <= i < extra.len() ==> sets(props, (#[trigger] extra[i]).0),
    ensures
        completed(props, extra) == props,
    decreases extra.len(),
{
    if extra.len() > 0 {
        assert(sets(props, extra[0].0));
        let rest = extra.skip(1);
        assert forall|i: int| 0 <= i < rest.len() implies sets(props, (#[trigger] rest[i]).0) by {
            assert(rest[i] == extra[i + 1]);
        }
        law_nothing_missing(props, rest);
    }
}

/// Completing a second time by the same defaults changes nothing.
pub proof fn law_completing_twice(props: Seq<Property>, extra: Seq<Property>)
    ensures
        completed(completed(props, extra), extra) == completed(props, extra),
{
    let all = completed(props, extra);
    assert forall|i: int| 0 <= i < extra.len() implies sets(all, (#[trigger] extra[i]).0) by {
        law_defaults_set(props, extra, i);
    }
    law_nothing_missing(all, extra);
}

/// `s` has no white space at its ends, and the character `c` nowhere.
pub open spec fn bare_of(s: Seq<char>, c: char) -> bool {
    &&& trimmed(s) == s
    &&& !s.contains(c)
}

/// A property that a style can hold: its name is in lower case, without colon or
/// semicolon, its value without semicolon, and neither has white space at its ends.
pub open spec fn writable(p: Property) -> bool {
    &&& lower(p.0) == p.0
    &&& bare_of(p.0, ':')
    &&& bare_of(p.0, ';')
    &&& bare_of(p.1, ';')
}

/// The pieces of a text that starts with a piece and a separator.
proof fn lemma_pieces_cons(a: Seq<char>, rest: Seq<char>, sep: char)
    requires
        !a.contains(sep),
    ensures
        pieces(a + seq![sep] + rest, sep) == seq![a] + pieces(rest, sep),
{
    let s = a + seq![sep] + rest;
    let k = a.len() as int;
    lemma_occurs_char(s, sep, k);
    assert forall|j: int| 0 <= j < k implies !#[trigger] occurs_at(s, seq![sep], j) by {
        lemma_occurs_char(s, sep, j);
        assert(a[j] == s[j]);
    }
    lemma_first_is(s, seq![sep], 0, k);
    assert(s.take(k) =~= a);
    assert(s.skip(k + 1) =~= rest);
}

proof fn lemma_pieces_single(a: Seq<char>, sep: char)
    requires
        !a.contains(sep),
    ensures
        pieces(a, sep) == seq![a],
{
    lemma_first_from(a, seq![sep], 0);
    assert forall|j: int| 0 <= j implies !#[trigger] occurs_at(a, seq![sep], j) by {
        lemma_occurs_char(a, sep, j);
        if j < a.len() {
            assert(a.contains(a[j]));
        }
    }
}

/// A leading space changes no declaration of a style.
proof fn lemma_leading_space(s: Seq<char>)
    ensures
        declarations(seq![' '] + s) == declarations(s),
{
    let t = seq![' '] + s;
    let sep = seq![';'];
    lemma_first_from(s, sep, 0);
    assert(t.skip(1) =~= s);
    assert forall|j: int| 0 <= j implies occurs_at(s, sep, j) == #[trigger] occurs_at(
        t,
        sep,
        j + 1,
    ) by {
        lemma_occurs_in_tail(t, sep, 1, j);
    }
    lemma_occurs_char(t, ';', 0);
    lemma_first_from(t, sep, 0);
    match first(s, sep) {
        Some(i) => {
            assert forall|j: int| 0 <= j < i + 1 implies !#[trigger] occurs_at(t, sep, j) by {
                if j > 0 {
                    assert(occurs_at(s, sep, j - 1) == occurs_at(t, sep, j - 1 + 1));
                }
            }
            assert(occurs_at(t, sep, i + 1));
            lemma_first_is(t, sep, 0, i + 1);
            let a = s.take(i);
            let b = t.take(i + 1);
            assert(b =~= seq![' '] + a);
            assert(b.skip(1) =~= a);
            assert(t.skip(i + 1 + 1) =~= s.skip(i + 1));
            let rest = pieces(s.skip(i + 1), ';');
            assert((seq![a] + rest).skip(1) =~= rest);
            assert((seq![b] + rest).skip(1) =~= rest);
            assert((seq![a] + rest)[0] == a);
            assert((seq![b] + rest)[0] == b);
        },
        None => {
            assert forall|j: int| 0 <= j implies !#[trigger] occurs_at(t, sep, j) by {
                if j > 0 {
                    assert(occurs_at(s, sep, j - 1) == occurs_at(t, sep, j - 1 + 1));
                }
            }
            assert(first(t, sep) is None);
            assert(seq![t].skip(1) =~= seq![s].skip(1));
            assert(seq![t][0] == t && seq![s][0] == s);
        },
    }
}

/// The text of a writable property holds that property.
proof fn lemma_property_read_back(p: Property)
    requires
        writable(p),
    ensures
        declaration(property_text(p)) == Some(p),
        !property_text(p).contains(';'),
{
    reveal_strlit(": ");
    let text = property_text(p);
    let k = p.0.len() as int;
    assert(": "@ =~= seq![':', ' ']);
    assert(text[k] == ':');
    if p.0.len() > 0 {
        lemma_trimmed_ends(p.0);
        assert(text[0] == p.0[0]);
    }
    assert(trimmed_start(text) == text);
    let t = trimmed(text);
    if p.1.len() > 0 {
        lemma_trimmed_ends(p.1);
        assert(text.last() == p.1.last());
        assert(t == text);
    } else {
        assert(text.last() == ' ');
        assert(text.drop_last().last() == ':');
        assert(trimmed_end(text.drop_last()) == text.drop_last());
        assert(t == text.drop_last());
    }
    lemma_occurs_char(t, ':', k);
    assert forall|j: int| 0 <= j < k implies !#[trigger] occurs_at(t, seq![':'], j) by {
        lemma_occurs_char(t, ':', j);
        assert(t[j] == p.0[j]);
        assert(p.0.contains(p.0[j]));
    }
    lemma_first_is(t, seq![':'], 0, k);
    assert(t.take(k) =~= p.0);
    if p.1.len() > 0 {
        assert(t.skip(k + 1) =~= seq![' '] + p.1);
        assert((seq![' '] + p.1).skip(1) =~= p.1);
    } else {
        assert(t.skip(k + 1) =~= p.1);
    }
    assert forall|j: int| 0 <= j < text.len() implies #[trigger] text[j] != ';' by {
        if j < k {
            assert(p.0.contains(p.0[j]));
            assert(text[j] == p.0[j]);
        } else if j >= k + 2 {
            assert(p.1.contains(p.1[j - k - 2]));
            assert(text[j] == p.1[j - k - 2]);
        }
    }
}

/// Reading a style that was written from properties gives those properties back.
pub proof fn law_read_back(props: Seq<Property>)
    requires
        forall|i: int| 0 <= i < props.len() ==> writable(#[trigger] props[i]),
    ensures
        properties(rendered(props)) == props,
    decreases props.len(),
{
    lemma_declarations_read_back(props);
    assert(lower_names(props) =~= props) by {
        assert forall|i: int| 0 <= i < props.len() implies lower_names(props)[i] == props[i] by {
            assert(writable(props[i]));
        }
    }
}

proof fn lemma_declarations_read_back(props: Seq<Property>)
    requires
        forall|i: int| 0 <= i < props.len() ==> writable(#[trigger] props[i]),
    ensures
        declarations(rendered(props)) == props,
    decreases props.len(),
{
    reveal_strlit("; ");
    reveal_with_fuel(declared, 2);
    let texts = props.map_values(|p: Property| property_text(p));
    if props.len() == 0 {
        let empty = Seq::<char>::empty();
        lemma_pieces_single(empty, ';');
        lemma_first_from(empty, seq![':'], 0);
        assert(declaration(empty) is None);
        assert(seq![empty].skip(1) =~= Seq::<Seq<char>>::empty());
        assert(declarations(empty) =~= props);
    } else {
        assert(writable(props[0]));
        lemma_property_read_back(props[0]);
        let head = property_text(props[0]);
        assert(texts[0] == head);
        let rest = props.skip(1);
        assert forall|i: int| 0 <= i < rest.len() implies writable(#[trigger] rest[i]) by {
            assert(writable(props[i + 1]));
        }
        if props.len() == 1 {
            lemma_pieces_single(head, ';');
            assert(seq![head].skip(1) =~= Seq::<Seq<char>>::empty());
            assert(declarations(head) =~= props);
        } else {
            lemma_declarations_read_back(rest);
            assert(texts.skip(1) =~= rest.map_values(|p: Property| property_text(p)));
            let tail = rendered(rest);
            assert(rendered(props) =~= head + seq![';'] + (seq![' '] + tail));
            lemma_pieces_cons(head, seq![' '] + tail, ';');
            lemma_leading_space(tail);
            let after = pieces(seq![' '] + tail, ';');
            assert((seq![head] + after).skip(1) =~= after);
            assert((seq![head] + after)[0] == head);
            assert(props =~= seq![props[0]] + rest);
        }
    }
}

/// A merged style sets just the properties of the one style, completed by those of the other,
/// wherever the lower-case property names are ones that a style can hold.
pub proof fn law_merged_sets(existing: Seq<char>, defaults: Seq<char>)
    requires
        holds_writable(existing),
        holds_writable(defaults),
    ensures
        properties(merged(existing, defaults)) == completed(
            properties(existing),
            properties(defaults),
        ),
{
    let old = properties(existing);
    let extra = properties(defaults);
    let all = completed(old, extra);
    assert forall|k: int| 0 <= k < all.len() implies writable(#[trigger] all[k]) by {
        law_existing_kept(old, extra);
        if k < old.len() {
            assert(all.take(old.len() as int)[k] == all[k]);
            assert(writable(old[k]));
        } else {
            law_added_is_new(old, extra, k);
            let j = choose|j: int| 0 <= j < extra.len() && extra[j] == all[k];
            assert(writable(extra[j]));
        }
    }
    law_read_back(all);
}

/// Every property of a style is one that a style can hold.
pub open spec fn holds_writable(style: Seq<char>) -> bool {
    forall|i: int| 0 <= i < properties(style).len() ==> writable(#[trigger] properties(style)[i])
}

/// Merging a second time with the same defaults changes nothing.
pub proof fn law_merging_twice(existing: Seq<char>, defaults: Seq<char>)
    requires
        holds_writable(existing),
        holds_writable(defaults),
    ensures
        merged(merged(existing, defaults), defaults) == merged(existing, defaults),
{
    law_merged_sets(existing, defaults);
    law_completing_twice(properties(existing), properties(defaults));
}

/// An empty style sets nothing.
pub proof fn law_empty_style()
    ensures
        properties(""@) == Seq::<Property>::empty(),
{
    reveal_strlit("");
    let empty = Seq::<char>::empty();
    assert(""@ =~= empty);
    lemma_pieces_single(empty, ';');
    lemma_first_from(empty, seq![':'], 0);
    assert(declaration(empty) is None);
    reveal_with_fuel(declared, 2);
    assert(seq![empty].skip(1) =~= Seq::<Seq<char>>::empty());
    assert(declarations(empty) =~= Seq::<Property>::empty());
    assert(lower_names(declarations(empty)) =~= Seq::<Property>::empty());
}

/// Merging a merged style with an empty one changes nothing.
pub proof fn law_merging_nothing(existing: Seq<char>, defaults: Seq<char>)
    requires
        holds_writable(existing),
        holds_writable(defaults),
    ensures
        merged(merged(existing, defaults), ""@) == merged(existing, defaults),
{
    law_merged_sets(existing, defaults);
    law_empty_style();
}

/// Texts that are joined come first where more are joined behind them.
proof fn lemma_joined_prefix(parts: Seq<Seq<char>>, more: Seq<Seq<char>>, sep: Seq<char>)
    ensures
        joined(parts, sep).is_prefix_of(joined(parts + more, sep)),
    decreases parts.len(),
{
    let all = parts + more;
    if parts.len() == 0 {
    } else if parts.len() == 1 {
        assert(all[0] == parts[0]);
    } else {
        assert(all.skip(1) =~= parts.skip(1) + more);
        lemma_joined_prefix(parts.skip(1), more, sep);
        assert(all[0] == parts[0]);
    }
}

/// A style stands, written anew, at the start of every style that it is completed to.
pub proof fn law_existing_first(existing: Seq<char>, defaults: Seq<char>)
    ensures
        merged(existing, ""@).is_prefix_of(merged(existing, defaults)),
{
    let old = properties(existing);
    let all = completed(old, properties(defaults));
    law_empty_style();
    law_existing_kept(old, properties(defaults));
    let texts = all.map_values(|p: Property| property_text(p));
    let first = old.map_values(|p: Property| property_text(p));
    let n = old.len() as int;
    assert(texts =~= first + texts.skip(n)) by {
        assert forall|i: int| 0 <= i < n implies #[trigger] texts[i] == first[i] by {
            assert(all.take(n)[i] == all[i]);
        }
    }
    lemma_joined_prefix(first, texts.skip(n), "; "@);
}

/// Completing by one list and then by another is completing by the two, one behind the other.
proof fn lemma_completed_append(props: Seq<Property>, a: Seq<Property>, b: Seq<Property>)
    ensures
        completed(props, a + b) == completed(completed(props, a), b),
    decreases a.len(),
{
    if a.len() == 0 {
        assert(a + b =~= b);
    } else {
        assert((a + b).skip(1) =~= a.skip(1) + b);
        let next = if sets(props, a[0].0) {
            props
        } else {
            props.push(a[0])
        };
        lemma_completed_append(next, a.skip(1), b);
    }
}

/// Where everything is set that `b` sets, completing by what `c` adds to `b` is completing by
/// `c`.
proof fn lemma_completed_rest(props: Seq<Property>, b: Seq<Property>, c: Seq<Property>)
    requires
        forall|i: int| 0 <= i < b.len() ==> sets(props, (#[trigger] b[i]).0),
    ensures
        completed(props, completed(b, c).skip(b.len() as int)) == completed(props, c),
    decreases c.len(),
{
    if c.len() == 0 {
        assert(b.skip(b.len() as int) =~= c);
    } else if sets(b, c[0].0) {
        let i = choose|i: int| 0 <= i < b.len() && (#[trigger] b[i]).0 == c[0].0;
        assert(sets(props, b[i].0));
        lemma_completed_rest(props, b, c.skip(1));
    } else {
        let longer = b.push(c[0]);
        let all = completed(longer, c.skip(1));
        law_existing_kept(longer, c.skip(1));
        let more = all.skip(b.len() as int);
        assert(all.take(longer.len() as int)[b.len() as int] == all[b.len() as int]);
        assert(more[0] == c[0]);
        assert(more.skip(1) =~= all.skip(longer.len() as int));
        let next = if sets(props, c[0].0) {
            props
        } else {
            props.push(c[0])
        };
        assert forall|i: int| 0 <= i < longer.len() implies sets(next, (#[trigger] longer[i]).0) by {
            if i < b.len() {
                assert(sets(props, b[i].0));
                let k = choose|k: int| 0 <= k < props.len() && (#[trigger] props[k]).0 == b[i].0;
                assert(next[k] == props[k]);
            } else if !sets(props, c[0].0) {
                assert(next[props.len() as int] == c[0]);
            }
        }
        lemma_completed_rest(next, longer, c.skip(1));
    }
}

/// It makes no difference which two of three lists are completed first.
pub proof fn law_completing_is_associative(a: Seq<Property>, b: Seq<Property>, c: Seq<Property>)
    ensures
        completed(completed(a, b), c) == completed(a, completed(b, c)),
{
    let all = completed(b, c);
    let both = completed(a, b);
    law_existing_kept(b, c);
    assert(all =~= b + all.skip(b.len() as int));
    lemma_completed_append(a, b, all.skip(b.len() as int));
    assert forall|i: int| 0 <= i < b.len() implies sets(both, (#[trigger] b[i]).0) by {
        law_defaults_set(a, b, i);
    }
    lemma_completed_rest(both, b, c);
}

/// It makes no difference which two of three styles are merged first.
pub proof fn law_merging_is_associative(a: Seq<char>, b: Seq<char>, c: Seq<char>)
    requires
        holds_writable(a),
        holds_writable(b),
        holds_writable(c),
    ensures
        merged(merged(a, b), c) == merged(a, merged(b, c)),
{
    law_merged_sets(a, b);
    law_merged_sets(b, c);
    law_completing_is_associative(properties(a), properties(b), properties(c));
}

/// The property names of a style are ASCII. Its values may be any text.
pub open spec fn ascii_names(style: Seq<char>) -> bool {
    forall|i: int|
        0 <= i < declarations(style).len() ==> all_ascii((#[trigger] declarations(style)[i]).0)
}

/// The pieces of a text hold no separator.
proof fn lemma_pieces_bare(s: Seq<char>, sep: char)
    ensures
        forall|i: int| 0 <= i < pieces(s, sep).len() ==> !(#[trigger] pieces(s, sep)[i]).contains(sep),
    decreases s.len(),
{
    law_pieces(s, sep);
}

/// A property with an ASCII name is one that a style can hold.
proof fn lemma_ascii_declaration(piece: Seq<char>)
    requires
        !piece.contains(';'),
        declaration(piece) matches Some((name, _)) ==> all_ascii(name),
    ensures
        declaration(piece) matches Some((name, value)) ==> writable((lower(name), value)),
{
    let p = trimmed(piece);
    lemma_trimmed(piece);
    lemma_first_from(p, seq![':'], 0);
    if declaration(piece) is Some {
        let i = first(p, seq![':'])->0;
        let before = p.take(i);
        let after = p.skip(i + 1);
        let (name, value) = declaration(piece)->0;
        lemma_trimmed(before);
        lemma_trimmed(after);
        assert forall|j: int| 0 <= j < p.len() implies #[trigger] p[j] != ';' by {
            assert(piece.contains(p[j]));
        }
        assert forall|j: int| 0 <= j < name.len() implies #[trigger] name[j] != ';' && name[j]
            != ':' by {
            assert(before.contains(name[j]));
            let m = choose|m: int| 0 <= m < before.len() && before[m] == name[j];
            assert(p[m] == name[j]);
            lemma_occurs_char(p, ':', m);
        }
        assert forall|j: int| 0 <= j < value.len() implies #[trigger] value[j] != ';' by {
            assert(after.contains(value[j]));
            let m = choose|m: int| 0 <= m < after.len() && after[m] == value[j];
            assert(p[i + 1 + m] == value[j]);
        }
        let low = lower(name);
        assert(low =~= name.map_values(|c: char| ascii_lower(c)));
        assert forall|j: int| 0 <= j < low.len() implies (#[trigger] low[j]) as u32 <= 0x7f && low[j]
            != ';' && low[j] != ':' && ascii_lower(low[j]) == low[j] by {
            assert(low[j] == ascii_lower(name[j]));
        }
        assert(lower(low) =~= low);
    }
}

proof fn lemma_ascii_declared(parts: Seq<Seq<char>>)
    requires
        forall|i: int| 0 <= i < parts.len() ==> !(#[trigger] parts[i]).contains(';'),
        forall|i: int|
            0 <= i < declared(parts).len() ==> all_ascii((#[trigger] declared(parts)[i]).0),
    ensures
        forall|i: int|
            0 <= i < declared(parts).len() ==> writable(
                #[trigger] lower_names(declared(parts))[i],
            ),
    decreases parts.len(),
{
    if parts.len() > 0 {
        let all = declared(parts);
        let rest = parts.skip(1);
        assert forall|i: int| 0 <= i < rest.len() implies !(#[trigger] rest[i]).contains(';') by {
            assert(rest[i] == parts[i + 1]);
        }
        let ahead: int = if declaration(parts[0]) is Some {
            1
        } else {
            0
        };
        assert forall|i: int| 0 <= i < declared(rest).len() implies all_ascii(
            (#[trigger] declared(rest)[i]).0,
        ) by {
            assert(declared(rest)[i] == all[i + ahead]);
        }
        lemma_ascii_declared(rest);
        assert(!parts[0].contains(';'));
        if declaration(parts[0]) is Some {
            assert(all[0] == declaration(parts[0])->0);
            lemma_ascii_declaration(parts[0]);
            assert forall|i: int| 0 <= i < all.len() implies writable(
                #[trigger] lower_names(all)[i],
            ) by {
                if i > 0 {
                    assert(lower_names(all)[i] == lower_names(declared(rest))[i - 1]);
                }
            }
        }
    }
}

/// Every property of a style with ASCII names is one that a style can hold, whatever its
/// values are.
pub proof fn law_ascii_names_writable(style: Seq<char>)
    requires
        ascii_names(style),
    ensures
        holds_writable(style),
{
    let parts = pieces(style, ';');
    lemma_pieces_bare(style, ';');
    assert forall|i: int| 0 <= i < declared(parts).len() implies all_ascii(
        (#[trigger] declared(parts)[i]).0,
    ) by {
        assert(declarations(style)[i] == declared(parts)[i]);
    }
    lemma_ascii_declared(parts);
}

/// A merged style sets, read back, what the existing style sets, with the same values and in
/// the same order, and behind it what only the defaults set. Property names are ASCII.
pub proof fn law_merged_sets_ascii(existing: Seq<char>, defaults: Seq<char>)
    requires
        ascii_names(existing),
        ascii_names(defaults),
    ensures
        properties(merged(existing, defaults)) == completed(
            properties(existing),
            properties(defaults),
        ),
        properties(existing).is_prefix_of(properties(merged(existing, defaults))),
{
    law_ascii_names_writable(existing);
    law_ascii_names_writable(defaults);
    law_merged_sets(existing, defaults);
    law_existing_kept(properties(existing), properties(defaults));
}

// ---------------------------------------------------------------------------
// Styles that need no escaping
// ---------------------------------------------------------------------------

/// `c` is a visible ASCII character or a space, and an attribute can hold it as it is.
pub open spec fn simple(c: char) -> bool {
    0x20 <= c as u32 <= 0x7e && c != '&' && c != '"' && c != '<' && c != '>'
}

/// All characters of `s` are simple.
pub open spec fn all_simple(s: Seq<char>) -> bool {
    forall|i: int| 0 <= i < s.len() ==> simple(#[trigger] s[i])
}

proof fn lemma_simple_within(s: Seq<char>, t: Seq<char>)
    requires
        all_simple(s),
        forall|i: int| 0 <= i < t.len() ==> s.contains(#[trigger] t[i]),
    ensures
        all_simple(t),
{
    assert forall|i: int| 0 <= i < t.len() implies simple(#[trigger] t[i]) by {
        assert(s.contains(t[i]));
        let j = choose|j: int| 0 <= j < s.len() && s[j] == t[i];
        assert(simple(s[j]));
    }
}

proof fn lemma_simple_pieces(s: Seq<char>, sep: char)
    requires
        all_simple(s),
    ensures
        forall|i: int| 0 <= i < pieces(s, sep).len() ==> all_simple(#[trigger] pieces(s, sep)[i]),
    decreases s.len(),
{
    lemma_first_from(s, seq![sep], 0);
    if let Some(k) = first(s, seq![sep]) {
        let rest = s.skip(k + 1);
        let all = pieces(s, sep);
        lemma_simple_pieces(rest, sep);
        assert(all_simple(s.take(k)));
        assert forall|i: int| 0 <= i < all.len() implies all_simple(#[trigger] all[i]) by {
            if i > 0 {
                assert(all[i] == pieces(rest, sep)[i - 1]);
            }
        }
    }
}

/// Name and value of the property are simple.
pub open spec fn simple_property(p: Property) -> bool {
    all_simple(p.0) && all_simple(p.1)
}

proof fn lemma_simple_declaration(piece: Seq<char>)
    requires
        all_simple(piece),
    ensures
        declaration(piece) matches Some(p) ==> simple_property(p),
{
    let p = trimmed(piece);
    lemma_trimmed(piece);
    lemma_simple_within(piece, p);
    lemma_first_from(p, seq![':'], 0);
    if let Some(i) = first(p, seq![':']) {
        lemma_trimmed(p.take(i));
        lemma_trimmed(p.skip(i + 1));
        assert(all_simple(p.take(i)));
        assert(all_simple(p.skip(i + 1)));
        lemma_simple_within(p.take(i), trimmed(p.take(i)));
        lemma_simple_within(p.skip(i + 1), trimmed(p.skip(i + 1)));
    }
}

proof fn lemma_simple_declared(parts: Seq<Seq<char>>)
    requires
        forall|i: int| 0 <= i < parts.len() ==> all_simple(#[trigger] parts[i]),
    ensures
        forall|i: int|
            0 <= i < declared(parts).len() ==> simple_property(#[trigger] declared(parts)[i]),
    decreases parts.len(),
{
    if parts.len() > 0 {
        let rest = parts.skip(1);
        assert(all_simple(parts[0]));
        lemma_simple_declaration(parts[0]);
        assert forall|i: int| 0 <= i < rest.len() implies all_simple(#[trigger] rest[i]) by {
            assert(rest[i] == parts[i + 1]);
        }
        lemma_simple_declared(rest);
        let all = declared(parts);
        assert forall|i: int| 0 <= i < all.len() implies simple_property(#[trigger] all[i]) by {
            if declaration(parts[0]) is None {
                assert(all[i] == declared(rest)[i]);
            } else if i > 0 {
                assert(all[i] == declared(rest)[i - 1]);
            }
        }
    }
}

proof fn lemma_simple_properties(style: Seq<char>)
    requires
        all_simple(style),
    ensures
        forall|i: int|
            0 <= i < properties(style).len() ==> simple_property(#[trigger] properties(style)[i]),
{
    lemma_simple_pieces(style, ';');
    lemma_simple_declared(pieces(style, ';'));
    let all = declarations(style);
    assert forall|i: int| 0 <= i < properties(style).len() implies simple_property(
        #[trigger] properties(style)[i],
    ) by {
        assert(simple_property(declared(pieces(style, ';'))[i]));
        let name = all[i].0;
        assert(all_ascii(name)) by {
            assert forall|j: int| 0 <= j < name.len() implies (#[trigger] name[j]) as u32
                <= 0x7f by {
                assert(simple(name[j]));
            }
        }
        assert forall|j: int| 0 <= j < lower(name).len() implies simple(
            #[trigger] lower(name)[j],
        ) by {
            assert(lower(name)[j] == ascii_lower(name[j]));
            assert(simple(name[j]));
        }
    }
}

proof fn lemma_simple_joined(parts: Seq<Seq<char>>, sep: Seq<char>)
    requires
        all_simple(sep),
        forall|i: int| 0 <= i < parts.len() ==> all_simple(#[trigger] parts[i]),
    ensures
        all_simple(joined(parts, sep)),
    decreases parts.len(),
{
    if parts.len() > 0 {
        assert(all_simple(parts[0]));
        let rest = parts.skip(1);
        assert forall|i: int| 0 <= i < rest.len() implies all_simple(#[trigger] rest[i]) by {
            assert(rest[i] == parts[i + 1]);
        }
        lemma_simple_joined(rest, sep);
    }
}

/// Merging simple styles gives a simple style: it can stand in an attribute as it is.
pub proof fn law_simple_merged(existing: Seq<char>, defaults: Seq<char>)
    requires
        all_simple(existing),
        all_simple(defaults),
    ensures
        all_simple(merged(existing, defaults)),
{
    reveal_strlit(": ");
    reveal_strlit("; ");
    let old = properties(existing);
    let extra = properties(defaults);
    let all = completed(old, extra);
    lemma_simple_properties(existing);
    lemma_simple_properties(defaults);
    let texts = all.map_values(|p: Property| property_text(p));
    assert forall|k: int| 0 <= k < texts.len() implies all_simple(#[trigger] texts[k]) by {
        law_existing_kept(old, extra);
        if k < old.len() {
            assert(all.take(old.len() as int)[k] == all[k]);
            assert(simple_property(old[k]));
        } else {
            law_added_is_new(old, extra, k);
            let j = choose|j: int| 0 <= j < extra.len() && extra[j] == all[k];
            assert(simple_property(extra[j]));
        }
        assert(texts[k] == property_text(all[k]));
    }
    lemma_simple_joined(texts, "; "@);
}

/// The property names of a simple style are ASCII.
pub proof fn law_simple_writable(style: Seq<char>)
    requires
        all_simple(style),
    ensures
        holds_writable(style),
{
    lemma_simple_pieces(style, ';');
    lemma_simple_declared(pieces(style, ';'));
    assert forall|i: int| 0 <= i < declarations(style).len() implies all_ascii(
        (#[trigger] declarations(style)[i]).0,
    ) by {
        let p = declared(pieces(style, ';'))[i];
        assert(simple_property(p));
        assert forall|j: int| 0 <= j < p.0.len() implies (#[trigger] p.0[j]) as u32 <= 0x7f by {
            assert(simple(p.0[j]));
        }
    }
    law_ascii_names_writable(style);
}

/// Trimming keeps what is no white space.
proof fn lemma_trimming_keeps(s: Seq<char>, c: char)
    requires
        s.contains(c),
        !white_space(c),
    ensures
        trimmed_start(s).contains(c),
        trimmed_end(s).contains(c),
    decreases s.len(),
{
    let i = choose|i: int| 0 <= i < s.len() && s[i] == c;
    if white_space(s[0]) {
        assert(s.skip(1)[i - 1] == c);
        lemma_trimming_keeps(s.skip(1), c);
    }
    if white_space(s.last()) {
        assert(s.drop_last()[i] == c);
        lemma_trimming_keeps(s.drop_last(), c);
    }
}

proof fn lemma_pieces_hold(s: Seq<char>, sep: char, c: char)
    requires
        s.contains(c),
        c != sep,
    ensures
        exists|i: int| 0 <= i < pieces(s, sep).len() && (#[trigger] pieces(s, sep)[i]).contains(c),
    decreases s.len(),
{
    lemma_first_from(s, seq![sep], 0);
    let all = pieces(s, sep);
    let j = choose|j: int| 0 <= j < s.len() && s[j] == c;
    match first(s, seq![sep]) {
        Some(k) => {
            lemma_occurs_char(s, sep, k);
            if j < k {
                assert(s.take(k)[j] == c);
                assert(all[0].contains(c));
            } else {
                let rest = s.skip(k + 1);
                assert(rest[j - k - 1] == c);
                lemma_pieces_hold(rest, sep, c);
                let i = choose|i: int|
                    0 <= i < pieces(rest, sep).len() && (#[trigger] pieces(rest, sep)[i]).contains(c);
                assert(all[i + 1] == pieces(rest, sep)[i]);
            }
        },
        None => {
            assert(all[0].contains(c));
        },
    }
}

proof fn lemma_declared_some(parts: Seq<Seq<char>>, i: int)
    requires
        0 <= i < parts.len(),
        parts[i].contains(':'),
    ensures
        declared(parts).len() > 0,
    decreases parts.len(),
{
    if i == 0 {
        let p = trimmed(parts[0]);
        lemma_trimming_keeps(parts[0], ':');
        lemma_trimming_keeps(trimmed_start(parts[0]), ':');
        let j = choose|j: int| 0 <= j < p.len() && p[j] == ':';
        lemma_occurs_char(p, ':', j);
        lemma_first_from(p, seq![':'], 0);
        assert(declaration(parts[0]) is Some);
    } else {
        assert(parts.skip(1)[i - 1] == parts[i]);
        lemma_declared_some(parts.skip(1), i - 1);
    }
}

/// A style with a colon in it completes another one to a style that is not empty.
pub proof fn law_merged_not_empty(existing: Seq<char>, defaults: Seq<char>)
    requires
        defaults.contains(':'),
    ensures
        merged(existing, defaults).len() > 0,
{
    reveal_strlit(": ");
    lemma_pieces_hold(defaults, ';', ':');
    let parts = pieces(defaults, ';');
    let i = choose|i: int| 0 <= i < parts.len() && (#[trigger] parts[i]).contains(':');
    lemma_declared_some(parts, i);
    let extra = properties(defaults);
    assert(extra.len() == declared(parts).len());
    let all = completed(properties(existing), extra);
    law_defaults_set(properties(existing), extra, 0);
    assert(all.len() > 0);
    let texts = all.map_values(|p: Property| property_text(p));
    assert(texts[0] == property_text(all[0]));
    assert(texts[0].len() >= 2);
}

// ---------------------------------------------------------------------------
// What a style says, and how it is written
// ---------------------------------------------------------------------------

/// A style is written property by property, each as its name, a colon, a space and its value,
/// with a semicolon and a space between each two.
pub proof fn law_rendered(props: Seq<Property>, p: Property)
    ensures
        rendered(Seq::empty()) == Seq::<char>::empty(),
        rendered(seq![p]) == p.0 + ": "@ + p.1,
        props.len() > 0 ==> rendered(props.push(p)) == rendered(props) + "; "@ + (p.0 + ": "@ + p.1),
{
    let texts = props.map_values(|p: Property| property_text(p));
    let text = property_text(p);
    law_joined(texts, text, "; "@);
    assert(Seq::<Property>::empty().map_values(|p: Property| property_text(p)) =~= Seq::<
        Seq<char>,
    >::empty());
    assert(seq![p].map_values(|p: Property| property_text(p)) =~= seq![text]);
    assert(props.push(p).map_values(|p: Property| property_text(p)) =~= texts.push(text));
}

/// One more default is added behind the others if nothing sets its property yet, and left out
/// otherwise.
pub proof fn law_completed(props: Seq<Property>, extra: Seq<Property>, p: Property)
    ensures
        completed(props, Seq::empty()) == props,
        (exists|i: int|
            0 <= i < completed(props, extra).len() && (#[trigger] completed(props, extra)[i]).0
                == p.0) ==> completed(props, extra.push(p)) == completed(props, extra),
        (forall|i: int|
            0 <= i < completed(props, extra).len() ==> (#[trigger] completed(props, extra)[i]).0
                != p.0) ==> completed(props, extra.push(p)) == completed(props, extra).push(p),
{
    let one = seq![p];
    let all = completed(props, extra);
    assert(extra.push(p) =~= extra + one);
    lemma_completed_append(props, extra, one);
    assert(one.skip(1) =~= Seq::<Property>::empty());
    reveal_with_fuel(completed, 3);
    if exists|i: int| 0 <= i < all.len() && (#[trigger] all[i]).0 == p.0 {
        assert(sets(all, p.0));
    } else {
        assert(!sets(all, p.0));
    }
}

/// The pieces of two texts with a separator between them are those of the one and then those of
/// the other.
proof fn lemma_pieces_append(a: Seq<char>, b: Seq<char>, sep: char)
    ensures
        pieces(a + seq![sep] + b, sep) == pieces(a, sep) + pieces(b, sep),
    decreases a.len(),
{
    let s = a + seq![sep] + b;
    lemma_first_from(a, seq![sep], 0);
    match first(a, seq![sep]) {
        Some(k) => {
            let head = a.take(k);
            let rest = a.skip(k + 1);
            lemma_occurs_char(a, sep, k);
            assert(a =~= head + seq![sep] + rest);
            assert(!head.contains(sep)) by {
                assert forall|j: int| 0 <= j < head.len() implies #[trigger] head[j] != sep by {
                    lemma_occurs_char(a, sep, j);
                }
            }
            assert(s =~= head + seq![sep] + (rest + seq![sep] + b));
            lemma_pieces_cons(head, rest + seq![sep] + b, sep);
            lemma_pieces_append(rest, b, sep);
            assert(seq![head] + (pieces(rest, sep) + pieces(b, sep)) =~= seq![head] + pieces(
                rest,
                sep,
            ) + pieces(b, sep));
        },
        None => {
            assert(!a.contains(sep)) by {
                assert forall|j: int| 0 <= j < a.len() implies #[trigger] a[j] != sep by {
                    lemma_occurs_char(a, sep, j);
                }
            }
            lemma_pieces_cons(a, b, sep);
        },
    }
}

proof fn lemma_declared_append(a: Seq<Seq<char>>, b: Seq<Seq<char>>)
    ensures
        declared(a + b) == declared(a) + declared(b),
    decreases a.len(),
{
    if a.len() == 0 {
        assert(a + b =~= b);
        assert(declared(a) + declared(b) =~= declared(b));
    } else {
        lemma_declared_append(a.skip(1), b);
        assert((a + b).skip(1) =~= a.skip(1) + b);
        assert((a + b)[0] == a[0]);
        assert(declared(a + b) =~= declared(a) + declared(b));
    }
}

/// Two styles with a semicolon between them set what the one sets, and then what the other sets.
pub proof fn law_styles_in_a_row(a: Seq<char>, b: Seq<char>)
    ensures
        properties(a + seq![';'] + b) == properties(a) + properties(b),
{
    lemma_pieces_append(a, b, ';');
    lemma_declared_append(pieces(a, ';'), pieces(b, ';'));
    assert(properties(a + seq![';'] + b) =~= properties(a) + properties(b));
}

/// What is left of the two sides of a text, where neither is trimmed away.
proof fn lemma_trimmed_sides(a: Seq<char>, c: char, b: Seq<char>)
    requires
        !white_space(c),
    ensures
        trimmed_start(a + seq![c] + b) == trimmed_start(a) + seq![c] + b,
        trimmed_end(a + seq![c] + b) == a + seq![c] + trimmed_end(b),
    decreases a.len() + b.len(),
{
    let s = a + seq![c] + b;
    if a.len() > 0 && white_space(a[0]) {
        assert(s[0] == a[0]);
        assert(s.skip(1) =~= a.skip(1) + seq![c] + b);
        lemma_trimmed_sides(a.skip(1), c, b);
    } else if a.len() > 0 {
        assert(s[0] == a[0]);
    } else {
        assert(s[0] == c);
    }
    if b.len() > 0 && white_space(b.last()) {
        assert(s.last() == b.last());
        assert(s.drop_last() =~= a + seq![c] + b.drop_last());
        lemma_trimmed_sides(a, c, b.drop_last());
    } else if b.len() > 0 {
        assert(s.last() == b.last());
    } else {
        assert(s.last() == c);
        assert(trimmed_end(s) == s);
    }
}

/// Trimming a text at one end first makes no difference to trimming it.
proof fn lemma_trimmed_parts(s: Seq<char>)
    ensures
        trimmed(trimmed_start(s)) == trimmed(s),
        trimmed(trimmed_end(s)) == trimmed(s),
    decreases s.len(),
{
    if s.len() > 0 && white_space(s[0]) {
        lemma_trimmed_parts(s.skip(1));
    }
    if s.len() > 0 && white_space(s.last()) {
        let front = s.drop_last();
        lemma_trimmed_parts(front);
        lemma_trimmed_end_first(front, s.last());
        assert(front.push(s.last()) =~= s);
    }
}

/// White space behind a text makes no difference to trimming it.
proof fn lemma_trimmed_end_first(s: Seq<char>, c: char)
    requires
        white_space(c),
    ensures
        trimmed(s.push(c)) == trimmed(s),
    decreases s.len(),
{
    let all = s.push(c);
    let none = Seq::<char>::empty();
    if s.len() == 0 {
        assert(all.skip(1) =~= none);
        assert(all[0] == c);
        assert(s =~= none);
    } else if white_space(s[0]) {
        assert(all.skip(1) =~= s.skip(1).push(c));
        assert(all[0] == s[0]);
        lemma_trimmed_end_first(s.skip(1), c);
    } else {
        assert(all[0] == s[0]);
        assert(all.drop_last() =~= s);
        assert(all.last() == c);
    }
}

/// A declaration sets the property before its first colon, in lower case, to the value behind
/// it, both without the white space at their ends.
pub proof fn law_declaration(name: Seq<char>, value: Seq<char>)
    requires
        !name.contains(';'),
        !name.contains(':'),
        !value.contains(';'),
    ensures
        properties(name + ":"@ + value) == seq![(lower(trimmed(name)), trimmed(value))],
{
    reveal_strlit(":");
    let s = name + ":"@ + value;
    assert(s =~= name + seq![':'] + value);
    assert(!s.contains(';')) by {
        assert forall|j: int| 0 <= j < s.len() implies #[trigger] s[j] != ';' by {
            if j < name.len() {
                assert(name.contains(name[j]));
            } else if j > name.len() {
                assert(value.contains(value[j - name.len() - 1]));
            }
        }
    }
    lemma_pieces_single(s, ';');
    lemma_trimmed_sides(name, ':', value);
    let a = trimmed_start(name);
    let b = trimmed_end(value);
    lemma_trimmed_sides(a, ':', value);
    let p = trimmed(s);
    assert(p =~= a + seq![':'] + b);
    let k = a.len() as int;
    lemma_start_within(name);
    lemma_occurs_char(p, ':', k);
    assert forall|j: int| 0 <= j < k implies !#[trigger] occurs_at(p, seq![':'], j) by {
        lemma_occurs_char(p, ':', j);
        assert(p[j] == a[j]);
        assert(name.contains(a[j]));
    }
    lemma_first_is(p, seq![':'], 0, k);
    assert(p.take(k) =~= a);
    assert(p.skip(k + 1) =~= b);
    lemma_trimmed_parts(name);
    lemma_trimmed_parts(value);
    let d = (trimmed(name), trimmed(value));
    assert(declaration(s) == Some(d));
    reveal_with_fuel(declared, 2);
    assert(seq![s].skip(1) =~= Seq::<Seq<char>>::empty());
    assert(declarations(s) =~= seq![d]);
    assert(lower_names(seq![d]) =~= seq![(lower(trimmed(name)), trimmed(value))]);
}

/// What is left of a text at its end is part of it.
proof fn lemma_start_within(s: Seq<char>)
    ensures
        forall|i: int| 0 <= i < trimmed_start(s).len() ==> s.contains(#[trigger] trimmed_start(s)[i]),
    decreases s.len(),
{
    if s.len() > 0 && white_space(s[0]) {
        let rest = s.skip(1);
        lemma_start_within(rest);
        assert forall|i: int| 0 <= i < trimmed_start(s).len() implies s.contains(
            #[trigger] trimmed_start(s)[i],
        ) by {
            assert(rest.contains(trimmed_start(rest)[i]));
            let j = choose|j: int| 0 <= j < rest.len() && rest[j] == trimmed_start(rest)[i];
            assert(s[j + 1] == trimmed_start(s)[i]);
        }
    }
}

/// A text without a colon and without a semicolon sets nothing.
pub proof fn law_no_declaration(s: Seq<char>)
    requires
        !s.contains(';'),
        !s.contains(':'),
    ensures
        properties(s) == Seq::<Property>::empty(),
{
    let p = trimmed(s);
    lemma_pieces_single(s, ';');
    lemma_trimmed(s);
    lemma_first_from(p, seq![':'], 0);
    if let Some(i) = first(p, seq![':']) {
        lemma_occurs_char(p, ':', i);
        assert(s.contains(p[i]));
    }
    assert(declaration(s) is None);
    reveal_with_fuel(declared, 2);
    assert(seq![s].skip(1) =~= Seq::<Seq<char>>::empty());
    assert(declarations(s) =~= Seq::<Property>::empty());
    assert(properties(s) =~= Seq::<Property>::empty());
}

/// A merged style is what the one style sets, completed by what the other one sets, written anew.
pub proof fn law_merged(existing: Seq<char>, defaults: Seq<char>)
    ensures
        merged(existing, defaults) == rendered(
            completed(properties(existing), properties(defaults)),
        ),
{
}

} // verus!
