//! Walking over the characters of a text up to where something ends.

use crate::text::{ascii_alphanumeric, ascii_lower};
use vstd::prelude::*;

verus! {

/// White space in the syntax of HTML.
pub open spec fn html_space(c: char) -> bool {
    c == ' ' || c == '\t' || c == '\n' || c == '\r' || c == '\u{c}'
}

/// What a walk stops at.
#[derive(Clone, Copy)]
pub enum Stop {
    /// This character.
    At(char),
    /// Anything but white space.
    NonSpace,
    /// Anything but white space and slashes, which stand between attributes.
    NonGap,
    /// The end of a tag's name.
    TagName,
    /// The end of an attribute's name.
    AttributeName,
    /// The end of a value without quotes.
    BareValue,
    /// Anything but an ASCII letter or digit.
    NonAlphanumeric,
}

/// The walk stops at `c`.
pub open spec fn stops(stop: Stop, c: char) -> bool {
    match stop {
        Stop::At(x) => c == x,
        Stop::NonSpace => !html_space(c),
        Stop::NonGap => !html_space(c) && c != '/',
        Stop::TagName => html_space(c) || c == '/' || c == '>',
        Stop::AttributeName => html_space(c) || c == '/' || c == '>' || c == '=',
        Stop::BareValue => html_space(c) || c == '>',
        Stop::NonAlphanumeric => !ascii_alphanumeric(c),
    }
}

/// The first position at or after `i` at which the walk stops: the end of `s` at the latest.
pub open spec fn until(s: Seq<char>, i: int, stop: Stop) -> int
    decreases s.len() - i,
{
    if i >= s.len() || stops(stop, s[i]) {
        i
    } else {
        until(s, i + 1, stop)
    }
}

/// Where a walk ends: it has passed nothing that it stops at.
pub proof fn lemma_until(s: Seq<char>, i: int, stop: Stop)
    requires
        0 <= i <= s.len(),
    ensures
        i <= until(s, i, stop) <= s.len(),
        until(s, i, stop) < s.len() ==> stops(stop, s[until(s, i, stop)]),
        forall|j: int| i <= j < until(s, i, stop) ==> !stops(stop, #[trigger] s[j]),
    decreases s.len() - i,
{
    if i < s.len() && !stops(stop, s[i]) {
        lemma_until(s, i + 1, stop);
    }
}

/// A walk ends at the first position at which it has to.
pub proof fn lemma_until_is(s: Seq<char>, i: int, stop: Stop, k: int)
    requires
        0 <= i <= k <= s.len(),
        k < s.len() ==> stops(stop, s[k]),
        forall|j: int| i <= j < k ==> !stops(stop, #[trigger] s[j]),
    ensures
        until(s, i, stop) == k,
{
    lemma_until(s, i, stop);
    let e = until(s, i, stop);
    if e < k {
        assert(!stops(stop, s[e]));
    }
    if k < e {
        assert(!stops(stop, s[k]));
    }
}

/// A walk in what stands behind a part of a text is one in the text, shifted.
pub proof fn lemma_until_behind(s: Seq<char>, n: int, i: int, stop: Stop)
    requires
        0 <= n,
        0 <= i,
        n + i <= s.len(),
    ensures
        until(s.skip(n), i, stop) + n == until(s, n + i, stop),
    decreases s.len() - i,
{
    if n + i < s.len() {
        assert(s.skip(n)[i] == s[n + i]);
        lemma_until_behind(s, n, i + 1, stop);
    }
}

fn is_html_space(c: char) -> (r: bool)
    ensures
        r == html_space(c),
{
    c == ' ' || c == '\t' || c == '\n' || c == '\r' || c == '\u{c}'
}

fn is_stop(stop: Stop, c: char) -> (r: bool)
    ensures
        r == stops(stop, c),
{
    match stop {
        Stop::At(x) => c == x,
        Stop::NonSpace => !is_html_space(c),
        Stop::NonGap => !is_html_space(c) && c != '/',
        Stop::TagName => is_html_space(c) || c == '/' || c == '>',
        Stop::AttributeName => is_html_space(c) || c == '/' || c == '>' || c == '=',
        Stop::BareValue => is_html_space(c) || c == '>',
        Stop::NonAlphanumeric => !(('a' <= c && c <= 'z') || ('A' <= c && c <= 'Z') || ('0' <= c
            && c <= '9')),
    }
}

/// The first position at or after `i` at which the walk stops.
pub fn scan(chars: &Vec<char>, i: usize, stop: Stop) -> (r: usize)
    requires
        i <= chars@.len(),
    ensures
        r == until(chars@, i as int, stop),
        i <= r <= chars@.len(),
{
    let mut k: usize = i;
    while k < chars.len() && !is_stop(stop, chars[k])
        invariant
            i <= k <= chars@.len(),
            until(chars@, k as int, stop) == until(chars@, i as int, stop),
        decreases chars@.len() - k,
    {
        k += 1;
    }
    k
}

/// The name `s` as it is compared: ASCII letters in lower case.
pub open spec fn lower_name(s: Seq<char>) -> Seq<char> {
    s.map_values(|c: char| ascii_lower(c))
}

/// The text from `from` up to `to`, with ASCII letters in lower case.
pub fn slice_name(chars: &Vec<char>, from: usize, to: usize) -> (r: String)
    requires
        from <= to <= chars@.len(),
    ensures
        r@ == lower_name(chars@.subrange(from as int, to as int)),
{
    let mut out = String::new();
    let mut i: usize = from;
    while i < to
        invariant
            from <= i <= to <= chars@.len(),
            out@ == lower_name(chars@.subrange(from as int, i as int)),
        decreases to - i,
    {
        let c = chars[i];
        let low = if 'A' <= c && c <= 'Z' {
            (c as u8 + 32) as char
        } else {
            c
        };
        out.push(low);
        assert(low == ascii_lower(c));
        assert(lower_name(chars@.subrange(from as int, i + 1)) =~= lower_name(
            chars@.subrange(from as int, i as int),
        ).push(low));
        i += 1;
    }
    out
}

/// Names are compared without regard to the case of ASCII letters, and to nothing else.
pub proof fn law_lower_name(s: Seq<char>)
    ensures
        lower_name(s).len() == s.len(),
        forall|i: int|
            0 <= i < s.len() ==> (#[trigger] lower_name(s)[i]) as u32 == if 'A' <= s[i] <= 'Z' {
                s[i] as u32 + 32
            } else {
                s[i] as u32 as int
            },
{
}

/// White space, slashes, equals signs and the end of the tag are what names and values end at.
pub proof fn law_stops(c: char, x: char)
    ensures
        stops(Stop::At(x), c) <==> c == x,
        stops(Stop::NonSpace, c) <==> c != ' ' && c != '\t' && c != '\n' && c != '\r' && c
            != '\u{c}',
        stops(Stop::NonGap, c) <==> stops(Stop::NonSpace, c) && c != '/',
        stops(Stop::TagName, c) <==> !stops(Stop::NonSpace, c) || c == '/' || c == '>',
        stops(Stop::AttributeName, c) <==> stops(Stop::TagName, c) || c == '=',
        stops(Stop::BareValue, c) <==> !stops(Stop::NonSpace, c) || c == '>',
{
}

} // verus!
