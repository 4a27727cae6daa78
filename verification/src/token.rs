//! The tags that stand in an HTML text.

use crate::scan::{lemma_until, lemma_until_behind, lemma_until_is, lower_name, scan, slice_name};
use crate::scan::{stops, until, Stop};
use crate::text::{chars_of, find_from, first_from, lemma_first_from, matches_at, occurs_at};
use crate::text::{lemma_first_is, lemma_occurs_in_tail, slice_text};
use crate::value::{read_value, value_of};
use vstd::prelude::*;

verus! {

/// An attribute's name and value.
pub type Attribute = (Seq<char>, Seq<char>);

// ---------------------------------------------------------------------------
// Attributes
// ---------------------------------------------------------------------------

/// The attribute whose name starts at `i`, and where it ends; none where the text ends
/// before.
pub open spec fn attribute_at(s: Seq<char>, i: int) -> Option<(Attribute, int)> {
    let e = until(s, i + 1, Stop::AttributeName);
    let name = lower_name(s.subrange(i, e));
    let p = until(s, e, Stop::NonSpace);
    if p < s.len() && s[p] == '=' {
        let v = until(s, p + 1, Stop::NonSpace);
        if v >= s.len() {
            None
        } else if s[v] == '"' || s[v] == '\'' {
            let q = until(s, v + 1, Stop::At(s[v]));
            if q >= s.len() {
                None
            } else {
                Some(((name, value_of(s.subrange(v + 1, q))), q + 1))
            }
        } else {
            let q = until(s, v, Stop::BareValue);
            Some(((name, value_of(s.subrange(v, q))), q))
        }
    } else {
        Some(((name, Seq::empty()), e))
    }
}

/// An attribute ends behind where it starts.
pub proof fn lemma_attribute_end(s: Seq<char>, i: int)
    requires
        0 <= i < s.len(),
    ensures
        attribute_at(s, i) matches Some((_, e)) ==> i < e <= s.len(),
{
    let e = until(s, i + 1, Stop::AttributeName);
    lemma_until(s, i + 1, Stop::AttributeName);
    let p = until(s, e, Stop::NonSpace);
    lemma_until(s, e, Stop::NonSpace);
    if p < s.len() && s[p] == '=' {
        let v = until(s, p + 1, Stop::NonSpace);
        lemma_until(s, p + 1, Stop::NonSpace);
        if v < s.len() {
            lemma_until(s, v + 1, Stop::At(s[v]));
            lemma_until(s, v, Stop::BareValue);
        }
    }
}

/// The attributes from `i` up to the end of the tag, and where that is; none where the text
/// ends before.
pub open spec fn attributes_at(s: Seq<char>, i: int) -> Option<(Seq<Attribute>, int)>
    decreases s.len() - i,
{
    let p = until(s, i, Stop::NonGap);
    proof {
        if 0 <= i <= s.len() {
            lemma_until(s, i, Stop::NonGap);
            if p < s.len() {
                lemma_attribute_end(s, p);
            }
        }
    }
    if !(0 <= i <= s.len()) || p >= s.len() {
        None
    } else if s[p] == '>' {
        Some((Seq::empty(), p + 1))
    } else {
        match attribute_at(s, p) {
            Some((a, e)) => match attributes_at(s, e) {
                Some((rest, end)) => Some((seq![a] + rest, end)),
                None => None,
            },
            None => None,
        }
    }
}

/// One of `attrs` has the name `name`.
pub open spec fn has_name(attrs: Seq<Attribute>, name: Seq<char>) -> bool {
    exists|i: int| 0 <= i < attrs.len() && (#[trigger] attrs[i]).0 == name
}

/// The first attribute of each name.
pub open spec fn distinct_names(attrs: Seq<Attribute>) -> Seq<Attribute>
    decreases attrs.len(),
{
    if attrs.len() == 0 {
        attrs
    } else {
        let front = distinct_names(attrs.drop_last());
        if has_name(front, attrs.last().0) {
            front
        } else {
            front.push(attrs.last())
        }
    }
}

/// The attributes are the same, in whatever order.
pub open spec fn same_attributes(a: Seq<Attribute>, b: Seq<Attribute>) -> bool {
    forall|x: Attribute| #[trigger] a.contains(x) <==> b.contains(x)
}

/// The attribute whose name starts at `i`, and where it ends.
pub fn read_attribute(chars: &Vec<char>, i: usize) -> (r: Option<((String, String), usize)>)
    requires
        i < chars@.len(),
    ensures
        match r {
            Some((a, e)) => attribute_at(chars@, i as int) == Some((a.deep_view(), e as int)) && i
                < e <= chars@.len(),
            None => attribute_at(chars@, i as int) is None,
        },
{
    proof {
        lemma_attribute_end(chars@, i as int);
    }
    assert(i < chars.len());
    let e = scan(chars, i + 1, Stop::AttributeName);
    let name = slice_name(chars, i, e);
    let p = scan(chars, e, Stop::NonSpace);
    if p < chars.len() && chars[p] == '=' {
        let v = scan(chars, p + 1, Stop::NonSpace);
        if v >= chars.len() {
            return None;
        }
        let c = chars[v];
        if c == '"' || c == '\'' {
            let q = scan(chars, v + 1, Stop::At(c));
            if q >= chars.len() {
                return None;
            }
            let value = read_value(slice_text(chars, v + 1, q).as_str());
            Some(((name, value), q + 1))
        } else {
            let q = scan(chars, v, Stop::BareValue);
            let value = read_value(slice_text(chars, v, q).as_str());
            Some(((name, value), q))
        }
    } else {
        let value = String::new();
        assert(value@ =~= Seq::<char>::empty());
        Some(((name, value), e))
    }
}

/// The attributes from `i` up to the end of the tag, and where that is.
fn read_attributes(chars: &Vec<char>, i: usize) -> (r: Option<(Vec<(String, String)>, usize)>)
    requires
        i <= chars@.len(),
    ensures
        match r {
            Some((attrs, end)) => attributes_at(chars@, i as int) == Some(
                (attrs.deep_view(), end as int),
            ) && i < end <= chars@.len(),
            None => attributes_at(chars@, i as int) is None,
        },
{
    let mut attrs: Vec<(String, String)> = Vec::new();
    let mut at: usize = i;
    let ghost all = attributes_at(chars@, i as int);
    proof {
        assert(attrs.deep_view() =~= Seq::empty());
        if let Some((rest, _)) = all {
            assert(attrs.deep_view() + rest =~= rest);
        }
    }
    loop
        invariant
            i <= at <= chars@.len(),
            all == attributes_at(chars@, i as int),
            match attributes_at(chars@, at as int) {
                Some((rest, end)) => all == Some((attrs.deep_view() + rest, end)),
                None => all is None,
            },
        decreases chars@.len() - at,
    {
        let p = scan(chars, at, Stop::NonGap);
        if p >= chars.len() {
            return None;
        }
        if chars[p] == '>' {
            assert(attrs.deep_view() + Seq::<Attribute>::empty() =~= attrs.deep_view());
            return Some((attrs, p + 1));
        }
        match read_attribute(chars, p) {
            Some((a, e)) => {
                let ghost before = attrs.deep_view();
                attrs.push(a);
                proof {
                    assert(attrs.deep_view() =~= before.push(a.deep_view()));
                    if let Some((rest, _)) = attributes_at(chars@, e as int) {
                        assert(before + (seq![a.deep_view()] + rest) =~= attrs.deep_view() + rest);
                    }
                }
                at = e;
            },
            None => {
                return None;
            },
        }
    }
}

fn lists_name(attrs: &Vec<(String, String)>, name: &String) -> (r: bool)
    ensures
        r == has_name(attrs.deep_view(), name@),
{
    let ghost all = attrs.deep_view();
    let mut i: usize = 0;
    while i < attrs.len()
        invariant
            all == attrs.deep_view(),
            i <= attrs@.len(),
            forall|j: int| 0 <= j < i ==> (#[trigger] all[j]).0 != name@,
        decreases attrs@.len() - i,
    {
        assert(all[i as int] == attrs[i as int].deep_view());
        if attrs[i].0 == *name {
            return true;
        }
        i += 1;
    }
    false
}

/// The first attribute of each name.
fn keep_distinct(attrs: Vec<(String, String)>) -> (r: Vec<(String, String)>)
    ensures
        r.deep_view() == distinct_names(attrs.deep_view()),
{
    let ghost all = attrs.deep_view();
    let mut out: Vec<(String, String)> = Vec::new();
    let mut i: usize = 0;
    assert(out.deep_view() =~= all.take(0));
    while i < attrs.len()
        invariant
            all == attrs.deep_view(),
            i <= attrs@.len(),
            out.deep_view() == distinct_names(all.take(i as int)),
        decreases attrs@.len() - i,
    {
        let ghost before = out.deep_view();
        proof {
            assert(all[i as int] == attrs[i as int].deep_view());
            assert(all.take(i + 1).drop_last() =~= all.take(i as int));
            assert(all.take(i + 1).last() == all[i as int]);
        }
        if !lists_name(&out, &attrs[i].0) {
            out.push((attrs[i].0.clone(), attrs[i].1.clone()));
            assert(out.deep_view() =~= before.push(all[i as int]));
        }
        i += 1;
    }
    assert(all.take(i as int) =~= all);
    out
}

fn lists_attribute(attrs: &Vec<(String, String)>, a: &(String, String)) -> (r: bool)
    ensures
        r == attrs.deep_view().contains(a.deep_view()),
{
    let ghost all = attrs.deep_view();
    let mut i: usize = 0;
    while i < attrs.len()
        invariant
            all == attrs.deep_view(),
            i <= attrs@.len(),
            forall|j: int| 0 <= j < i ==> #[trigger] all[j] != a.deep_view(),
        decreases attrs@.len() - i,
    {
        assert(all[i as int] == attrs[i as int].deep_view());
        if attrs[i].0 == a.0 && attrs[i].1 == a.1 {
            return true;
        }
        i += 1;
    }
    false
}

fn lists_attributes(attrs: &Vec<(String, String)>, of: &Vec<(String, String)>) -> (r: bool)
    ensures
        r == forall|x: Attribute| #[trigger]
            of.deep_view().contains(x) ==> attrs.deep_view().contains(x),
{
    let ghost all = of.deep_view();
    let ghost have = attrs.deep_view();
    let mut i: usize = 0;
    while i < of.len()
        invariant
            all == of.deep_view(),
            have == attrs.deep_view(),
            i <= of@.len(),
            forall|j: int| 0 <= j < i ==> have.contains(#[trigger] all[j]),
        decreases of@.len() - i,
    {
        assert(all[i as int] == of[i as int].deep_view());
        if !lists_attribute(attrs, &of[i]) {
            assert(all.contains(all[i as int]));
            return false;
        }
        i += 1;
    }
    true
}

/// Whether the attributes are the same, in whatever order.
pub fn equal_attributes(a: &Vec<(String, String)>, b: &Vec<(String, String)>) -> (r: bool)
    ensures
        r == same_attributes(a.deep_view(), b.deep_view()),
{
    let ghost x = a.deep_view();
    let ghost y = b.deep_view();
    let forth = lists_attributes(b, a);
    let back = lists_attributes(a, b);
    proof {
        if forth && back {
            assert forall|v: Attribute| #[trigger] x.contains(v) <==> y.contains(v) by {}
        }
        if same_attributes(x, y) {
            assert forall|v: Attribute| #[trigger] y.contains(v) implies x.contains(v) by {
                assert(x.contains(v) <==> y.contains(v));
            }
        }
    }
    forth && back
}

// ---------------------------------------------------------------------------
// Tags and what stands between them
// ---------------------------------------------------------------------------

/// The opening tag that stands at `i`: its name, its attributes, and where it ends.
pub open spec fn opening_at(s: Seq<char>, i: int) -> Option<(Seq<char>, Seq<Attribute>, int)> {
    if i + 1 < s.len() && s[i] == '<' && letter(s[i + 1]) {
        let e = until(s, i + 1, Stop::TagName);
        match attributes_at(s, e) {
            Some((attrs, end)) => Some(
                (lower_name(s.subrange(i + 1, e)), distinct_names(attrs), end),
            ),
            None => None,
        }
    } else {
        None
    }
}

/// `c` is an ASCII letter.
pub open spec fn letter(c: char) -> bool {
    'a' <= c <= 'z' || 'A' <= c <= 'Z'
}

/// The attributes of a tag end behind where they start.
pub proof fn lemma_attributes_end(s: Seq<char>, i: int)
    requires
        0 <= i <= s.len(),
    ensures
        attributes_at(s, i) matches Some((_, end)) ==> i < end <= s.len(),
    decreases s.len() - i,
{
    let p = until(s, i, Stop::NonGap);
    lemma_until(s, i, Stop::NonGap);
    if p < s.len() && s[p] != '>' {
        lemma_attribute_end(s, p);
        if let Some((_, e)) = attribute_at(s, p) {
            lemma_attributes_end(s, e);
        }
    }
}

/// A tag ends behind where it starts.
pub proof fn lemma_opening_end(s: Seq<char>, i: int)
    requires
        0 <= i,
    ensures
        opening_at(s, i) matches Some((_, _, end)) ==> i < end <= s.len(),
{
    if i + 1 < s.len() {
        lemma_until(s, i + 1, Stop::TagName);
        lemma_attributes_end(s, until(s, i + 1, Stop::TagName));
    }
}

/// The content of the HTML element `name` is text, whatever it looks like.
pub open spec fn raw_text(name: Seq<char>) -> bool {
    ||| name == "script"@
    ||| name == "style"@
    ||| name == "textarea"@
    ||| name == "title"@
    ||| name == "xmp"@
    ||| name == "iframe"@
    ||| name == "noembed"@
    ||| name == "noframes"@
    ||| name == "noscript"@
    ||| name == "plaintext"@
}

/// The name `name` stands at `i`, and is no longer than that.
pub open spec fn name_at(s: Seq<char>, i: int, name: Seq<char>) -> bool {
    let e = i + name.len();
    &&& e < s.len()
    &&& lower_name(s.subrange(i, e)) == name
    &&& stops(Stop::TagName, s[e])
}

/// The closing tag of the element `name` stands at `i`.
pub open spec fn closing_at(s: Seq<char>, i: int, name: Seq<char>) -> bool {
    occurs_at(s, "</"@, i) && name_at(s, i + 2, name)
}

/// Where the text of the element `name` that goes on at `i` ends.
pub open spec fn plain_end(s: Seq<char>, i: int, name: Seq<char>) -> int
    decreases s.len() - i,
{
    if i >= s.len() || closing_at(s, i, name) {
        i
    } else {
        plain_end(s, i + 1, name)
    }
}

/// What a script is read as.
#[derive(Clone, Copy)]
pub enum Script {
    /// The script itself.
    Open,
    /// A comment in the script.
    Comment,
    /// Another script in that comment.
    Inner,
}

/// Where the script that goes on at `i` ends. The end of another script in a comment does not
/// end it.
pub open spec fn script_end(s: Seq<char>, i: int, mode: Script) -> int
    decreases s.len() - i,
{
    proof {
        reveal_strlit("<!--");
        reveal_strlit("-->");
    }
    if i >= s.len() {
        s.len() as int
    } else {
        match mode {
            Script::Open => if closing_at(s, i, "script"@) {
                i
            } else if occurs_at(s, "<!--"@, i) {
                script_end(s, i + 2, Script::Comment)
            } else {
                script_end(s, i + 1, Script::Open)
            },
            Script::Comment => if occurs_at(s, "-->"@, i) {
                script_end(s, i + 3, Script::Open)
            } else if closing_at(s, i, "script"@) {
                i
            } else if s[i] == '<' && name_at(s, i + 1, "script"@) {
                script_end(s, i + 1, Script::Inner)
            } else {
                script_end(s, i + 1, Script::Comment)
            },
            Script::Inner => if occurs_at(s, "-->"@, i) {
                script_end(s, i + 3, Script::Open)
            } else if closing_at(s, i, "script"@) {
                script_end(s, i + 1, Script::Comment)
            } else {
                script_end(s, i + 1, Script::Inner)
            },
        }
    }
}

/// Where the text of the element `name` that starts at `i` ends.
pub open spec fn raw_end(s: Seq<char>, i: int, name: Seq<char>) -> int {
    if name == "plaintext"@ {
        s.len() as int
    } else if name == "script"@ {
        script_end(s, i, Script::Open)
    } else {
        plain_end(s, i, name)
    }
}

/// Where the comment that starts at `i` ends: behind `-->` or `--!>`, or with the text.
pub open spec fn comment_end(s: Seq<char>, i: int) -> int {
    match (first_from(s, "-->"@, i + 2), first_from(s, "--!>"@, i + 4)) {
        (Some(k), Some(n)) => if k < n {
            k + 3
        } else {
            n + 4
        },
        (Some(k), None) => k + 3,
        (None, Some(n)) => n + 4,
        (None, None) => s.len() as int,
    }
}

/// Where that ends which stands at `i` and is no opening tag: a comment, another kind of tag,
/// or text. Unparsed text between brackets is only known in `foreign` content.
pub open spec fn other_end(s: Seq<char>, i: int, foreign: bool) -> int {
    if s[i] != '<' {
        until(s, i, Stop::At('<'))
    } else if occurs_at(s, "<!--"@, i) {
        comment_end(s, i)
    } else if foreign && occurs_at(s, "<![CDATA["@, i) {
        match first_from(s, "]]>"@, i + 9) {
            Some(k) => k + 3,
            None => s.len() as int,
        }
    } else if i + 2 < s.len() && s[i + 1] == '/' && letter(s[i + 2]) {
        match attributes_at(s, until(s, i + 2, Stop::TagName)) {
            Some((_, end)) => end,
            None => s.len() as int,
        }
    } else if i + 1 < s.len() && (s[i + 1] == '!' || s[i + 1] == '?' || s[i + 1] == '/') {
        let k = until(s, i + 1, Stop::At('>'));
        if k < s.len() {
            k + 1
        } else {
            k
        }
    } else if i + 1 < s.len() && letter(s[i + 1]) {
        s.len() as int
    } else {
        until(s, i + 1, Stop::At('<'))
    }
}

/// Where the text of an element ends.
pub proof fn lemma_raw_end(s: Seq<char>, i: int, name: Seq<char>)
    requires
        0 <= i <= s.len(),
    ensures
        i <= raw_end(s, i, name) <= s.len(),
{
    lemma_plain_end(s, i, name);
    lemma_script_end(s, i, Script::Open);
}

/// Where the text of an element ends that is no script.
pub proof fn lemma_plain_end(s: Seq<char>, i: int, name: Seq<char>)
    requires
        0 <= i <= s.len(),
    ensures
        i <= plain_end(s, i, name) <= s.len(),
    decreases s.len() - i,
{
    if i < s.len() && !closing_at(s, i, name) {
        lemma_plain_end(s, i + 1, name);
    }
}

/// Where a script ends.
pub proof fn lemma_script_end(s: Seq<char>, i: int, mode: Script)
    requires
        0 <= i <= s.len(),
    ensures
        i <= script_end(s, i, mode) <= s.len(),
    decreases s.len() - i,
{
    reveal_strlit("<!--");
    reveal_strlit("-->");
    if i < s.len() {
        lemma_script_end(s, i + 1, Script::Open);
        lemma_script_end(s, i + 1, Script::Comment);
        lemma_script_end(s, i + 1, Script::Inner);
        if occurs_at(s, "<!--"@, i) {
            lemma_script_end(s, i + 2, Script::Comment);
        }
        if occurs_at(s, "-->"@, i) {
            lemma_script_end(s, i + 3, Script::Open);
        }
    }
}

/// What is no opening tag ends behind where it starts.
pub proof fn lemma_other_end(s: Seq<char>, i: int, foreign: bool)
    requires
        0 <= i < s.len(),
    ensures
        i < other_end(s, i, foreign) <= s.len(),
{
    reveal_strlit("-->");
    reveal_strlit("--!>");
    reveal_strlit("<!--");
    reveal_strlit("<![CDATA[");
    reveal_strlit("]]>");
    lemma_until(s, i, Stop::At('<'));
    lemma_until(s, i + 1, Stop::At('<'));
    lemma_until(s, i + 1, Stop::At('>'));
    lemma_first_from(s, "-->"@, i + 2);
    lemma_first_from(s, "--!>"@, i + 4);
    lemma_first_from(s, "]]>"@, i + 9);
    if i + 2 < s.len() {
        lemma_until(s, i + 2, Stop::TagName);
        lemma_attributes_end(s, until(s, i + 2, Stop::TagName));
    }
}

// ---------------------------------------------------------------------------
// Foreign content
// ---------------------------------------------------------------------------

/// Names of elements that are open, the outermost first: those that bring in foreign content,
/// and those in it that hold HTML again.
pub type Open = Seq<Seq<char>>;

/// The element `name` brings in foreign content.
pub open spec fn brings_foreign(name: Seq<char>) -> bool {
    name == "svg"@ || name == "math"@
}

/// What comes next is foreign content.
pub open spec fn foreign(open: Open) -> bool {
    open.len() > 0 && brings_foreign(open.last())
}

/// The element `name`, in the foreign content of `outer`, holds HTML again.
pub open spec fn holds_html(outer: Seq<char>, name: Seq<char>) -> bool {
    if outer == "svg"@ {
        name == "foreignobject"@ || name == "desc"@ || name == "title"@
    } else {
        name == "mi"@ || name == "mo"@ || name == "mn"@ || name == "ms"@ || name == "mtext"@
    }
}

/// The element `name` ends the foreign content that it stands in.
#[verifier::opaque]
pub open spec fn breaks_out(name: Seq<char>) -> bool {
    breakout_names().contains(name)
}

/// The names of the elements that end the foreign content that they stand in.
pub open spec fn breakout_names() -> Seq<Seq<char>> {
    seq![
        "b"@,
        "big"@,
        "blockquote"@,
        "body"@,
        "br"@,
        "center"@,
        "code"@,
        "dd"@,
        "div"@,
        "dl"@,
        "dt"@,
        "em"@,
        "embed"@,
        "h1"@,
        "h2"@,
        "h3"@,
        "h4"@,
        "h5"@,
        "h6"@,
        "head"@,
        "hr"@,
        "i"@,
        "img"@,
        "li"@,
        "listing"@,
        "menu"@,
        "meta"@,
        "nobr"@,
        "ol"@,
        "p"@,
        "pre"@,
        "ruby"@,
        "s"@,
        "small"@,
        "span"@,
        "strong"@,
        "strike"@,
        "sub"@,
        "sup"@,
        "table"@,
        "tt"@,
        "u"@,
        "ul"@,
        "var"@,
    ]
}

/// The opening tag with this name and these attributes ends the foreign content that it stands
/// in.
pub open spec fn tag_breaks_out(name: Seq<char>, attrs: Seq<Attribute>) -> bool {
    breaks_out(name) || (name == "font"@ && (has_name(attrs, "color"@) || has_name(attrs, "face"@)
        || has_name(attrs, "size"@)))
}

/// `open` without the foreign content at its end.
pub open spec fn left(open: Open) -> Open
    decreases open.len(),
{
    if foreign(open) {
        left(open.drop_last())
    } else {
        open
    }
}

/// What is open behind an opening tag, which may be `closed` by a slash.
pub open spec fn entered(
    open: Open,
    name: Seq<char>,
    attrs: Seq<Attribute>,
    closed: bool,
) -> Open {
    if foreign(open) && tag_breaks_out(name, attrs) {
        left(open)
    } else if !closed && (brings_foreign(name) || (foreign(open) && holds_html(open.last(), name))) {
        open.push(name)
    } else {
        open
    }
}

/// The tag whose attributes start at `i` ends with a gap, not with a name or a value.
pub open spec fn ends_in_gap(s: Seq<char>, i: int) -> bool
    decreases s.len() - i,
{
    let p = until(s, i, Stop::NonGap);
    proof {
        if 0 <= i <= s.len() {
            lemma_until(s, i, Stop::NonGap);
            if p < s.len() {
                lemma_attribute_end(s, p);
            }
        }
    }
    if !(0 <= i <= s.len()) || p >= s.len() {
        false
    } else if s[p] == '>' {
        p > i
    } else {
        match attribute_at(s, p) {
            Some((_, e)) => ends_in_gap(s, e),
            None => false,
        }
    }
}

/// The opening tag from `i` up to `end` is closed by a slash.
pub open spec fn self_closing(s: Seq<char>, i: int, end: int) -> bool {
    s[end - 2] == '/' && ends_in_gap(s, until(s, i + 1, Stop::TagName))
}

/// `open` without the last element `name` and what is in it.
pub open spec fn without_last(open: Open, name: Seq<char>) -> Open
    decreases open.len(),
{
    if open.len() == 0 {
        open
    } else if open.last() == name {
        open.drop_last()
    } else {
        without_last(open.drop_last(), name)
    }
}

/// What is open behind the closing tag of the element `name`.
pub open spec fn exited(open: Open, name: Seq<char>) -> Open {
    if open.contains(name) {
        without_last(open, name)
    } else if foreign(open) && (name == "p"@ || name == "br"@) {
        left(open)
    } else {
        open
    }
}

/// What is open behind that which stands at `i` and is no opening tag.
pub open spec fn passed(s: Seq<char>, i: int, open: Open) -> Open {
    if i + 2 < s.len() && s[i] == '<' && s[i + 1] == '/' && letter(s[i + 2]) {
        exited(open, lower_name(s.subrange(i + 2, until(s, i + 2, Stop::TagName))))
    } else {
        open
    }
}

// ---------------------------------------------------------------------------
// The parts of a text
// ---------------------------------------------------------------------------

/// A part of a text: an opening tag, by its name and its attributes, or something else.
pub struct Token {
    pub text: String,
    pub tag: Option<(String, Vec<(String, String)>)>,
}

/// What a [`Token`] holds.
pub struct TokenView {
    pub text: Seq<char>,
    pub tag: Option<(Seq<char>, Seq<Attribute>)>,
}

impl DeepView for Token {
    type V = TokenView;

    open spec fn deep_view(&self) -> TokenView {
        TokenView { text: self.text@, tag: self.tag.deep_view() }
    }
}

/// The parts of a text from `i` on, in order, where the elements `open` are open.
pub open spec fn tokens_from(s: Seq<char>, i: int, open: Open) -> Seq<TokenView>
    decreases s.len() - i,
{
    proof {
        if 0 <= i < s.len() {
            lemma_opening_end(s, i);
            lemma_other_end(s, i, foreign(open));
            if let Some((name, _, end)) = opening_at(s, i) {
                lemma_raw_end(s, end, name);
            }
        }
    }
    if !(0 <= i < s.len()) {
        Seq::empty()
    } else {
        match opening_at(s, i) {
            Some((name, attrs, end)) => {
                let tag = TokenView { text: s.subrange(i, end), tag: Some((name, attrs)) };
                if raw_text(name) && !foreign(open) {
                    let r = raw_end(s, end, name);
                    let content = TokenView { text: s.subrange(end, r), tag: None };
                    seq![tag, content] + tokens_from(s, r, open)
                } else {
                    let inner = entered(open, name, attrs, self_closing(s, i, end));
                    seq![tag] + tokens_from(s, end, inner)
                }
            },
            None => {
                let e = other_end(s, i, foreign(open));
                let text = TokenView { text: s.subrange(i, e), tag: None };
                seq![text] + tokens_from(s, e, passed(s, i, open))
            },
        }
    }
}

/// The parts of a text, in order.
pub open spec fn tokens(s: Seq<char>) -> Seq<TokenView> {
    tokens_from(s, 0, Seq::empty())
}

/// The text that the parts make up.
pub open spec fn text_of(parts: Seq<TokenView>) -> Seq<char>
    decreases parts.len(),
{
    if parts.len() == 0 {
        Seq::empty()
    } else {
        parts[0].text + text_of(parts.skip(1))
    }
}

/// An opening tag has a name, and brackets around it.
proof fn lemma_opening_length(s: Seq<char>, i: int)
    requires
        0 <= i,
    ensures
        opening_at(s, i) matches Some((_, _, end)) ==> i + 2 < end <= s.len(),
{
    if i + 1 < s.len() {
        let e = until(s, i + 1, Stop::TagName);
        lemma_until(s, i + 1, Stop::TagName);
        if letter(s[i + 1]) {
            assert(!stops(Stop::TagName, s[i + 1]));
            lemma_until(s, i + 2, Stop::TagName);
        }
        lemma_attributes_end(s, e);
    }
}

fn is_name(name: &String, other: &str) -> (r: bool)
    ensures
        r == (name@ == other@),
{
    *name == other.to_owned()
}

fn is_raw_text(name: &String) -> (r: bool)
    ensures
        r == raw_text(name@),
{
    is_name(name, "script") || is_name(name, "style") || is_name(name, "textarea") || is_name(
        name,
        "title",
    ) || is_name(name, "xmp") || is_name(name, "iframe") || is_name(name, "noembed") || is_name(
        name,
        "noframes",
    ) || is_name(name, "noscript") || is_name(name, "plaintext")
}

fn is_letter(c: char) -> (r: bool)
    ensures
        r == letter(c),
{
    ('a' <= c && c <= 'z') || ('A' <= c && c <= 'Z')
}

/// The opening tag that stands at `i`: its name, its attributes, and where it ends.
fn read_opening(chars: &Vec<char>, i: usize) -> (r: Option<
    ((String, Vec<(String, String)>), usize),
>)
    requires
        i < chars@.len(),
    ensures
        match r {
            Some((tag, end)) => opening_at(chars@, i as int) == Some(
                (tag.deep_view().0, tag.deep_view().1, end as int),
            ) && i < end <= chars@.len(),
            None => opening_at(chars@, i as int) is None,
        },
{
    if chars.len() - i > 1 && chars[i] == '<' && is_letter(chars[i + 1]) {
        let e = scan(chars, i + 1, Stop::TagName);
        match read_attributes(chars, e) {
            Some((attrs, end)) => Some(
                ((slice_name(chars, i + 1, e), keep_distinct(attrs)), end),
            ),
            None => None,
        }
    } else {
        None
    }
}

/// The opening tag that `text` starts with: its name, its attributes, and where it ends.
pub fn read_tag(text: &str) -> (r: Option<((String, Vec<(String, String)>), usize)>)
    ensures
        match r {
            Some((tag, end)) => opening_at(text@, 0) == Some(
                (tag.deep_view().0, tag.deep_view().1, end as int),
            ) && end <= text@.len(),
            None => opening_at(text@, 0) is None,
        },
{
    let chars = chars_of(text);
    if chars.len() == 0 {
        None
    } else {
        read_opening(&chars, 0)
    }
}

fn is_name_at(chars: &Vec<char>, i: usize, name: &Vec<char>) -> (r: bool)
    requires
        i <= chars@.len(),
    ensures
        r == name_at(chars@, i as int, name@),
{
    if name.len() >= chars.len() - i {
        return false;
    }
    let e: usize = i + name.len();
    let c = chars[e];
    if !(c == ' ' || c == '\t' || c == '\n' || c == '\r' || c == '\u{c}' || c == '/' || c == '>') {
        return false;
    }
    let found = chars_of(slice_name(chars, i, e).as_str());
    let same = matches_at(&found, name, 0);
    proof {
        assert(found@.len() == name@.len());
        assert(found@.subrange(0, name@.len() as int) =~= found@);
    }
    same
}

fn is_closing(chars: &Vec<char>, i: usize, name: &Vec<char>) -> (r: bool)
    requires
        i <= chars@.len(),
    ensures
        r == closing_at(chars@, i as int, name@),
{
    proof {
        reveal_strlit("</");
    }
    if !matches_at(chars, &chars_of("</"), i) {
        return false;
    }
    assert(i + 2 <= chars.len());
    is_name_at(chars, i + 2, name)
}

fn find_plain_end(chars: &Vec<char>, i: usize, name: &Vec<char>) -> (r: usize)
    requires
        i <= chars@.len(),
    ensures
        r == plain_end(chars@, i as int, name@),
        i <= r <= chars@.len(),
{
    let mut k: usize = i;
    while k < chars.len() && !is_closing(chars, k, name)
        invariant
            i <= k <= chars@.len(),
            plain_end(chars@, k as int, name@) == plain_end(chars@, i as int, name@),
        decreases chars@.len() - k,
    {
        k += 1;
    }
    k
}

fn find_script_end(chars: &Vec<char>, i: usize) -> (r: usize)
    requires
        i <= chars@.len(),
    ensures
        r == script_end(chars@, i as int, Script::Open),
        i <= r <= chars@.len(),
{
    let name = chars_of("script");
    let start = chars_of("<!--");
    let stop = chars_of("-->");
    let mut mode = Script::Open;
    let mut k: usize = i;
    proof {
        reveal_strlit("<!--");
        reveal_strlit("-->");
        lemma_script_end(chars@, i as int, Script::Open);
    }
    while k < chars.len()
        invariant
            name@ == "script"@,
            start@ == "<!--"@,
            start@.len() == 4,
            stop@ == "-->"@,
            stop@.len() == 3,
            i <= k <= chars@.len(),
            i <= script_end(chars@, i as int, Script::Open) <= chars@.len(),
            script_end(chars@, k as int, mode) == script_end(chars@, i as int, Script::Open),
        decreases chars@.len() - k,
    {
        assert(k < chars.len());
        match mode {
            Script::Open => {
                if is_closing(chars, k, &name) {
                    return k;
                }
                if matches_at(chars, &start, k) {
                    mode = Script::Comment;
                    k += 2;
                } else {
                    k += 1;
                }
            },
            Script::Comment => {
                if matches_at(chars, &stop, k) {
                    mode = Script::Open;
                    k += 3;
                } else {
                    if is_closing(chars, k, &name) {
                        return k;
                    }
                    if chars[k] == '<' && is_name_at(chars, k + 1, &name) {
                        mode = Script::Inner;
                    }
                    k += 1;
                }
            },
            Script::Inner => {
                if matches_at(chars, &stop, k) {
                    mode = Script::Open;
                    k += 3;
                } else {
                    if is_closing(chars, k, &name) {
                        mode = Script::Comment;
                    }
                    k += 1;
                }
            },
        }
    }
    k
}

fn find_raw_end(chars: &Vec<char>, i: usize, name: &String) -> (r: usize)
    requires
        i <= chars@.len(),
    ensures
        r == raw_end(chars@, i as int, name@),
        i <= r <= chars@.len(),
{
    if is_name(name, "plaintext") {
        chars.len()
    } else if is_name(name, "script") {
        find_script_end(chars, i)
    } else {
        find_plain_end(chars, i, &chars_of(name.as_str()))
    }
}

fn find_comment_end(chars: &Vec<char>, i: usize) -> (r: usize)
    requires
        i + 4 <= chars@.len(),
    ensures
        r == comment_end(chars@, i as int),
        i + 4 <= r <= chars@.len(),
{
    proof {
        reveal_strlit("-->");
        reveal_strlit("--!>");
        lemma_first_from(chars@, "-->"@, i + 2);
        lemma_first_from(chars@, "--!>"@, i + 4);
    }
    assert(i + 4 <= chars.len());
    let plain = find_from(chars, &chars_of("-->"), i + 2);
    let bang = find_from(chars, &chars_of("--!>"), i + 4);
    match (plain, bang) {
        (Some(k), Some(n)) => {
            assert(k + 3 <= chars.len() && n + 4 <= chars.len());
            if k < n {
                k + 3
            } else {
                n + 4
            }
        },
        (Some(k), None) => {
            assert(k + 3 <= chars.len());
            k + 3
        },
        (None, Some(n)) => {
            assert(n + 4 <= chars.len());
            n + 4
        },
        (None, None) => chars.len(),
    }
}

fn find_other_end(chars: &Vec<char>, i: usize, in_foreign: bool) -> (r: usize)
    requires
        i < chars@.len(),
    ensures
        r == other_end(chars@, i as int, in_foreign),
        i < r <= chars@.len(),
{
    proof {
        reveal_strlit("<!--");
        reveal_strlit("<![CDATA[");
        reveal_strlit("]]>");
        lemma_other_end(chars@, i as int, in_foreign);
        lemma_first_from(chars@, "]]>"@, i + 9);
    }
    if chars[i] != '<' {
        return scan(chars, i, Stop::At('<'));
    }
    if matches_at(chars, &chars_of("<!--"), i) {
        return find_comment_end(chars, i);
    }
    if in_foreign && matches_at(chars, &chars_of("<![CDATA["), i) {
        assert(i + 9 <= chars.len());
        return match find_from(chars, &chars_of("]]>"), i + 9) {
            Some(k) => {
                assert(k + 3 <= chars.len());
                k + 3
            },
            None => chars.len(),
        };
    }
    if chars.len() - i > 2 && chars[i + 1] == '/' && is_letter(chars[i + 2]) {
        return match read_attributes(chars, scan(chars, i + 2, Stop::TagName)) {
            Some((_, end)) => end,
            None => chars.len(),
        };
    }
    if chars.len() - i > 1 {
        let c = chars[i + 1];
        if c == '!' || c == '?' || c == '/' {
            let k = scan(chars, i + 1, Stop::At('>'));
            return if k < chars.len() {
                k + 1
            } else {
                k
            };
        }
        if is_letter(c) {
            return chars.len();
        }
    }
    assert(i < chars.len());
    scan(chars, i + 1, Stop::At('<'))
}

fn is_bringing_foreign(name: &String) -> (r: bool)
    ensures
        r == brings_foreign(name@),
{
    is_name(name, "svg") || is_name(name, "math")
}

fn in_foreign(open: &Vec<String>) -> (r: bool)
    ensures
        r == foreign(open.deep_view()),
{
    assert(open.deep_view().len() == open@.len());
    if open.len() == 0 {
        return false;
    }
    assert(open.deep_view().last() == open[open.len() - 1]@);
    is_bringing_foreign(&open[open.len() - 1])
}

fn is_holding_html(outer: &String, name: &String) -> (r: bool)
    ensures
        r == holds_html(outer@, name@),
{
    if is_name(outer, "svg") {
        is_name(name, "foreignobject") || is_name(name, "desc") || is_name(name, "title")
    } else {
        is_name(name, "mi") || is_name(name, "mo") || is_name(name, "mn") || is_name(name, "ms")
            || is_name(name, "mtext")
    }
}

fn lists_text(texts: &Vec<String>, text: &String) -> (r: bool)
    ensures
        r == texts.deep_view().contains(text@),
{
    let ghost all = texts.deep_view();
    let mut i: usize = 0;
    while i < texts.len()
        invariant
            all == texts.deep_view(),
            i <= texts@.len(),
            forall|j: int| 0 <= j < i ==> #[trigger] all[j] != text@,
        decreases texts@.len() - i,
    {
        assert(all[i as int] == texts[i as int]@);
        if texts[i] == *text {
            return true;
        }
        i += 1;
    }
    false
}

fn is_breaking_out(name: &String) -> (r: bool)
    ensures
        r == breaks_out(name@),
{
    let names = vec![
        "b", "big", "blockquote", "body", "br", "center", "code", "dd", "div", "dl", "dt", "em",
        "embed", "h1", "h2", "h3", "h4", "h5", "h6", "head", "hr", "i", "img", "li", "listing",
        "menu", "meta", "nobr", "ol", "p", "pre", "ruby", "s", "small", "span", "strong", "strike",
        "sub", "sup", "table", "tt", "u", "ul", "var",
    ];
    let ghost all = names.deep_view();
    assert(all =~= breakout_names());
    let mut i: usize = 0;
    proof {
        reveal(breaks_out);
    }
    while i < names.len()
        invariant
            all == names.deep_view(),
            breaks_out(name@) == all.contains(name@),
            i <= names@.len(),
            forall|j: int| 0 <= j < i ==> #[trigger] all[j] != name@,
        decreases names@.len() - i,
    {
        assert(all[i as int] == names[i as int]@);
        if is_name(name, names[i]) {
            return true;
        }
        i += 1;
    }
    false
}

fn is_tag_breaking_out(name: &String, attrs: &Vec<(String, String)>) -> (r: bool)
    ensures
        r == tag_breaks_out(name@, attrs.deep_view()),
{
    is_breaking_out(name) || (is_name(name, "font") && (lists_name(attrs, &"color".to_owned())
        || lists_name(attrs, &"face".to_owned()) || lists_name(attrs, &"size".to_owned())))
}

fn drop_last_open(open: Vec<String>) -> (r: Vec<String>)
    requires
        open@.len() > 0,
    ensures
        r.deep_view() == open.deep_view().drop_last(),
{
    let ghost before = open.deep_view();
    let mut out = open;
    out.pop();
    assert(out.deep_view() =~= before.drop_last());
    out
}

fn leave_foreign(open: Vec<String>) -> (r: Vec<String>)
    ensures
        r.deep_view() == left(open.deep_view()),
{
    let ghost all = open.deep_view();
    let mut out = open;
    while in_foreign(&out)
        invariant
            left(out.deep_view()) == left(all),
        decreases out@.len(),
    {
        assert(out.deep_view().len() == out@.len());
        out = drop_last_open(out);
        assert(out.deep_view().len() == out@.len());
    }
    out
}

fn enter(open: Vec<String>, name: &String, attrs: &Vec<(String, String)>, closed: bool) -> (r: Vec<
    String,
>)
    ensures
        r.deep_view() == entered(open.deep_view(), name@, attrs.deep_view(), closed),
{
    let now = in_foreign(&open);
    assert(open.deep_view().len() == open@.len());
    if now && is_tag_breaking_out(name, attrs) {
        return leave_foreign(open);
    }
    if !closed {
        let inner = if now {
            assert(open.deep_view().last() == open[open.len() - 1]@);
            is_holding_html(&open[open.len() - 1], name)
        } else {
            false
        };
        if inner || is_bringing_foreign(name) {
            let ghost before = open.deep_view();
            let mut out = open;
            out.push(name.clone());
            assert(out.deep_view() =~= before.push(name@));
            return out;
        }
    }
    open
}

fn is_self_closing(chars: &Vec<char>, i: usize, end: usize) -> (r: bool)
    requires
        i + 2 < end <= chars@.len(),
    ensures
        r == self_closing(chars@, i as int, end as int),
{
    if chars[end - 2] != '/' {
        return false;
    }
    let start = scan(chars, i + 1, Stop::TagName);
    let mut at: usize = start;
    loop
        invariant
            at <= chars@.len(),
            ends_in_gap(chars@, at as int) == ends_in_gap(chars@, start as int),
            ends_in_gap(chars@, start as int) == self_closing(chars@, i as int, end as int),
        decreases chars@.len() - at,
    {
        let p = scan(chars, at, Stop::NonGap);
        if p >= chars.len() {
            return false;
        }
        if chars[p] == '>' {
            return p > at;
        }
        match read_attribute(chars, p) {
            Some((_, e)) => {
                at = e;
            },
            None => {
                return false;
            },
        }
    }
}

fn exit(open: Vec<String>, name: &String) -> (r: Vec<String>)
    ensures
        r.deep_view() == exited(open.deep_view(), name@),
{
    let ghost all = open.deep_view();
    if lists_text(&open, name) {
        let mut out = open;
        while out.len() > 0
            invariant
                all.contains(name@),
                all == open.deep_view(),
                without_last(out.deep_view(), name@) == without_last(all, name@),
            decreases out@.len(),
        {
            assert(out.deep_view().len() == out@.len());
            assert(out.deep_view().last() == out[out.len() - 1]@);
            let found = out[out.len() - 1] == *name;
            out = drop_last_open(out);
            assert(out.deep_view().len() == out@.len());
            if found {
                return out;
            }
        }
        assert(out.deep_view().len() == out@.len());
        out
    } else if in_foreign(&open) && (is_name(name, "p") || is_name(name, "br")) {
        leave_foreign(open)
    } else {
        open
    }
}

fn pass(chars: &Vec<char>, i: usize, open: Vec<String>) -> (r: Vec<String>)
    requires
        i < chars@.len(),
    ensures
        r.deep_view() == passed(chars@, i as int, open.deep_view()),
{
    if chars.len() - i > 2 && chars[i] == '<' && chars[i + 1] == '/' && is_letter(chars[i + 2]) {
        let e = scan(chars, i + 2, Stop::TagName);
        exit(open, &slice_name(chars, i + 2, e))
    } else {
        open
    }
}

/// The parts of `html`, in order.
pub fn tokenize(html: &str) -> (r: Vec<Token>)
    ensures
        r.deep_view() == tokens(html@),
{
    let chars = chars_of(html);
    let ghost s = chars@;
    let ghost all = tokens(s);
    let mut out: Vec<Token> = Vec::new();
    let mut open: Vec<String> = Vec::new();
    let mut i: usize = 0;
    assert(open.deep_view() =~= Seq::empty());
    assert(out.deep_view() + all =~= all);
    while i < chars.len()
        invariant
            s == chars@,
            i <= chars@.len(),
            out.deep_view() + tokens_from(s, i as int, open.deep_view()) == all,
        decreases chars@.len() - i,
    {
        let ghost before = out.deep_view();
        match read_opening(&chars, i) {
            Some((tag, end)) => {
                proof {
                    lemma_opening_length(s, i as int);
                }
                let raw = is_raw_text(&tag.0) && !in_foreign(&open);
                let next = if raw {
                    find_raw_end(&chars, end, &tag.0)
                } else {
                    let closed = is_self_closing(&chars, i, end);
                    open = enter(open, &tag.0, &tag.1, closed);
                    end
                };
                let token = Token { text: slice_text(&chars, i, end), tag: Some(tag) };
                let ghost view = token.deep_view();
                let ghost rest = tokens_from(s, next as int, open.deep_view());
                out.push(token);
                assert(out.deep_view() =~= before.push(view));
                if raw {
                    let content = Token { text: slice_text(&chars, end, next), tag: None };
                    let ghost inner = content.deep_view();
                    out.push(content);
                    assert(out.deep_view() =~= before.push(view).push(inner));
                    assert(out.deep_view() + rest =~= before + (seq![view, inner] + rest));
                } else {
                    assert(out.deep_view() + rest =~= before + (seq![view] + rest));
                }
                i = next;
            },
            None => {
                let next = find_other_end(&chars, i, in_foreign(&open));
                open = pass(&chars, i, open);
                let token = Token { text: slice_text(&chars, i, next), tag: None };
                let ghost view = token.deep_view();
                let ghost rest = tokens_from(s, next as int, open.deep_view());
                out.push(token);
                assert(out.deep_view() =~= before.push(view));
                assert(out.deep_view() + rest =~= before + (seq![view] + rest));
                i = next;
            },
        }
    }
    assert(out.deep_view() + tokens_from(s, i as int, open.deep_view()) =~= out.deep_view());
    out
}

/// The text that the parts make up.
pub fn write_tokens(parts: &Vec<Token>) -> (r: String)
    ensures
        r@ == text_of(parts.deep_view()),
{
    let ghost all = parts.deep_view();
    let mut out = String::new();
    let mut i: usize = 0;
    assert(all.skip(0) =~= all);
    assert(out@ + text_of(all) =~= text_of(all));
    while i < parts.len()
        invariant
            all == parts.deep_view(),
            i <= parts@.len(),
            out@ + text_of(all.skip(i as int)) == text_of(all),
        decreases parts@.len() - i,
    {
        let ghost before = out@;
        assert(all[i as int] == parts[i as int].deep_view());
        assert(all.skip(i as int).skip(1) =~= all.skip(i + 1));
        out.append(parts[i].text.as_str());
        assert(out@ + text_of(all.skip(i + 1)) =~= before + (all[i as int].text + text_of(
            all.skip(i + 1),
        )));
        i += 1;
    }
    assert(out@ + text_of(all.skip(i as int)) =~= out@);
    out
}

// ---------------------------------------------------------------------------
// Laws
// ---------------------------------------------------------------------------

#[verifier::rlimit(40)]
#[verifier::spinoff_prover]
proof fn lemma_tokens_cover(s: Seq<char>, i: int, open: Open)
    requires
        0 <= i <= s.len(),
    ensures
        text_of(tokens_from(s, i, open)) == s.skip(i),
    decreases s.len() - i,
{
    let all = tokens_from(s, i, open);
    if i == s.len() {
        assert(s.skip(i) =~= Seq::<char>::empty());
    } else {
        lemma_opening_end(s, i);
        lemma_other_end(s, i, foreign(open));
        match opening_at(s, i) {
            Some((name, attrs, end)) => {
                if raw_text(name) && !foreign(open) {
                    lemma_raw_end(s, end, name);
                    let r = raw_end(s, end, name);
                    lemma_tokens_cover(s, r, open);
                    assert(all.skip(1).skip(1) =~= tokens_from(s, r, open));
                    assert(all.skip(1)[0] == all[1]);
                    assert(text_of(all.skip(1)) =~= s.skip(end));
                } else {
                    let inner = entered(open, name, attrs, self_closing(s, i, end));
                    lemma_tokens_cover(s, end, inner);
                    assert(all.skip(1) =~= tokens_from(s, end, inner));
                }
                assert(s.skip(i) =~= s.subrange(i, end) + s.skip(end));
            },
            None => {
                let e = other_end(s, i, foreign(open));
                let next = passed(s, i, open);
                lemma_tokens_cover(s, e, next);
                assert(all.skip(1) =~= tokens_from(s, e, next));
                assert(s.skip(i) =~= s.subrange(i, e) + s.skip(e));
            },
        }
    }
}

/// The parts of a text make up that text: nothing of it is lost.
pub proof fn law_tokens_cover(s: Seq<char>)
    ensures
        text_of(tokens(s)) == s,
{
    lemma_tokens_cover(s, 0, Seq::empty());
    assert(s.skip(0) =~= s);
}

// ---------------------------------------------------------------------------
// What stands before a part makes no difference to it
// ---------------------------------------------------------------------------

proof fn lemma_first_in_tail(s: Seq<char>, pat: Seq<char>, n: int, i: int)
    requires
        0 <= n <= s.len(),
        0 <= i,
    ensures
        first_from(s, pat, n + i) == match first_from(s.skip(n), pat, i) {
            Some(k) => Some(k + n),
            None => None,
        },
    decreases s.len() - i + 1,
{
    if n + i + pat.len() <= s.len() {
        lemma_occurs_in_tail(s, pat, n, i);
        if !occurs_at(s, pat, n + i) {
            lemma_first_in_tail(s, pat, n, i + 1);
        }
    }
}

proof fn lemma_attribute_in_tail(s: Seq<char>, n: int, i: int)
    requires
        0 <= n,
        0 <= i,
        n + i < s.len(),
    ensures
        attribute_at(s, n + i) == match attribute_at(s.skip(n), i) {
            Some((a, e)) => Some((a, e + n)),
            None => None,
        },
{
    let t = s.skip(n);
    let e = until(t, i + 1, Stop::AttributeName);
    lemma_until_behind(s, n, i + 1, Stop::AttributeName);
    lemma_until(t, i + 1, Stop::AttributeName);
    assert(t.subrange(i, e) =~= s.subrange(n + i, n + e));
    let p = until(t, e, Stop::NonSpace);
    lemma_until_behind(s, n, e, Stop::NonSpace);
    lemma_until(t, e, Stop::NonSpace);
    if p < t.len() && t[p] == '=' {
        let v = until(t, p + 1, Stop::NonSpace);
        lemma_until_behind(s, n, p + 1, Stop::NonSpace);
        lemma_until(t, p + 1, Stop::NonSpace);
        if v < t.len() {
            if t[v] == '"' || t[v] == '\'' {
                let q = until(t, v + 1, Stop::At(t[v]));
                lemma_until_behind(s, n, v + 1, Stop::At(t[v]));
                lemma_until(t, v + 1, Stop::At(t[v]));
                assert(t.subrange(v + 1, q) =~= s.subrange(n + v + 1, n + q));
            } else {
                let q = until(t, v, Stop::BareValue);
                lemma_until_behind(s, n, v, Stop::BareValue);
                lemma_until(t, v, Stop::BareValue);
                assert(t.subrange(v, q) =~= s.subrange(n + v, n + q));
            }
        }
    }
}

proof fn lemma_attributes_in_tail(s: Seq<char>, n: int, i: int)
    requires
        0 <= n,
        0 <= i,
        n + i <= s.len(),
    ensures
        attributes_at(s, n + i) == match attributes_at(s.skip(n), i) {
            Some((attrs, end)) => Some((attrs, end + n)),
            None => None,
        },
    decreases s.len() - i,
{
    let t = s.skip(n);
    let p = until(t, i, Stop::NonGap);
    lemma_until_behind(s, n, i, Stop::NonGap);
    lemma_until(t, i, Stop::NonGap);
    if p < t.len() && t[p] != '>' {
        lemma_attribute_in_tail(s, n, p);
        lemma_attribute_end(t, p);
        if let Some((_, e)) = attribute_at(t, p) {
            lemma_attributes_in_tail(s, n, e);
        }
    }
}

proof fn lemma_opening_in_tail(s: Seq<char>, n: int, i: int)
    requires
        0 <= n,
        0 <= i,
        n + i < s.len(),
    ensures
        opening_at(s, n + i) == match opening_at(s.skip(n), i) {
            Some((name, attrs, end)) => Some((name, attrs, end + n)),
            None => None,
        },
{
    let t = s.skip(n);
    if i + 1 < t.len() && t[i] == '<' && letter(t[i + 1]) {
        let e = until(t, i + 1, Stop::TagName);
        lemma_until_behind(s, n, i + 1, Stop::TagName);
        lemma_until(t, i + 1, Stop::TagName);
        assert(t.subrange(i + 1, e) =~= s.subrange(n + i + 1, n + e));
        lemma_attributes_in_tail(s, n, e);
    }
}

proof fn lemma_name_in_tail(s: Seq<char>, n: int, i: int, name: Seq<char>)
    requires
        0 <= n <= s.len(),
        0 <= i,
    ensures
        name_at(s, n + i, name) == name_at(s.skip(n), i, name),
        closing_at(s, n + i, name) == closing_at(s.skip(n), i, name),
{
    let t = s.skip(n);
    lemma_occurs_in_tail(s, "</"@, n, i);
    if n + i + name.len() < s.len() {
        assert(t.subrange(i, i + name.len()) =~= s.subrange(n + i, n + i + name.len()));
    }
    if n + i + 2 + name.len() < s.len() {
        assert(t.subrange(i + 2, i + 2 + name.len()) =~= s.subrange(
            n + i + 2,
            n + i + 2 + name.len(),
        ));
    }
}

proof fn lemma_plain_in_tail(s: Seq<char>, n: int, i: int, name: Seq<char>)
    requires
        0 <= n,
        0 <= i,
        n + i <= s.len(),
    ensures
        plain_end(s, n + i, name) == plain_end(s.skip(n), i, name) + n,
    decreases s.len() - i,
{
    lemma_name_in_tail(s, n, i, name);
    if n + i < s.len() && !closing_at(s, n + i, name) {
        lemma_plain_in_tail(s, n, i + 1, name);
    }
}

proof fn lemma_script_in_tail(s: Seq<char>, n: int, i: int, mode: Script)
    requires
        0 <= n,
        0 <= i,
        n + i <= s.len(),
    ensures
        script_end(s, n + i, mode) == script_end(s.skip(n), i, mode) + n,
    decreases s.len() - i,
{
    reveal_strlit("<!--");
    reveal_strlit("-->");
    if n + i < s.len() {
        lemma_name_in_tail(s, n, i, "script"@);
        lemma_name_in_tail(s, n, i + 1, "script"@);
        lemma_occurs_in_tail(s, "<!--"@, n, i);
        lemma_occurs_in_tail(s, "-->"@, n, i);
        assert(s.skip(n)[i] == s[n + i]);
        lemma_script_in_tail(s, n, i + 1, Script::Open);
        lemma_script_in_tail(s, n, i + 1, Script::Comment);
        lemma_script_in_tail(s, n, i + 1, Script::Inner);
        if occurs_at(s, "<!--"@, n + i) {
            lemma_script_in_tail(s, n, i + 2, Script::Comment);
        }
        if occurs_at(s, "-->"@, n + i) {
            lemma_script_in_tail(s, n, i + 3, Script::Open);
        }
    }
}

proof fn lemma_other_in_tail(s: Seq<char>, n: int, i: int, foreign: bool)
    requires
        0 <= n,
        0 <= i,
        n + i < s.len(),
    ensures
        other_end(s, n + i, foreign) == other_end(s.skip(n), i, foreign) + n,
{
    let t = s.skip(n);
    assert(t[i] == s[n + i]);
    lemma_until_behind(s, n, i, Stop::At('<'));
    lemma_until_behind(s, n, i + 1, Stop::At('<'));
    lemma_until_behind(s, n, i + 1, Stop::At('>'));
    lemma_occurs_in_tail(s, "<!--"@, n, i);
    lemma_occurs_in_tail(s, "<![CDATA["@, n, i);
    lemma_first_in_tail(s, "-->"@, n, i + 2);
    lemma_first_in_tail(s, "--!>"@, n, i + 4);
    lemma_first_in_tail(s, "]]>"@, n, i + 9);
    if i + 2 < t.len() {
        lemma_until_behind(s, n, i + 2, Stop::TagName);
        lemma_until(t, i + 2, Stop::TagName);
        lemma_attributes_in_tail(s, n, until(t, i + 2, Stop::TagName));
    }
}

proof fn lemma_gap_in_tail(s: Seq<char>, n: int, i: int)
    requires
        0 <= n,
        0 <= i,
        n + i <= s.len(),
    ensures
        ends_in_gap(s, n + i) == ends_in_gap(s.skip(n), i),
    decreases s.len() - i,
{
    let t = s.skip(n);
    let p = until(t, i, Stop::NonGap);
    lemma_until_behind(s, n, i, Stop::NonGap);
    lemma_until(t, i, Stop::NonGap);
    if p < t.len() && t[p] != '>' {
        lemma_attribute_in_tail(s, n, p);
        lemma_attribute_end(t, p);
        if let Some((_, e)) = attribute_at(t, p) {
            lemma_gap_in_tail(s, n, e);
        }
    }
}

proof fn lemma_passed_in_tail(s: Seq<char>, n: int, i: int, open: Open)
    requires
        0 <= n,
        0 <= i,
        n + i < s.len(),
    ensures
        passed(s, n + i, open) == passed(s.skip(n), i, open),
{
    let t = s.skip(n);
    if i + 2 < t.len() {
        let e = until(t, i + 2, Stop::TagName);
        lemma_until_behind(s, n, i + 2, Stop::TagName);
        lemma_until(t, i + 2, Stop::TagName);
        assert(t.subrange(i + 2, e) =~= s.subrange(n + i + 2, n + e));
    }
}

#[verifier::rlimit(40)]
#[verifier::spinoff_prover]
proof fn lemma_tokens_in_tail(s: Seq<char>, n: int, i: int, open: Open)
    requires
        0 <= n,
        0 <= i,
        n + i <= s.len(),
    ensures
        tokens_from(s, n + i, open) == tokens_from(s.skip(n), i, open),
    decreases s.len() - i,
{
    let t = s.skip(n);
    if n + i < s.len() {
        lemma_opening_in_tail(s, n, i);
        lemma_opening_length(t, i);
        match opening_at(t, i) {
            Some((name, attrs, end)) => {
                assert(t.subrange(i, end) =~= s.subrange(n + i, n + end));
                let tag = TokenView { text: t.subrange(i, end), tag: Some((name, attrs)) };
                if raw_text(name) && !foreign(open) {
                    let r = raw_end(t, end, name);
                    lemma_plain_in_tail(s, n, end, name);
                    lemma_script_in_tail(s, n, end, Script::Open);
                    lemma_raw_end(t, end, name);
                    assert(raw_end(s, n + end, name) == r + n);
                    assert(t.subrange(end, r) =~= s.subrange(n + end, n + r));
                    lemma_tokens_in_tail(s, n, r, open);
                    let content = TokenView { text: t.subrange(end, r), tag: None };
                    assert(tokens_from(t, i, open) == seq![tag, content] + tokens_from(t, r, open));
                    assert(tokens_from(s, n + i, open) == seq![tag, content] + tokens_from(
                        s,
                        n + r,
                        open,
                    ));
                } else {
                    let e = until(t, i + 1, Stop::TagName);
                    lemma_until_behind(s, n, i + 1, Stop::TagName);
                    lemma_until(t, i + 1, Stop::TagName);
                    lemma_gap_in_tail(s, n, e);
                    assert(t[end - 2] == s[n + end - 2]);
                    assert(self_closing(s, n + i, n + end) == self_closing(t, i, end));
                    let inner = entered(open, name, attrs, self_closing(t, i, end));
                    lemma_tokens_in_tail(s, n, end, inner);
                    assert(tokens_from(t, i, open) == seq![tag] + tokens_from(t, end, inner));
                    assert(tokens_from(s, n + i, open) == seq![tag] + tokens_from(
                        s,
                        n + end,
                        inner,
                    ));
                }
            },
            None => {
                let e = other_end(t, i, foreign(open));
                lemma_other_in_tail(s, n, i, foreign(open));
                lemma_other_end(t, i, foreign(open));
                lemma_passed_in_tail(s, n, i, open);
                assert(t.subrange(i, e) =~= s.subrange(n + i, n + e));
                let next = passed(t, i, open);
                lemma_tokens_in_tail(s, n, e, next);
                let text = TokenView { text: t.subrange(i, e), tag: None };
                assert(tokens_from(t, i, open) == seq![text] + tokens_from(t, e, next));
                assert(tokens_from(s, n + i, open) == seq![text] + tokens_from(s, n + e, next));
            },
        }
    }
}

/// A text is read part by part: text without a `<` before it makes no difference to how the rest
/// of it is read.
pub proof fn law_text_before(text: Seq<char>, rest: Seq<char>)
    requires
        text.len() > 0,
        !text.contains('<'),
        rest.len() > 0 ==> rest[0] == '<',
    ensures
        tokens(text + rest) == seq![TokenView { text, tag: None }] + tokens(rest),
{
    let s = text + rest;
    let n = text.len() as int;
    let none: Open = Seq::empty();
    assert(s[0] == text[0]);
    assert(text.contains(text[0]));
    assert forall|j: int| 0 <= j < n implies !stops(Stop::At('<'), #[trigger] s[j]) by {
        assert(s[j] == text[j]);
        assert(text.contains(text[j]));
    }
    if rest.len() > 0 {
        assert(s[n] == rest[0]);
    }
    lemma_until_is(s, 0, Stop::At('<'), n);
    assert(other_end(s, 0, foreign(none)) == n);
    assert(s.subrange(0, n) =~= text);
    assert(s.skip(n) =~= rest);
    lemma_tokens_in_tail(s, n, 0, none);
}

/// A text is read part by part: an opening tag before it is read as that tag, and makes no
/// difference to how the rest is read, unless the element holds text only or foreign content.
pub proof fn law_tag_before(text: Seq<char>, name: Seq<char>, attrs: Seq<Attribute>, rest: Seq<char>)
    requires
        opening_at(text + rest, 0) == Some((name, attrs, text.len() as int)),
        name != "script"@,
        name != "style"@,
        name != "textarea"@,
        name != "title"@,
        name != "xmp"@,
        name != "iframe"@,
        name != "noembed"@,
        name != "noframes"@,
        name != "noscript"@,
        name != "plaintext"@,
        name != "svg"@,
        name != "math"@,
    ensures
        tokens(text + rest) == seq![TokenView { text, tag: Some((name, attrs)) }] + tokens(rest),
{
    let s = text + rest;
    let n = text.len() as int;
    let none: Open = Seq::empty();
    lemma_opening_length(s, 0);
    assert(s.subrange(0, n) =~= text);
    assert(s.skip(n) =~= rest);
    lemma_tokens_in_tail(s, n, 0, none);
}

/// A text is read part by part: a closing tag before it makes no difference to how the rest is
/// read.
pub proof fn law_closing_before(name: Seq<char>, rest: Seq<char>)
    requires
        name.len() > 0,
        letter(name[0]),
        forall|i: int| 0 <= i < name.len() ==> !stops(Stop::TagName, #[trigger] name[i]),
    ensures
        tokens("</"@ + name + ">"@ + rest) == seq![
            TokenView { text: "</"@ + name + ">"@, tag: None },
        ] + tokens(rest),
{
    reveal_strlit("</");
    reveal_strlit(">");
    reveal_strlit("<!--");
    let text = "</"@ + name + ">"@;
    let s = text + rest;
    let n = text.len() as int;
    let none: Open = Seq::empty();
    let e = 2 + name.len() as int;
    assert(s[0] == '<' && s[1] == '/' && s[2] == name[0] && s[e] == '>');
    assert(!occurs_at(s, "<!--"@, 0)) by {
        if occurs_at(s, "<!--"@, 0) {
            assert(s.subrange(0, 4)[1] == s[1]);
        }
    }
    assert forall|j: int| 2 <= j < e implies !stops(Stop::TagName, #[trigger] s[j]) by {
        assert(s[j] == name[j - 2]);
    }
    lemma_until_is(s, 2, Stop::TagName, e);
    lemma_until_is(s, e, Stop::NonGap, e);
    assert(attributes_at(s, e) == Some((Seq::<Attribute>::empty(), e + 1)));
    assert(other_end(s, 0, foreign(none)) == n);
    assert(passed(s, 0, none) == none);
    assert(s.subrange(0, n) =~= text);
    assert(s.skip(n) =~= rest);
    lemma_tokens_in_tail(s, n, 0, none);
}

/// The comment that starts a text ends with the first `-->` behind its start, if no `--!>` stands
/// in it.
proof fn lemma_comment_end(content: Seq<char>, rest: Seq<char>)
    requires
        comment_text(content),
    ensures
        comment_end("<!--"@ + content + "-->"@ + rest, 0) == content.len() + 7,
{
    reveal_strlit("<!--");
    reveal_strlit("-->");
    reveal_strlit("--!>");
    let s = "<!--"@ + content + "-->"@ + rest;
    let k = 4 + content.len() as int;
    assert(s.subrange(k, k + 3) =~= "-->"@);
    assert(s[2] == '-' && s[3] == '-' && s[k] == '-' && s[k + 1] == '-' && s[k + 2] == '>');
    assert forall|j: int| 4 <= j < k implies #[trigger] s[j] == content[j - 4] by {}
    assert forall|j: int| 2 <= j < k implies !(s[j] == '-' && #[trigger] s[j + 1] == '-' && (s[j + 2]
        == '>' || (j >= 4 && s[j + 2] == '!'))) by {
        if s[j] == '-' && s[j + 1] == '-' {
            if j >= 4 && j + 2 < k {
                assert(s[j] == content[j - 4]);
                assert(s[j + 1] == content[j - 4 + 1]);
                assert(s[j + 2] == content[j - 4 + 2]);
            } else if j >= 4 && j + 1 == k {
                assert(s[j] == content[j - 4]);
                assert(s[j] == content.last());
            } else if j >= 4 {
                assert(s[j + 1] == content[j - 3]);
                assert(s[j + 1] == content.last());
            } else if j == 3 && content.len() > 1 {
                assert(s[4] == content[0] && s[5] == content[1]);
            } else if content.len() > 0 {
                assert(s[4] == content[0]);
            }
        }
    }
    assert forall|j: int| 2 <= j < k implies !#[trigger] occurs_at(s, "-->"@, j) by {
        if occurs_at(s, "-->"@, j) {
            let seen = s.subrange(j, j + 3);
            assert(seen[0] == s[j] && seen[1] == s[j + 1] && seen[2] == s[j + 2]);
        }
    }
    lemma_first_is(s, "-->"@, 2, k);
    lemma_first_from(s, "--!>"@, 4);
    if let Some(m) = first_from(s, "--!>"@, 4) {
        let seen = s.subrange(m, m + 4);
        assert(seen[0] == s[m] && seen[1] == s[m + 1] && seen[2] == s[m + 2]);
        assert(m >= k);
    }
}

/// `content` can stand in a comment: nothing in it ends the comment.
pub open spec fn comment_text(content: Seq<char>) -> bool {
    &&& content.len() > 0 ==> content[0] != '>' && content.last() != '-'
    &&& content.len() > 1 ==> !(content[0] == '-' && content[1] == '>')
    &&& forall|i: int|
        0 <= i && i + 2 < content.len() && (#[trigger] content[i]) == '-' && content[i + 1] == '-'
            ==> content[i + 2] != '>' && content[i + 2] != '!'
}

/// A text is read part by part: a comment before it is no tag, whatever it holds, and makes no
/// difference to how the rest is read.
pub proof fn law_comment_before(content: Seq<char>, rest: Seq<char>)
    requires
        comment_text(content),
    ensures
        tokens("<!--"@ + content + "-->"@ + rest) == seq![
            TokenView { text: "<!--"@ + content + "-->"@, tag: None },
        ] + tokens(rest),
{
    reveal_strlit("<!--");
    reveal_strlit("-->");
    let text = "<!--"@ + content + "-->"@;
    let s = text + rest;
    let n = text.len() as int;
    let none: Open = Seq::empty();
    lemma_comment_end(content, rest);
    assert(s.subrange(0, 4) =~= "<!--"@);
    assert(s[0] == '<' && s[1] == '!');
    assert(opening_at(s, 0) is None);
    assert(other_end(s, 0, foreign(none)) == n);
    assert(passed(s, 0, none) == none);
    assert(s.subrange(0, n) =~= text);
    assert(s.skip(n) =~= rest);
    lemma_tokens_in_tail(s, n, 0, none);
}

// ---------------------------------------------------------------------------
// What stands behind a tag makes no difference to it
// ---------------------------------------------------------------------------

proof fn lemma_until_cut(s: Seq<char>, m: int, i: int, stop: Stop)
    requires
        0 <= i <= s.len(),
        until(s, i, stop) < m <= s.len(),
    ensures
        until(s.take(m), i, stop) == until(s, i, stop),
{
    let t = s.take(m);
    let k = until(s, i, stop);
    lemma_until(s, i, stop);
    assert forall|j: int| i <= j < k implies !stops(stop, #[trigger] t[j]) by {
        assert(t[j] == s[j]);
    }
    assert(t[k] == s[k]);
    lemma_until_is(t, i, stop, k);
}

proof fn lemma_attribute_cut(s: Seq<char>, m: int, i: int)
    requires
        0 <= i < s.len(),
        m <= s.len(),
        attribute_at(s, i) is Some,
        (attribute_at(s, i)->0).1 < m,
        until(s, (attribute_at(s, i)->0).1, Stop::NonGap) < m,
    ensures
        attribute_at(s.take(m), i) == attribute_at(s, i),
{
    let t = s.take(m);
    let end = (attribute_at(s, i)->0).1;
    let e = until(s, i + 1, Stop::AttributeName);
    lemma_until(s, i + 1, Stop::AttributeName);
    let p = until(s, e, Stop::NonSpace);
    lemma_until(s, e, Stop::NonSpace);
    if p < s.len() && s[p] == '=' {
        let v = until(s, p + 1, Stop::NonSpace);
        lemma_until(s, p + 1, Stop::NonSpace);
        lemma_until(s, v + 1, Stop::At(s[v]));
        lemma_until(s, v, Stop::BareValue);
        assert(v < m);
        lemma_until_cut(s, m, i + 1, Stop::AttributeName);
        lemma_until_cut(s, m, e, Stop::NonSpace);
        lemma_until_cut(s, m, p + 1, Stop::NonSpace);
        assert(t[p] == s[p] && t[v] == s[v]);
        assert(t.subrange(i, e) =~= s.subrange(i, e));
        if s[v] == '"' || s[v] == '\'' {
            let q = until(s, v + 1, Stop::At(s[v]));
            lemma_until_cut(s, m, v + 1, Stop::At(s[v]));
            assert(t.subrange(v + 1, q) =~= s.subrange(v + 1, q));
        } else {
            let q = until(s, v, Stop::BareValue);
            lemma_until_cut(s, m, v, Stop::BareValue);
            assert(t.subrange(v, q) =~= s.subrange(v, q));
        }
    } else {
        assert(end == e);
        let g = until(s, e, Stop::NonGap);
        lemma_until(s, e, Stop::NonGap);
        assert(p <= g) by {
            if p > g {
                assert(!stops(Stop::NonSpace, s[g]));
            }
        }
        lemma_until_cut(s, m, i + 1, Stop::AttributeName);
        lemma_until_cut(s, m, e, Stop::NonSpace);
        assert(t[p] == s[p]);
        assert(t.subrange(i, e) =~= s.subrange(i, e));
    }
}

proof fn lemma_attributes_cut(s: Seq<char>, m: int, i: int)
    requires
        0 <= i <= s.len(),
        attributes_at(s, i) is Some,
        (attributes_at(s, i)->0).1 == m,
    ensures
        attributes_at(s.take(m), i) == attributes_at(s, i),
    decreases s.len() - i,
{
    lemma_attributes_end(s, i);
    let t = s.take(m);
    let p = until(s, i, Stop::NonGap);
    lemma_until(s, i, Stop::NonGap);
    if s[p] == '>' {
        lemma_until_cut(s, m, i, Stop::NonGap);
        assert(t[p] == s[p]);
    } else {
        lemma_attribute_end(s, p);
        let e = (attribute_at(s, p)->0).1;
        lemma_attributes_end(s, e);
        lemma_until(s, e, Stop::NonGap);
        assert(until(s, e, Stop::NonGap) < m) by {
            let g = until(s, e, Stop::NonGap);
            if s[g] != '>' {
                lemma_attribute_end(s, g);
                lemma_attributes_end(s, (attribute_at(s, g)->0).1);
            }
        }
        lemma_until_cut(s, m, i, Stop::NonGap);
        assert(t[p] == s[p]);
        lemma_attribute_cut(s, m, p);
        lemma_attributes_cut(s, m, e);
    }
}

proof fn lemma_opening_cut(s: Seq<char>)
    requires
        opening_at(s, 0) is Some,
    ensures
        ({
            let (_, _, end) = opening_at(s, 0)->0;
            opening_at(s.take(end), 0) == opening_at(s, 0)
        }),
{
    let (_, _, end) = opening_at(s, 0)->0;
    let t = s.take(end);
    let e = until(s, 1, Stop::TagName);
    lemma_opening_length(s, 0);
    lemma_until(s, 1, Stop::TagName);
    lemma_attributes_end(s, e);
    lemma_until_cut(s, end, 1, Stop::TagName);
    lemma_attributes_cut(s, end, e);
    assert(t[0] == s[0] && t[1] == s[1]);
    assert(t.subrange(1, e) =~= s.subrange(1, e));
}

#[verifier::rlimit(60)]
#[verifier::spinoff_prover]
proof fn lemma_parts_read_alone(s: Seq<char>, i: int, open: Open, k: int)
    requires
        0 <= i <= s.len(),
        0 <= k < tokens_from(s, i, open).len(),
        tokens_from(s, i, open)[k].tag is Some,
    ensures
        ({
            let part = tokens_from(s, i, open)[k];
            opening_at(part.text, 0) == Some(
                ((part.tag->0).0, (part.tag->0).1, part.text.len() as int),
            )
        }),
    decreases s.len() - i,
{
    if i < s.len() {
        let all = tokens_from(s, i, open);
        lemma_opening_length(s, i);
        lemma_other_end(s, i, foreign(open));
        match opening_at(s, i) {
            Some((name, attrs, end)) => {
                if k == 0 {
                    let t = s.skip(i);
                    lemma_opening_in_tail(s, i, 0);
                    lemma_opening_cut(t);
                    assert(t.take(end - i) =~= s.subrange(i, end));
                } else if raw_text(name) && !foreign(open) {
                    let r = raw_end(s, end, name);
                    lemma_raw_end(s, end, name);
                    if k > 1 {
                        assert(all.skip(2) =~= tokens_from(s, r, open));
                        assert(all[k] == tokens_from(s, r, open)[k - 2]);
                        lemma_parts_read_alone(s, r, open, k - 2);
                    }
                } else {
                    let inner = entered(open, name, attrs, self_closing(s, i, end));
                    assert(all.skip(1) =~= tokens_from(s, end, inner));
                    assert(all[k] == tokens_from(s, end, inner)[k - 1]);
                    lemma_parts_read_alone(s, end, inner, k - 1);
                }
            },
            None => {
                let e = other_end(s, i, foreign(open));
                let next = passed(s, i, open);
                if k > 0 {
                    assert(all.skip(1) =~= tokens_from(s, e, next));
                    assert(all[k] == tokens_from(s, e, next)[k - 1]);
                    lemma_parts_read_alone(s, e, next, k - 1);
                }
            },
        }
    }
}

/// A part of a text that is an opening tag is read alone as that tag.
pub proof fn law_part_read_alone(s: Seq<char>, k: int)
    requires
        0 <= k < tokens(s).len(),
    ensures
        tokens(s)[k].tag matches Some((name, attrs)) ==> opening_at(tokens(s)[k].text, 0) == Some(
            (name, attrs, tokens(s)[k].text.len() as int),
        ),
{
    if tokens(s)[k].tag is Some {
        lemma_parts_read_alone(s, 0, Seq::empty(), k);
    }
}

proof fn lemma_plain_end_is(s: Seq<char>, i: int, name: Seq<char>, k: int)
    requires
        0 <= i <= k <= s.len(),
        k < s.len() ==> closing_at(s, k, name),
        forall|j: int| i <= j < k ==> !#[trigger] closing_at(s, j, name),
    ensures
        plain_end(s, i, name) == k,
    decreases k - i,
{
    if i < k {
        assert(!closing_at(s, i, name));
        lemma_plain_end_is(s, i + 1, name, k);
    }
}

proof fn lemma_script_end_is(s: Seq<char>, i: int, k: int)
    requires
        0 <= i <= k <= s.len(),
        k < s.len() ==> closing_at(s, k, "script"@),
        forall|j: int| i <= j < k ==> !#[trigger] closing_at(s, j, "script"@),
        forall|j: int| i <= j < k ==> !#[trigger] occurs_at(s, "<!--"@, j),
    ensures
        script_end(s, i, Script::Open) == k,
    decreases k - i,
{
    reveal_strlit("<!--");
    reveal_strlit("-->");
    if i < k {
        assert(!closing_at(s, i, "script"@));
        assert(!occurs_at(s, "<!--"@, i));
        lemma_script_end_is(s, i + 1, k);
    }
}

/// A text is read part by part: the content of an element that holds text only is one part,
/// whatever it looks like, up to the closing tag of the element, and makes no difference to how
/// the rest is read. A script is taken to hold no comment.
pub proof fn law_text_only_before(
    text: Seq<char>,
    name: Seq<char>,
    attrs: Seq<Attribute>,
    content: Seq<char>,
    rest: Seq<char>,
)
    requires
        opening_at(text + content + rest, 0) == Some((name, attrs, text.len() as int)),
        name == "script"@ || name == "style"@ || name == "textarea"@ || name == "title"@ || name
            == "xmp"@ || name == "iframe"@ || name == "noembed"@ || name == "noframes"@ || name
            == "noscript"@,
        rest.len() > 0 ==> closing_at(
            text + content + rest,
            (text.len() + content.len()) as int,
            name,
        ),
        forall|j: int|
            text.len() <= j < text.len() + content.len() ==> !#[trigger] closing_at(
                text + content + rest,
                j,
                name,
            ),
        name == "script"@ ==> forall|j: int|
            text.len() <= j < text.len() + content.len() ==> !#[trigger] occurs_at(
                text + content + rest,
                "<!--"@,
                j,
            ),
    ensures
        tokens(text + content + rest) == seq![
            TokenView { text, tag: Some((name, attrs)) },
            TokenView { text: content, tag: None },
        ] + tokens(rest),
{
    let s = text + content + rest;
    let n = text.len() as int;
    let k = n + content.len();
    let none: Open = Seq::empty();
    reveal_strlit("script");
    reveal_strlit("style");
    reveal_strlit("textarea");
    reveal_strlit("title");
    reveal_strlit("xmp");
    reveal_strlit("iframe");
    reveal_strlit("noembed");
    reveal_strlit("noframes");
    reveal_strlit("noscript");
    reveal_strlit("plaintext");
    lemma_opening_length(s, 0);
    if name == "script"@ {
        lemma_script_end_is(s, n, k);
        assert("script"@.len() == 6 && "plaintext"@.len() == 9);
    } else {
        lemma_plain_end_is(s, n, name, k);
        if name == "plaintext"@ {
            assert(name[0] == 'p' && name.len() == 9);
        }
    }
    assert(raw_end(s, n, name) == k);
    assert(s.subrange(0, n) =~= text);
    assert(s.subrange(n, k) =~= content);
    assert(s.skip(k) =~= rest);
    lemma_tokens_in_tail(s, k, 0, none);
}

/// A text is read part by part: a `<` that starts nothing is text, up to the next one, and makes
/// no difference to how the rest is read.
pub proof fn law_lone_bracket_before(text: Seq<char>, rest: Seq<char>)
    requires
        !text.contains('<'),
        text.len() > 0 ==> !letter(text[0]) && text[0] != '!' && text[0] != '?' && text[0] != '/',
        rest.len() > 0 ==> rest[0] == '<',
    ensures
        tokens(seq!['<'] + text + rest) == seq![
            TokenView { text: seq!['<'] + text, tag: None },
        ] + tokens(rest),
{
    reveal_strlit("<!--");
    let whole = seq!['<'] + text;
    let s = whole + rest;
    let n = whole.len() as int;
    let none: Open = Seq::empty();
    assert(s[0] == '<');
    if text.len() > 0 {
        assert(s[1] == text[0]);
    } else if rest.len() > 0 {
        assert(s[1] == rest[0]);
    }
    assert(!occurs_at(s, "<!--"@, 0)) by {
        if occurs_at(s, "<!--"@, 0) {
            assert(s.subrange(0, 4)[1] == s[1]);
        }
    }
    assert forall|j: int| 1 <= j < n implies !stops(Stop::At('<'), #[trigger] s[j]) by {
        assert(s[j] == text[j - 1]);
        assert(text.contains(text[j - 1]));
    }
    if rest.len() > 0 {
        assert(s[n] == rest[0]);
    }
    lemma_until_is(s, 1, Stop::At('<'), n);
    assert(opening_at(s, 0) is None);
    assert(other_end(s, 0, foreign(none)) == n);
    assert(passed(s, 0, none) == none);
    assert(s.subrange(0, n) =~= whole);
    assert(s.skip(n) =~= rest);
    lemma_tokens_in_tail(s, n, 0, none);
}

/// A text is read part by part: a declaration or an instruction before it is no tag, and makes no
/// difference to how the rest is read.
pub proof fn law_declaration_before(mark: char, content: Seq<char>, rest: Seq<char>)
    requires
        mark == '!' || mark == '?',
        !content.contains('>'),
        content.len() > 0 ==> content[0] != '-',
    ensures
        tokens(seq!['<', mark] + content + seq!['>'] + rest) == seq![
            TokenView { text: seq!['<', mark] + content + seq!['>'], tag: None },
        ] + tokens(rest),
{
    reveal_strlit("<!--");
    let text = seq!['<', mark] + content + seq!['>'];
    let s = text + rest;
    let n = text.len() as int;
    let none: Open = Seq::empty();
    assert(s[0] == '<' && s[1] == mark && s[n - 1] == '>');
    if content.len() > 0 {
        assert(s[2] == content[0]);
    } else {
        assert(s[2] == '>');
    }
    assert(!occurs_at(s, "<!--"@, 0)) by {
        if occurs_at(s, "<!--"@, 0) {
            assert(s.subrange(0, 4)[2] == s[2]);
        }
    }
    assert forall|j: int| 1 <= j < n - 1 implies !stops(Stop::At('>'), #[trigger] s[j]) by {
        if j > 1 {
            assert(s[j] == content[j - 2]);
            assert(content.contains(content[j - 2]));
        }
    }
    lemma_until_is(s, 1, Stop::At('>'), n - 1);
    assert(opening_at(s, 0) is None);
    assert(other_end(s, 0, foreign(none)) == n);
    assert(passed(s, 0, none) == none);
    assert(s.subrange(0, n) =~= text);
    assert(s.skip(n) =~= rest);
    lemma_tokens_in_tail(s, n, 0, none);
}

} // verus!
