//! Attribute values, and how they are written in a tag.

use crate::dom::{fragment_selection, is_parseable, parseable, select_in_fragment, TagView};
use crate::scan::{lemma_until, lemma_until_behind, lemma_until_is, scan, stops, until, Stop};
use crate::text::{begins, chars_of, contains, matches_at, occurs_at, replace_all, replaced};
use crate::text::{ascii_alphanumeric, lemma_occurs_in_tail};
use vstd::prelude::*;

verus! {

// ---------------------------------------------------------------------------
// Writing
// ---------------------------------------------------------------------------

/// How a character is written in a value.
pub open spec fn escaped_character(c: char) -> Seq<char> {
    if c == '&' {
        "&amp;"@
    } else if c == '"' {
        "&quot;"@
    } else if c == '<' {
        "&lt;"@
    } else if c == '>' {
        "&gt;"@
    } else if c == '\u{a0}' {
        "&nbsp;"@
    } else {
        seq![c]
    }
}

/// How a value is written in a tag.
pub open spec fn escaped(value: Seq<char>) -> Seq<char>
    decreases value.len(),
{
    if value.len() == 0 {
        Seq::empty()
    } else {
        escaped_character(value[0]) + escaped(value.skip(1))
    }
}

/// `value` as it is written in a tag.
pub fn escape(value: &str) -> (r: String)
    ensures
        r@ == escaped(value@),
{
    let chars = chars_of(value);
    let ghost all = value@;
    let mut out = String::new();
    let mut i: usize = 0;
    assert(all.skip(0) =~= all);
    assert(out@ + escaped(all) =~= escaped(all));
    while i < chars.len()
        invariant
            chars@ == all,
            i <= chars@.len(),
            out@ + escaped(all.skip(i as int)) == escaped(all),
        decreases chars@.len() - i,
    {
        let ghost before = out@;
        let c = chars[i];
        if c == '&' {
            out.append("&amp;");
        } else if c == '"' {
            out.append("&quot;");
        } else if c == '<' {
            out.append("&lt;");
        } else if c == '>' {
            out.append("&gt;");
        } else if c == '\u{a0}' {
            out.append("&nbsp;");
        } else {
            out.push(c);
        }
        proof {
            assert(all.skip(i as int).skip(1) =~= all.skip(i + 1));
            assert(out@ =~= before + escaped_character(c));
            assert(out@ + escaped(all.skip(i + 1)) =~= before + (escaped_character(c) + escaped(
                all.skip(i + 1),
            )));
        }
        i += 1;
    }
    assert(out@ + escaped(all.skip(i as int)) =~= out@);
    out
}

// ---------------------------------------------------------------------------
// Reading
// ---------------------------------------------------------------------------

/// The ampersand that `raw` starts with is no more than that: no name follows it, and no
/// number, or a name and an equals sign.
pub open spec fn lone_ampersand(raw: Seq<char>) -> bool {
    let e = until(raw, 1, Stop::NonAlphanumeric);
    if e == 1 {
        raw.len() == 1 || raw[1] != '#'
    } else {
        e < raw.len() && raw[e] == '='
    }
}

/// The character that `raw` starts with, and how long it is written: none where it is written
/// in an unusual way.
pub open spec fn plain_start(raw: Seq<char>) -> Option<(char, int)> {
    if raw[0] == '\r' || raw[0] == '\0' {
        None
    } else if raw[0] != '&' {
        Some((raw[0], 1))
    } else if begins(raw, "&amp;"@) {
        Some(('&', 5))
    } else if begins(raw, "&quot;"@) {
        Some(('"', 6))
    } else if begins(raw, "&lt;"@) {
        Some(('<', 4))
    } else if begins(raw, "&gt;"@) {
        Some(('>', 4))
    } else if begins(raw, "&nbsp;"@) {
        Some(('\u{a0}', 6))
    } else if lone_ampersand(raw) {
        Some(('&', 1))
    } else {
        None
    }
}

/// The value that is written as `raw`: none where some of it is written in an unusual way.
pub open spec fn plain_value(raw: Seq<char>) -> Option<Seq<char>>
    decreases raw.len(),
{
    proof {
        reveal_strlit("&amp;");
        reveal_strlit("&quot;");
        reveal_strlit("&lt;");
        reveal_strlit("&gt;");
        reveal_strlit("&nbsp;");
    }
    if raw.len() == 0 {
        Some(raw)
    } else {
        match plain_start(raw) {
            Some((c, n)) => match plain_value(raw.skip(n)) {
                Some(rest) => Some(seq![c] + rest),
                None => None,
            },
            None => None,
        }
    }
}

/// A tag that has a value written as `raw`.
pub open spec fn carrier(raw: Seq<char>) -> Seq<char> {
    "<p title=\""@ + replaced(raw, "\""@, "&quot;"@) + "\">"@
}

/// The value of the first element of a selection, if there is one.
pub open spec fn first_value(selection: Option<Seq<TagView>>) -> Option<Seq<char>> {
    match selection {
        Some(tags) => if tags.len() > 0 {
            tags[0].value
        } else {
            None
        },
        None => None,
    }
}

/// The value that the HTML parser reads where `raw` is written.
pub open spec fn parsed_value(raw: Seq<char>) -> Seq<char> {
    if parseable(carrier(raw)) {
        match first_value(fragment_selection(carrier(raw), "p"@, Some("title"@))) {
            Some(v) => v,
            None => raw,
        }
    } else {
        raw
    }
}

/// The value that is written as `raw`.
pub open spec fn value_of(raw: Seq<char>) -> Seq<char> {
    match plain_value(raw) {
        Some(v) => v,
        None => parsed_value(raw),
    }
}

fn plain_character(chars: &Vec<char>, i: usize) -> (r: Option<(char, usize)>)
    requires
        i < chars@.len(),
    ensures
        match r {
            Some((c, n)) => plain_start(chars@.skip(i as int)) == Some((c, n as int)) && 0 < n
                <= chars@.len() - i,
            None => plain_start(chars@.skip(i as int)) is None,
        },
{
    let ghost raw = chars@.skip(i as int);
    proof {
        reveal_strlit("&amp;");
        reveal_strlit("&quot;");
        reveal_strlit("&lt;");
        reveal_strlit("&gt;");
        reveal_strlit("&nbsp;");
        lemma_occurs_in_tail(chars@, "&amp;"@, i as int, 0);
        lemma_occurs_in_tail(chars@, "&quot;"@, i as int, 0);
        lemma_occurs_in_tail(chars@, "&lt;"@, i as int, 0);
        lemma_occurs_in_tail(chars@, "&gt;"@, i as int, 0);
        lemma_occurs_in_tail(chars@, "&nbsp;"@, i as int, 0);
    }
    let c = chars[i];
    if c == '\r' || c == '\0' {
        None
    } else if c != '&' {
        Some((c, 1))
    } else if matches_at(chars, &chars_of("&amp;"), i) {
        Some(('&', 5))
    } else if matches_at(chars, &chars_of("&quot;"), i) {
        Some(('"', 6))
    } else if matches_at(chars, &chars_of("&lt;"), i) {
        Some(('<', 4))
    } else if matches_at(chars, &chars_of("&gt;"), i) {
        Some(('>', 4))
    } else if matches_at(chars, &chars_of("&nbsp;"), i) {
        Some(('\u{a0}', 6))
    } else {
        assert(i < chars.len());
        let e = scan(chars, i + 1, Stop::NonAlphanumeric);
        proof {
            lemma_until_in_tail(chars@, i as int, 1, Stop::NonAlphanumeric);
        }
        let lone = if e == i + 1 {
            i + 1 == chars.len() || chars[i + 1] != '#'
        } else {
            e < chars.len() && chars[e] == '='
        };
        if lone {
            Some(('&', 1))
        } else {
            None
        }
    }
}

/// A walk in a tail of a text is one in the text, shifted.
proof fn lemma_until_in_tail(s: Seq<char>, n: int, i: int, stop: Stop)
    requires
        0 <= n,
        0 <= i,
        n + i <= s.len(),
    ensures
        until(s.skip(n), i, stop) + n == until(s, n + i, stop),
    decreases s.len() - i,
{
    lemma_until_behind(s, n, i, stop);
}

/// The value that the HTML parser reads where `raw` is written.
fn parse_value(raw: &str) -> (r: String)
    ensures
        r@ == parsed_value(raw@),
{
    proof {
        reveal_strlit("\"");
    }
    let html = "<p title=\"".to_owned().concat(replace_all(raw, "\"", "&quot;").as_str()).concat(
        "\">",
    );
    if is_parseable(html.as_str()) {
        let selectors = vec!["p"];
        let selections = select_in_fragment(html.as_str(), &selectors, Some("title"));
        proof {
            assert(selectors.deep_view()[0] == "p"@);
            assert(selections.deep_view().len() == 1);
            assert(selections.deep_view()[0] == selections[0].deep_view());
        }
        if let Some(tags) = &selections[0] {
            assert(tags.deep_view().len() == tags@.len());
            if tags.len() > 0 {
                assert(tags.deep_view()[0] == tags[0].deep_view());
                if let Some(v) = &tags[0].value {
                    return v.clone();
                }
            }
        }
    }
    raw.to_owned()
}

/// The value that is written as `raw`.
pub fn read_value(raw: &str) -> (r: String)
    ensures
        r@ == value_of(raw@),
{
    let chars = chars_of(raw);
    let ghost all = raw@;
    let mut out = String::new();
    let mut i: usize = 0;
    assert(all.skip(0) =~= all);
    while i < chars.len()
        invariant
            chars@ == all,
            all == raw@,
            i <= chars@.len(),
            match plain_value(all.skip(i as int)) {
                Some(rest) => plain_value(all) == Some(out@ + rest),
                None => plain_value(all) is None,
            },
        decreases chars@.len() - i,
    {
        match plain_character(&chars, i) {
            Some((c, n)) => {
                let ghost before = out@;
                out.push(c);
                proof {
                    assert(all.skip(i as int).skip(n as int) =~= all.skip(i + n));
                    if let Some(rest) = plain_value(all.skip(i + n)) {
                        assert(before + (seq![c] + rest) =~= out@ + rest);
                    }
                }
                i += n;
            },
            None => {
                return parse_value(raw);
            },
        }
    }
    assert(out@ + all.skip(i as int) =~= out@);
    out
}

/// How a value is written in double quotes: as it is, where it reads as it is, else escaped.
pub open spec fn written(value: Seq<char>) -> Seq<char> {
    if !value.contains('"') && value_of(value) == value {
        value
    } else {
        escaped(value)
    }
}

/// `value` as it is written in double quotes.
pub fn write_value(value: &str) -> (r: String)
    ensures
        r@ == written(value@),
{
    let chars = chars_of(value);
    let end = scan(&chars, 0, Stop::At('"'));
    proof {
        lemma_until(chars@, 0, Stop::At('"'));
        if end < chars@.len() {
            assert(value@.contains(chars@[end as int]));
        } else if value@.contains('"') {
            let i = choose|i: int| 0 <= i < value@.len() && value@[i] == '"';
            assert(!stops(Stop::At('"'), chars@[i]));
        }
    }
    if end == chars.len() && read_value(value) == value.to_owned() {
        value.to_owned()
    } else {
        escape(value)
    }
}

// ---------------------------------------------------------------------------
// Laws
// ---------------------------------------------------------------------------

/// What a character is written as is read as that character.
proof fn lemma_character_read_back(c: char, rest: Seq<char>)
    requires
        c != '\r',
        c != '\0',
    ensures
        plain_start(escaped_character(c) + rest) == Some((c, escaped_character(c).len() as int)),
        escaped_character(c).len() > 0,
{
    reveal_strlit("&amp;");
    reveal_strlit("&quot;");
    reveal_strlit("&lt;");
    reveal_strlit("&gt;");
    reveal_strlit("&nbsp;");
    let head = escaped_character(c);
    let raw = head + rest;
    assert(raw.subrange(0, head.len() as int) =~= head);
    assert(raw[0] == head[0]);
    if c == '&' || c == '"' || c == '<' || c == '>' || c == '\u{a0}' {
        assert(begins(raw, head));
        assert(raw[1] == head[1]);
        if begins(raw, "&amp;"@) {
            assert(raw.subrange(0, 5)[1] == 'a');
        }
        if begins(raw, "&quot;"@) {
            assert(raw.subrange(0, 6)[1] == 'q');
        }
        if begins(raw, "&lt;"@) {
            assert(raw.subrange(0, 4)[1] == 'l');
        }
        if begins(raw, "&gt;"@) {
            assert(raw.subrange(0, 4)[1] == 'g');
        }
    }
}

/// A value that is written in a tag is read back as it was, if it holds no carriage return and
/// no null character, which HTML cannot hold.
pub proof fn law_value_read_back(value: Seq<char>)
    requires
        !value.contains('\r'),
        !value.contains('\0'),
    ensures
        plain_value(escaped(value)) == Some(value),
        value_of(escaped(value)) == value,
    decreases value.len(),
{
    if value.len() > 0 {
        let rest = value.skip(1);
        assert(value.contains(value[0]));
        assert forall|c: char| rest.contains(c) implies value.contains(c) by {
            let j = choose|j: int| 0 <= j < rest.len() && rest[j] == c;
            assert(value[j + 1] == c);
        }
        law_value_read_back(rest);
        let head = escaped_character(value[0]);
        lemma_character_read_back(value[0], escaped(rest));
        assert((head + escaped(rest)).skip(head.len() as int) =~= escaped(rest));
        assert(seq![value[0]] + rest =~= value);
    }
}

/// A written value ends no attribute and no tag.
pub proof fn lemma_escaped_fits(value: Seq<char>)
    ensures
        !escaped(value).contains('"'),
        !escaped(value).contains('<'),
        !escaped(value).contains('>'),
        !value.contains('\'') ==> !escaped(value).contains('\''),
    decreases value.len(),
{
    reveal_strlit("&amp;");
    reveal_strlit("&quot;");
    reveal_strlit("&lt;");
    reveal_strlit("&gt;");
    reveal_strlit("&nbsp;");
    if value.len() > 0 {
        let rest = value.skip(1);
        lemma_escaped_fits(rest);
        let head = escaped_character(value[0]);
        let all = escaped(value);
        assert(value.contains(value[0]));
        assert(rest.contains('\'') ==> value.contains('\'')) by {
            if rest.contains('\'') {
                let j = choose|j: int| 0 <= j < rest.len() && rest[j] == '\'';
                assert(value[j + 1] == '\'');
            }
        }
        assert forall|j: int| 0 <= j < all.len() implies #[trigger] all[j] != '"' && all[j] != '<'
            && all[j] != '>' && (!value.contains('\'') ==> all[j] != '\'') by {
            if j < head.len() {
                assert(all[j] == head[j]);
            } else {
                assert(all[j] == escaped(rest)[j - head.len()]);
                assert(escaped(rest).contains(all[j]));
            }
        }
    }
}

/// A value without ampersands, quotes and control characters is written as it is.
pub proof fn law_plain_value_stays(value: Seq<char>)
    requires
        forall|i: int|
            0 <= i < value.len() ==> (#[trigger] value[i]) != '&' && value[i] != '"' && value[i]
                != '\r' && value[i] != '\0',
    ensures
        plain_value(value) == Some(value),
        written(value) == value,
    decreases value.len(),
{
    if value.len() > 0 {
        let rest = value.skip(1);
        assert forall|i: int| 0 <= i < rest.len() implies (#[trigger] rest[i]) != '&' && rest[i]
            != '"' && rest[i] != '\r' && rest[i] != '\0' by {
            assert(rest[i] == value[i + 1]);
        }
        law_plain_value_stays(rest);
        assert(value[0] != '&');
        assert(seq![value[0]] + rest =~= value);
    }
    assert(!value.contains('"'));
}

/// A value that is written in an attribute is read back as it was, and does not end the
/// attribute.
pub proof fn law_written_read_back(value: Seq<char>)
    requires
        !value.contains('\r'),
        !value.contains('\0'),
    ensures
        value_of(written(value)) == value,
        !written(value).contains('"'),
{
    law_value_read_back(value);
    lemma_escaped_fits(value);
}

/// A written value starts with a text without ampersands only if the value does.
proof fn lemma_escaped_begins(value: Seq<char>, pat: Seq<char>)
    requires
        begins(escaped(value), pat),
        !pat.contains('&'),
    ensures
        begins(value, pat),
    decreases pat.len(),
{
    reveal_strlit("&amp;");
    reveal_strlit("&quot;");
    reveal_strlit("&lt;");
    reveal_strlit("&gt;");
    reveal_strlit("&nbsp;");
    let all = escaped(value);
    if pat.len() == 0 {
        assert(value.subrange(0, 0) =~= pat);
    } else {
        assert(all.subrange(0, pat.len() as int)[0] == all[0]);
        assert(pat.contains(pat[0]));
        let c = value[0];
        let head = escaped_character(c);
        assert(all[0] == head[0]);
        assert(head =~= seq![c]);
        let rest = value.skip(1);
        let less = pat.skip(1);
        assert(escaped(rest).subrange(0, less.len() as int) =~= less) by {
            assert forall|j: int| 0 <= j < less.len() implies #[trigger] escaped(rest)[j]
                == less[j] by {
                assert(all[j + 1] == escaped(rest)[j]);
                assert(all.subrange(0, pat.len() as int)[j + 1] == all[j + 1]);
            }
        }
        assert(!less.contains('&')) by {
            if less.contains('&') {
                let j = choose|j: int| 0 <= j < less.len() && less[j] == '&';
                assert(pat[j + 1] == '&');
            }
        }
        lemma_escaped_begins(rest, less);
        assert(value.subrange(0, pat.len() as int) =~= pat) by {
            assert forall|j: int| 0 <= j < pat.len() implies #[trigger] value[j] == pat[j] by {
                if j > 0 {
                    assert(rest.subrange(0, less.len() as int)[j - 1] == rest[j - 1]);
                }
            }
        }
    }
}

/// `src=` stands in a written value only if it stands in the value.
pub proof fn lemma_escaped_source_mark(value: Seq<char>)
    requires
        contains(escaped(value), "src="@),
    ensures
        contains(value, "src="@),
    decreases value.len(),
{
    reveal_strlit("src=");
    reveal_strlit("&amp;");
    reveal_strlit("&quot;");
    reveal_strlit("&lt;");
    reveal_strlit("&gt;");
    reveal_strlit("&nbsp;");
    let mark = "src="@;
    let all = escaped(value);
    let j = choose|j: int| occurs_at(all, mark, j);
    let c = value[0];
    let head = escaped_character(c);
    let rest = value.skip(1);
    let seen = all.subrange(j, j + 4);
    assert(seen[0] == all[j] && seen[1] == all[j + 1]);
    assert(!mark.contains('&'));
    if j == 0 {
        assert(all[0] == head[0]);
        lemma_escaped_begins(value, mark);
        assert(occurs_at(value, mark, 0));
    } else if j < head.len() {
        assert(all[j] == head[j]);
        if j + 1 < head.len() {
            assert(all[j + 1] == head[j + 1]);
        }
        assert(false);
    } else {
        lemma_occurs_in_tail(all, mark, head.len() as int, j - head.len());
        assert(all.skip(head.len() as int) =~= escaped(rest));
        assert(occurs_at(escaped(rest), mark, j - head.len()));
        lemma_escaped_source_mark(rest);
        let i = choose|i: int| occurs_at(rest, mark, i);
        lemma_occurs_in_tail(value, mark, 1, i);
        assert(occurs_at(value, mark, 1 + i));
    }
}

/// A value is escaped character by character: ampersands, double quotes, angle brackets and
/// no-break spaces become references, and everything else stays.
pub proof fn law_escaped(value: Seq<char>, c: char)
    ensures
        escaped(Seq::empty()) == Seq::<char>::empty(),
        escaped(value.push(c)) == escaped(value) + (if c == '&' {
            "&amp;"@
        } else if c == '"' {
            "&quot;"@
        } else if c == '<' {
            "&lt;"@
        } else if c == '>' {
            "&gt;"@
        } else if c == '\u{a0}' {
            "&nbsp;"@
        } else {
            seq![c]
        }),
    decreases value.len(),
{
    let all = value.push(c);
    let none = Seq::<char>::empty();
    if value.len() == 0 {
        assert(all.skip(1) =~= none);
        assert(all[0] == c);
        assert(escaped(none) =~= none);
        assert(escaped(all) == escaped_character(c) + escaped(none));
        assert(escaped(all) =~= escaped_character(c));
        assert(escaped(value) + escaped_character(c) =~= escaped_character(c));
    } else {
        law_escaped(value.skip(1), c);
        assert(all.skip(1) =~= value.skip(1).push(c));
        assert(escaped(all) =~= escaped(value) + escaped_character(c));
    }
}

/// A value is written as it is where it holds no double quote and reads as it is, and escaped
/// otherwise.
pub proof fn law_written(value: Seq<char>)
    ensures
        !value.contains('"') && value_of(value) == value ==> written(value) == value,
        value.contains('"') || value_of(value) != value ==> written(value) == escaped(value),
{
}

/// A value is read character by character: the five references by which values are escaped are
/// read as what they stand for, and any other character but an ampersand, a carriage return and a
/// null character as itself, if all that follows is written in a usual way.
pub proof fn law_value_read(c: char, raw: Seq<char>)
    requires
        plain_value(raw) is Some,
    ensures
        value_of(Seq::empty()) == Seq::<char>::empty(),
        c != '&' && c != '\r' && c != '\0' ==> value_of(seq![c] + raw) == seq![c] + value_of(raw),
        value_of("&amp;"@ + raw) == seq!['&'] + value_of(raw),
        value_of("&quot;"@ + raw) == seq!['"'] + value_of(raw),
        value_of("&lt;"@ + raw) == seq!['<'] + value_of(raw),
        value_of("&gt;"@ + raw) == seq!['>'] + value_of(raw),
        value_of("&nbsp;"@ + raw) == seq!['\u{a0}'] + value_of(raw),
{
    reveal_strlit("&amp;");
    reveal_strlit("&quot;");
    reveal_strlit("&lt;");
    reveal_strlit("&gt;");
    reveal_strlit("&nbsp;");
    let none = Seq::<char>::empty();
    assert(plain_value(none) == Some(none));
    if c != '&' && c != '\r' && c != '\0' {
        let all = seq![c] + raw;
        assert(all.skip(1) =~= raw);
        assert(all[0] == c);
    }
    lemma_reference_read('&', raw);
    lemma_reference_read('"', raw);
    lemma_reference_read('<', raw);
    lemma_reference_read('>', raw);
    lemma_reference_read('\u{a0}', raw);
}

proof fn lemma_reference_read(c: char, raw: Seq<char>)
    requires
        c != '\r',
        c != '\0',
        plain_value(raw) is Some,
    ensures
        value_of(escaped_character(c) + raw) == seq![c] + value_of(raw),
{
    let head = escaped_character(c);
    let all = head + raw;
    lemma_character_read_back(c, raw);
    assert(all.skip(head.len() as int) =~= raw);
}

/// A value that is written in an unusual way is what the parser reads in a tag that holds it.
pub proof fn law_value_parsed(raw: Seq<char>, html: Seq<char>, tags: Seq<TagView>, value: Seq<char>)
    requires
        plain_value(raw) is None,
        html == "<p title=\""@ + replaced(raw, "\""@, "&quot;"@) + "\">"@,
        parseable(html),
        fragment_selection(html, "p"@, Some("title"@)) == Some(tags),
        tags.len() > 0,
        tags[0].value == Some(value),
    ensures
        value_of(raw) == value,
{
}

/// What follows a lone ampersand is not the rest of a reference.
proof fn lemma_no_reference(name: Seq<char>, rest: Seq<char>, pat: Seq<char>)
    requires
        forall|i: int| 0 <= i < name.len() ==> ascii_alphanumeric(#[trigger] name[i]),
        name.len() > 0 ==> rest.len() > 0 && rest[0] == '=',
        name.len() == 0 && rest.len() > 0 ==> !ascii_alphanumeric(rest[0]),
        pat.len() > 2,
        pat.last() == ';',
        forall|i: int| 1 <= i < pat.len() - 1 ==> ascii_alphanumeric(#[trigger] pat[i]),
    ensures
        !begins(seq!['&'] + name + rest, pat),
{
    let all = seq!['&'] + name + rest;
    if begins(all, pat) {
        let m = pat.len() - 1;
        let e = 1 + name.len() as int;
        let seen = all.subrange(0, pat.len() as int);
        assert forall|j: int| 0 <= j < pat.len() implies all[j] == #[trigger] pat[j] by {
            assert(seen[j] == all[j]);
        }
        assert(all[m] == pat[m]);
        if e > m {
            assert(all[m] == name[m - 1]);
            assert(ascii_alphanumeric(name[m - 1]));
        } else {
            assert(all[e] == rest[0]);
            assert(all[e] == pat[e]);
            assert(all[1] == pat[1]);
            assert(ascii_alphanumeric(pat[1]));
        }
    }
}

/// An ampersand that no name and no number follows, or a name and an equals sign, is read as
/// itself, as in the parameters of an address.
pub proof fn law_lone_ampersand(name: Seq<char>, rest: Seq<char>)
    requires
        forall|i: int| 0 <= i < name.len() ==> ascii_alphanumeric(#[trigger] name[i]),
        name.len() > 0 ==> rest.len() > 0 && rest[0] == '=',
        name.len() == 0 && rest.len() > 0 ==> !ascii_alphanumeric(rest[0]) && rest[0] != '#',
        plain_value(name + rest) is Some,
    ensures
        value_of(seq!['&'] + name + rest) == seq!['&'] + value_of(name + rest),
{
    reveal_strlit("&amp;");
    reveal_strlit("&quot;");
    reveal_strlit("&lt;");
    reveal_strlit("&gt;");
    reveal_strlit("&nbsp;");
    let all = seq!['&'] + name + rest;
    let e = 1 + name.len() as int;
    lemma_no_reference(name, rest, "&amp;"@);
    lemma_no_reference(name, rest, "&quot;"@);
    lemma_no_reference(name, rest, "&lt;"@);
    lemma_no_reference(name, rest, "&gt;"@);
    lemma_no_reference(name, rest, "&nbsp;"@);
    assert(all[0] == '&');
    assert forall|j: int| 1 <= j < e implies !stops(Stop::NonAlphanumeric, #[trigger] all[j]) by {
        assert(all[j] == name[j - 1]);
    }
    if rest.len() > 0 {
        assert(all[e] == rest[0]);
    }
    lemma_until_is(all, 1, Stop::NonAlphanumeric, e);
    assert(lone_ampersand(all));
    assert(all.skip(1) =~= name + rest);
}

} // verus!
