//! Division tags turned into paragraph tags, for editors that know no `div`.

use crate::text::{begins, chars_of, law_occurs, lemma_occurs_in_tail, matches_at};
use vstd::prelude::*;

verus! {

/// `c` ends the name of an opening tag.
pub open spec fn ends_tag_name(c: char) -> bool {
    c == '>' || c == ' ' || c == '\n' || c == '\r' || c == '\t'
}

/// `s` starts with the closing tag of a division.
pub open spec fn closes_division(s: Seq<char>) -> bool {
    begins(s, "</div>"@)
}

/// `s` starts with the opening tag of a division: its name is `div` and no more.
pub open spec fn opens_division(s: Seq<char>) -> bool {
    &&& begins(s, "<div"@)
    &&& s.len() > 4 ==> ends_tag_name(s[4])
}

/// `s` with each division tag turned into the paragraph tag of the same kind; attributes
/// and everything else stay.
pub open spec fn paragraphed(s: Seq<char>) -> Seq<char>
    decreases s.len(),
{
    proof {
        reveal_strlit("</div>");
        reveal_strlit("<div");
    }
    if s.len() == 0 {
        s
    } else if closes_division(s) {
        "</p>"@ + paragraphed(s.skip(6))
    } else if opens_division(s) {
        "<p"@ + paragraphed(s.skip(4))
    } else {
        seq![s[0]] + paragraphed(s.skip(1))
    }
}

/// A division tag stands somewhere in `s`.
pub open spec fn has_division_tag(s: Seq<char>) -> bool {
    exists|i: int|
        0 <= i < s.len() && (closes_division(#[trigger] s.skip(i)) || opens_division(s.skip(i)))
}

/// Turns the division tags of `html` into paragraph tags.
pub fn div_to_p(html: &str) -> (r: String)
    ensures
        r@ == paragraphed(html@),
{
    let chars = chars_of(html);
    let close = chars_of("</div>");
    let open = chars_of("<div");
    let mut out = String::new();
    let mut i: usize = 0;
    proof {
        reveal_strlit("</div>");
        reveal_strlit("<div");
        assert(html@.skip(0) =~= html@);
        assert(out@ + paragraphed(html@.skip(0)) =~= paragraphed(html@));
    }
    while i < chars.len()
        invariant
            chars@ == html@,
            close@ == "</div>"@,
            close@.len() == 6,
            open@ == "<div"@,
            open@.len() == 4,
            i <= chars@.len(),
            out@ + paragraphed(html@.skip(i as int)) == paragraphed(html@),
        decreases chars@.len() - i,
    {
        let ghost before = out@;
        let ghost rest = html@.skip(i as int);
        proof {
            lemma_occurs_in_tail(html@, close@, i as int, 0);
            lemma_occurs_in_tail(html@, open@, i as int, 0);
        }
        if matches_at(&chars, &close, i) {
            out.append("</p>");
            proof {
                assert(rest.skip(6) =~= html@.skip(i + 6));
                assert(out@ + paragraphed(html@.skip(i + 6)) =~= before + ("</p>"@ + paragraphed(
                    html@.skip(i + 6),
                )));
            }
            i += 6;
        } else if matches_at(&chars, &open, i) && (i + 4 == chars.len() || chars[i + 4] == '>'
            || chars[i + 4] == ' ' || chars[i + 4] == '\n' || chars[i + 4] == '\r' || chars[i + 4]
            == '\t') {
            out.append("<p");
            proof {
                assert(rest.skip(4) =~= html@.skip(i + 4));
                assert(out@ + paragraphed(html@.skip(i + 4)) =~= before + ("<p"@ + paragraphed(
                    html@.skip(i + 4),
                )));
            }
            i += 4;
        } else {
            out.push(chars[i]);
            proof {
                assert(rest.skip(1) =~= html@.skip(i + 1));
                assert(out@ + paragraphed(html@.skip(i + 1)) =~= before + (seq![rest[0]]
                    + paragraphed(html@.skip(i + 1))));
            }
            i += 1;
        }
    }
    assert(out@ + paragraphed(html@.skip(i as int)) =~= out@);
    out
}

/// Where the output goes on for `k` characters without a `<`, the input does so with the
/// same characters.
proof fn lemma_copied(s: Seq<char>, k: int)
    requires
        0 <= k <= paragraphed(s).len(),
        forall|i: int| 0 <= i < k ==> #[trigger] paragraphed(s)[i] != '<',
    ensures
        k <= s.len(),
        s.take(k) == paragraphed(s).take(k),
        paragraphed(s).skip(k) == paragraphed(s.skip(k)),
    decreases k,
{
    reveal_strlit("</p>");
    reveal_strlit("<p");
    let out = paragraphed(s);
    if k == 0 {
        assert(s.skip(0) =~= s);
        assert(out.skip(0) =~= out);
    } else {
        assert(out[0] != '<');
        assert(s.len() > 0);
        let rest = s.skip(1);
        let tail = paragraphed(rest);
        assert("</p>"@[0] == '<');
        assert("<p"@[0] == '<');
        assert(out =~= seq![s[0]] + tail);
        assert forall|i: int| 0 <= i < k - 1 implies #[trigger] tail[i] != '<' by {
            assert(tail[i] == out[i + 1]);
        }
        lemma_copied(rest, k - 1);
        assert(s.take(k) =~= seq![s[0]] + rest.take(k - 1));
        assert(out.take(k) =~= seq![s[0]] + tail.take(k - 1));
        assert(out.skip(k) =~= tail.skip(k - 1));
        assert(s.skip(k) =~= rest.skip(k - 1));
    }
}

/// A copied character does not complete a division tag.
proof fn lemma_copy_starts_no_tag(s: Seq<char>)
    requires
        s.len() > 0,
        !closes_division(s),
        !opens_division(s),
    ensures
        !closes_division(paragraphed(s)),
        !opens_division(paragraphed(s)),
{
    reveal_strlit("</div>");
    reveal_strlit("<div");
    let out = paragraphed(s);
    let rest = s.skip(1);
    let tail = paragraphed(rest);
    assert(out =~= seq![s[0]] + tail);
    if closes_division(out) {
        let seen = out.subrange(0, 6);
        assert forall|i: int| 0 <= i < 5 implies #[trigger] tail[i] != '<' by {
            assert(tail[i] == seen[i + 1]);
        }
        lemma_copied(rest, 5);
        assert(s.subrange(0, 6) =~= seq![s[0]] + rest.take(5));
        assert(seen =~= seq![s[0]] + tail.take(5));
        assert(closes_division(s));
    }
    if opens_division(out) {
        let seen = out.subrange(0, 4);
        assert forall|i: int| 0 <= i < 3 implies #[trigger] tail[i] != '<' by {
            assert(tail[i] == seen[i + 1]);
        }
        lemma_copied(rest, 3);
        assert(s.subrange(0, 4) =~= seq![s[0]] + rest.take(3));
        assert(seen =~= seq![s[0]] + tail.take(3));
        if s.len() > 4 {
            let last = rest.skip(3);
            assert(paragraphed(last).len() > 0) by {
                reveal_strlit("</p>");
                reveal_strlit("<p");
            }
            assert(out[4] == tail.skip(3)[0]);
            lemma_copied(last, 1);
            assert(last.take(1)[0] == paragraphed(last).take(1)[0]);
            assert(s[4] == last[0]);
        }
        assert(opens_division(s));
    }
}

/// How the two division tags begin.
proof fn lemma_tag_characters(s: Seq<char>)
    ensures
        closes_division(s) ==> s.len() >= 6 && s[0] == '<' && s[1] == '/' && s[2] == 'd',
        opens_division(s) ==> s.len() >= 4 && s[0] == '<' && s[1] == 'd',
{
    reveal_strlit("</div>");
    reveal_strlit("<div");
    if closes_division(s) {
        let tag = s.subrange(0, 6);
        assert(s[0] == tag[0] && s[1] == tag[1] && s[2] == tag[2]);
    }
    if opens_division(s) {
        let tag = s.subrange(0, 4);
        assert(s[0] == tag[0] && s[1] == tag[1]);
    }
}

/// The result of turning division tags into paragraph tags holds no division tag: none
/// stays, and no new one comes about where the parts meet.
pub proof fn law_no_division_left(s: Seq<char>)
    ensures
        !has_division_tag(paragraphed(s)),
    decreases s.len(),
{
    reveal_strlit("</div>");
    reveal_strlit("<div");
    reveal_strlit("</p>");
    reveal_strlit("<p");
    let out = paragraphed(s);
    if s.len() > 0 {
        let (head, rest) = if closes_division(s) {
            ("</p>"@, s.skip(6))
        } else if opens_division(s) {
            ("<p"@, s.skip(4))
        } else {
            (seq![s[0]], s.skip(1))
        };
        law_no_division_left(rest);
        let tail = paragraphed(rest);
        assert(out == head + tail);
        if !closes_division(s) && !opens_division(s) {
            lemma_copy_starts_no_tag(s);
        }
        assert forall|i: int| 0 <= i < out.len() implies !closes_division(#[trigger] out.skip(i))
            && !opens_division(out.skip(i)) by {
            if i >= head.len() {
                assert(out.skip(i) =~= tail.skip(i - head.len()));
            } else {
                lemma_tag_characters(out.skip(i));
                assert(out.skip(i)[0] == head[i]);
                if i == 0 {
                    assert(out.skip(0) =~= out);
                    assert(head.len() > 1 ==> out[1] == head[1]);
                    assert(head.len() > 2 ==> out[2] == head[2]);
                }
            }
        }
    }
}

/// A text without division tags stays as it is.
pub proof fn law_without_division_unchanged(s: Seq<char>)
    requires
        !has_division_tag(s),
    ensures
        paragraphed(s) == s,
    decreases s.len(),
{
    if s.len() > 0 {
        assert(s.skip(0) =~= s);
        let rest = s.skip(1);
        assert forall|i: int| 0 <= i < rest.len() implies !closes_division(#[trigger] rest.skip(i))
            && !opens_division(rest.skip(i)) by {
            assert(rest.skip(i) =~= s.skip(i + 1));
        }
        law_without_division_unchanged(rest);
        assert(s =~= seq![s[0]] + rest);
    }
}

/// Turning division tags into paragraph tags a second time changes nothing.
pub proof fn law_idempotent(s: Seq<char>)
    ensures
        paragraphed(paragraphed(s)) == paragraphed(s),
{
    law_no_division_left(s);
    law_without_division_unchanged(paragraphed(s));
}

/// A text that is empty or ends with a tag can be taken on its own: its division tags are turned
/// the same, whatever follows it.
pub proof fn law_taken_apart(a: Seq<char>, b: Seq<char>)
    requires
        a.len() == 0 || a.last() == '>',
    ensures
        paragraphed(a + b) == paragraphed(a) + paragraphed(b),
    decreases a.len(),
{
    reveal_strlit("</div>");
    reveal_strlit("<div");
    let s = a + b;
    if a.len() == 0 {
        assert(s =~= b);
        assert(paragraphed(a) + paragraphed(b) =~= paragraphed(b));
    } else {
        assert(s[a.len() - 1] == '>');
        assert(closes_division(s) == closes_division(a)) by {
            if a.len() >= 6 {
                assert(s.subrange(0, 6) =~= a.subrange(0, 6));
            } else if closes_division(s) {
                assert(s.subrange(0, 6)[a.len() - 1] == s[a.len() - 1]);
                assert("</div>"@[a.len() - 1] != '>');
            }
        }
        assert(opens_division(s) == opens_division(a)) by {
            if a.len() >= 5 {
                assert(s.subrange(0, 4) =~= a.subrange(0, 4));
                assert(s[4] == a[4]);
            } else {
                if opens_division(s) {
                    assert(s.subrange(0, 4)[a.len() - 1] == s[a.len() - 1]);
                    assert("<div"@[a.len() - 1] != '>');
                }
                if opens_division(a) {
                    assert(a.subrange(0, 4)[3] == a[3]);
                }
            }
        }
        let n: int = if closes_division(a) {
            6
        } else if opens_division(a) {
            4
        } else {
            1
        };
        let rest = a.skip(n);
        assert(s.skip(n) =~= rest + b);
        assert(rest.len() > 0 ==> rest.last() == a.last());
        law_taken_apart(rest, b);
        assert(paragraphed(s) =~= paragraphed(a) + paragraphed(b));
    }
}

/// A closing division tag becomes a closing paragraph tag, and an opening one the start of an
/// opening paragraph tag; what follows is as if it stood alone.
pub proof fn law_division_tags(rest: Seq<char>)
    ensures
        paragraphed("</div>"@ + rest) == "</p>"@ + paragraphed(rest),
        rest.len() == 0 || rest[0] == '>' || rest[0] == ' ' || rest[0] == '\n' || rest[0] == '\r'
            || rest[0] == '\t' ==> paragraphed("<div"@ + rest) == "<p"@ + paragraphed(rest),
{
    reveal_strlit("</div>");
    reveal_strlit("<div");
    let a = "</div>"@ + rest;
    let b = "<div"@ + rest;
    assert(a.subrange(0, 6) =~= "</div>"@);
    assert(a.skip(6) =~= rest);
    assert(b.subrange(0, 4) =~= "<div"@);
    assert(b.skip(4) =~= rest);
    assert(!closes_division(b)) by {
        if closes_division(b) {
            assert(b.subrange(0, 6)[1] == b[1]);
        }
    }
    if rest.len() > 0 {
        assert(b[4] == rest[0]);
    }
}

/// A character that starts no division tag stays, and what follows is as if it stood alone.
pub proof fn law_other_character(c: char, rest: Seq<char>)
    requires
        !"</div>"@.is_prefix_of(seq![c] + rest),
        "<div"@.is_prefix_of(seq![c] + rest) ==> rest.len() > 3 && rest[3] != '>' && rest[3] != ' '
            && rest[3] != '\n' && rest[3] != '\r' && rest[3] != '\t',
    ensures
        paragraphed(Seq::empty()) == Seq::<char>::empty(),
        paragraphed(seq![c] + rest) == seq![c] + paragraphed(rest),
{
    let s = seq![c] + rest;
    reveal_strlit("</div>");
    reveal_strlit("<div");
    law_occurs(s, "</div>"@, 0, rest);
    law_occurs(s, "<div"@, 0, rest);
    assert(s.skip(1) =~= rest);
    assert(rest.len() > 3 ==> s[4] == rest[3]);
}

} // verus!
