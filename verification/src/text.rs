//! Text as a sequence of characters: searching, cutting, replacing and joining.
//!
//! Positions are counted in characters, never in bytes.

use vstd::prelude::*;

verus! {

// ---------------------------------------------------------------------------
// What the operations mean
// ---------------------------------------------------------------------------

/// The characters with Unicode's `White_Space` property.
pub open spec fn white_space(c: char) -> bool {
    ||| 0x09 <= c as u32 <= 0x0d
    ||| c as u32 == 0x20
    ||| c as u32 == 0x85
    ||| c as u32 == 0xa0
    ||| c as u32 == 0x1680
    ||| 0x2000 <= c as u32 <= 0x200a
    ||| c as u32 == 0x2028
    ||| c as u32 == 0x2029
    ||| c as u32 == 0x202f
    ||| c as u32 == 0x205f
    ||| c as u32 == 0x3000
}

/// `s` without its leading white space.
pub open spec fn trimmed_start(s: Seq<char>) -> Seq<char>
    decreases s.len(),
{
    if s.len() > 0 && white_space(s[0]) {
        trimmed_start(s.skip(1))
    } else {
        s
    }
}

/// `s` without its trailing white space.
pub open spec fn trimmed_end(s: Seq<char>) -> Seq<char>
    decreases s.len(),
{
    if s.len() > 0 && white_space(s.last()) {
        trimmed_end(s.drop_last())
    } else {
        s
    }
}

/// `s` without the white space at its two ends.
pub open spec fn trimmed(s: Seq<char>) -> Seq<char> {
    trimmed_end(trimmed_start(s))
}

/// `pat` stands in `s` at position `i`.
pub open spec fn occurs_at(s: Seq<char>, pat: Seq<char>, i: int) -> bool {
    &&& 0 <= i
    &&& i + pat.len() <= s.len()
    &&& s.subrange(i, i + pat.len()) == pat
}

/// `s` starts with `pat`.
pub open spec fn begins(s: Seq<char>, pat: Seq<char>) -> bool {
    occurs_at(s, pat, 0)
}

/// `pat` stands somewhere in `s`.
pub open spec fn contains(s: Seq<char>, pat: Seq<char>) -> bool {
    exists|i: int| occurs_at(s, pat, i)
}

/// The first position at or after `i` at which `pat` stands in `s`.
pub open spec fn first_from(s: Seq<char>, pat: Seq<char>, i: int) -> Option<int>
    decreases s.len() - i + 1,
{
    if i + pat.len() > s.len() {
        None
    } else if occurs_at(s, pat, i) {
        Some(i)
    } else {
        first_from(s, pat, i + 1)
    }
}

/// The first position at which `pat` stands in `s`.
pub open spec fn first(s: Seq<char>, pat: Seq<char>) -> Option<int> {
    first_from(s, pat, 0)
}

/// The pieces of `s` between the separators `sep`; a text without one is a single piece.
pub open spec fn pieces(s: Seq<char>, sep: char) -> Seq<Seq<char>>
    decreases s.len(),
{
    proof {
        lemma_first_from(s, seq![sep], 0);
    }
    match first(s, seq![sep]) {
        Some(i) => seq![s.take(i)] + pieces(s.skip(i + 1), sep),
        None => seq![s],
    }
}

/// `s` with every occurrence of `from`, taken from left to right without overlap, turned
/// into `to`.
pub open spec fn replaced(s: Seq<char>, from: Seq<char>, to: Seq<char>) -> Seq<char>
    recommends
        from.len() > 0,
    decreases s.len(),
{
    if s.len() == 0 || from.len() == 0 {
        s
    } else if begins(s, from) {
        to + replaced(s.skip(from.len() as int), from, to)
    } else {
        seq![s[0]] + replaced(s.skip(1), from, to)
    }
}

/// The texts of `parts`, in order, with `sep` between each two neighbours.
pub open spec fn joined(parts: Seq<Seq<char>>, sep: Seq<char>) -> Seq<char>
    decreases parts.len(),
{
    if parts.len() == 0 {
        Seq::empty()
    } else if parts.len() == 1 {
        parts[0]
    } else {
        parts[0] + sep + joined(parts.skip(1), sep)
    }
}

/// The lower-case form of an ASCII character.
pub open spec fn ascii_lower(c: char) -> char {
    if 'A' <= c <= 'Z' {
        (c as u32 + 32) as char
    } else {
        c
    }
}

/// `c` is an ASCII letter or digit.
pub open spec fn ascii_alphanumeric(c: char) -> bool {
    ||| 'a' <= c <= 'z'
    ||| 'A' <= c <= 'Z'
    ||| '0' <= c <= '9'
}

/// Every character of `s` is an ASCII character.
pub open spec fn all_ascii(s: Seq<char>) -> bool {
    forall|i: int| 0 <= i < s.len() ==> (#[trigger] s[i]) as u32 <= 0x7f
}

/// What `str::to_lowercase` makes of a text.
pub uninterp spec fn unicode_lowercase(s: Seq<char>) -> Seq<char>;

/// Whether `char::is_alphanumeric` holds of a character.
pub uninterp spec fn unicode_alphanumeric(c: char) -> bool;

/// The lower-case form of `s`: on ASCII text letter by letter, else Unicode's.
pub open spec fn lower(s: Seq<char>) -> Seq<char> {
    if all_ascii(s) {
        s.map_values(|c: char| ascii_lower(c))
    } else {
        unicode_lowercase(s)
    }
}

/// `c` is a letter or a digit: among ASCII characters one of `a-z`, `A-Z`, `0-9`, else
/// what Unicode counts as one.
pub open spec fn alphanumeric(c: char) -> bool {
    if c as u32 <= 0x7f {
        ascii_alphanumeric(c)
    } else {
        unicode_alphanumeric(c)
    }
}

// ---------------------------------------------------------------------------
// Facts about the definitions
// ---------------------------------------------------------------------------

/// `first_from` gives the least position of an occurrence, and none only where there is none.
pub proof fn lemma_first_from(s: Seq<char>, pat: Seq<char>, i: int)
    requires
        0 <= i,
    ensures
        match first_from(s, pat, i) {
            Some(k) => {
                &&& i <= k
                &&& occurs_at(s, pat, k)
                &&& forall|j: int| i <= j < k ==> !#[trigger] occurs_at(s, pat, j)
            },
            None => forall|j: int| i <= j ==> !#[trigger] occurs_at(s, pat, j),
        },
    decreases s.len() - i + 1,
{
    if i + pat.len() <= s.len() && !occurs_at(s, pat, i) {
        lemma_first_from(s, pat, i + 1);
    }
}

/// An occurrence before which there is none is the first one.
pub proof fn lemma_first_is(s: Seq<char>, pat: Seq<char>, i: int, k: int)
    requires
        0 <= i <= k,
        occurs_at(s, pat, k),
        forall|j: int| i <= j < k ==> !#[trigger] occurs_at(s, pat, j),
    ensures
        first_from(s, pat, i) == Some(k),
{
    lemma_first_from(s, pat, i);
}

/// An occurrence in a tail of `s` is one in `s`, shifted.
pub proof fn lemma_occurs_in_tail(s: Seq<char>, pat: Seq<char>, n: int, i: int)
    requires
        0 <= n <= s.len(),
        0 <= i,
    ensures
        occurs_at(s.skip(n), pat, i) == occurs_at(s, pat, n + i),
{
    if n + i + pat.len() <= s.len() {
        assert(s.skip(n).subrange(i, i + pat.len()) =~= s.subrange(n + i, n + i + pat.len()));
    }
}

/// Where one character stands, that character is what occurs.
pub proof fn lemma_occurs_char(s: Seq<char>, c: char, i: int)
    ensures
        occurs_at(s, seq![c], i) <==> 0 <= i < s.len() && s[i] == c,
{
    if 0 <= i < s.len() {
        assert(s.subrange(i, i + 1) =~= seq![s[i]]);
        assert(s.subrange(i, i + 1)[0] == s[i]);
        assert(seq![c][0] == c);
    }
}

/// Trimming removes white space where there is some.
proof fn lemma_trim_shrinks(s: Seq<char>)
    ensures
        trimmed_start(s).len() <= s.len(),
        trimmed_end(s).len() <= s.len(),
        s.len() > 0 && white_space(s[0]) ==> trimmed_start(s).len() < s.len(),
        s.len() > 0 && white_space(s.last()) ==> trimmed_end(s).len() < s.len(),
    decreases s.len(),
{
    if s.len() > 0 {
        lemma_trim_shrinks(s.skip(1));
        lemma_trim_shrinks(s.drop_last());
    }
}

/// A text that trimming leaves as it is has no white space at its ends.
pub proof fn lemma_trimmed_ends(s: Seq<char>)
    requires
        trimmed(s) == s,
        s.len() > 0,
    ensures
        !white_space(s[0]),
        !white_space(s.last()),
{
    lemma_trim_shrinks(s);
    lemma_trim_shrinks(trimmed_start(s));
}

/// What trimming leaves is part of the text.
proof fn lemma_trim_within(s: Seq<char>)
    ensures
        forall|i: int| 0 <= i < trimmed_start(s).len() ==> s.contains(#[trigger] trimmed_start(s)[i]),
        forall|i: int| 0 <= i < trimmed_end(s).len() ==> s.contains(#[trigger] trimmed_end(s)[i]),
        trimmed_start(s).len() > 0 ==> !white_space(trimmed_start(s)[0]),
        trimmed_end(s).len() > 0 ==> !white_space(trimmed_end(s).last())
            && trimmed_end(s)[0] == s[0],
    decreases s.len(),
{
    if s.len() > 0 {
        let rest = s.skip(1);
        let front = s.drop_last();
        lemma_trim_within(rest);
        lemma_trim_within(front);
        assert forall|c: char| rest.contains(c) || front.contains(c) implies s.contains(c) by {
            if rest.contains(c) {
                let j = choose|j: int| 0 <= j < rest.len() && rest[j] == c;
                assert(s[j + 1] == c);
            } else {
                let j = choose|j: int| 0 <= j < front.len() && front[j] == c;
                assert(s[j] == c);
            }
        }
    }
}

/// Trimming leaves no white space at the ends, and only characters of the text.
pub proof fn lemma_trimmed(s: Seq<char>)
    ensures
        forall|i: int| 0 <= i < trimmed(s).len() ==> s.contains(#[trigger] trimmed(s)[i]),
        trimmed(s).len() > 0 ==> !white_space(trimmed(s)[0]) && !white_space(trimmed(s).last()),
{
    lemma_trim_within(s);
    lemma_trim_within(trimmed_start(s));
    assert forall|i: int| 0 <= i < trimmed(s).len() implies s.contains(#[trigger] trimmed(s)[i]) by {
        let c = trimmed(s)[i];
        assert(trimmed_start(s).contains(c));
        let j = choose|j: int| 0 <= j < trimmed_start(s).len() && trimmed_start(s)[j] == c;
        assert(s.contains(trimmed_start(s)[j]));
    }
}

/// Trimming a second time changes nothing.
pub proof fn law_trimmed_twice(s: Seq<char>)
    ensures
        trimmed(trimmed(s)) == trimmed(s),
{
    lemma_trimmed(s);
}

/// A text in which `from` does not stand is not changed by replacing it.
pub proof fn law_replacing_nothing(s: Seq<char>, from: Seq<char>, to: Seq<char>)
    requires
        !contains(s, from),
    ensures
        replaced(s, from, to) == s,
    decreases s.len(),
{
    if s.len() > 0 && from.len() > 0 {
        let rest = s.skip(1);
        assert(!occurs_at(s, from, 0));
        assert forall|i: int| !#[trigger] occurs_at(rest, from, i) by {
            if 0 <= i {
                lemma_occurs_in_tail(s, from, 1, i);
                assert(!occurs_at(s, from, 1 + i));
            }
        }
        law_replacing_nothing(rest, from, to);
        assert(s =~= seq![s[0]] + rest);
    }
}

/// Replacing turns the first occurrence of `from` into `to`, leaves what stands before it,
/// and goes on behind it.
pub proof fn law_replacing_first(s: Seq<char>, from: Seq<char>, to: Seq<char>)
    requires
        from.len() > 0,
        first(s, from) is Some,
    ensures
        ({
            let i = first(s, from)->0;
            replaced(s, from, to) == s.take(i) + to + replaced(s.skip(i + from.len()), from, to)
        }),
    decreases s.len(),
{
    lemma_first_from(s, from, 0);
    let i = first(s, from)->0;
    if i == 0 {
        assert(s.take(0) + to + replaced(s.skip(from.len() as int), from, to) =~= to + replaced(
            s.skip(from.len() as int),
            from,
            to,
        ));
    } else {
        let rest = s.skip(1);
        lemma_occurs_in_tail(s, from, 1, i - 1);
        assert forall|j: int| 0 <= j < i - 1 implies !#[trigger] occurs_at(rest, from, j) by {
            lemma_occurs_in_tail(s, from, 1, j);
            assert(!occurs_at(s, from, 1 + j));
        }
        lemma_first_is(rest, from, 0, i - 1);
        law_replacing_first(rest, from, to);
        assert(!occurs_at(s, from, 0));
        assert(rest.skip(i - 1 + from.len()) =~= s.skip(i + from.len()));
        assert(seq![s[0]] + rest.take(i - 1) =~= s.take(i));
        let tail = replaced(s.skip(i + from.len()), from, to);
        assert(seq![s[0]] + (rest.take(i - 1) + to + tail) =~= s.take(i) + to + tail);
    }
}

/// Replacing copies what stands before the first place at which `from` stands.
proof fn lemma_replacing_copies(s: Seq<char>, from: Seq<char>, to: Seq<char>, n: int)
    requires
        from.len() > 0,
        0 <= n <= s.len(),
        forall|j: int| 0 <= j < n ==> !#[trigger] occurs_at(s, from, j),
    ensures
        replaced(s, from, to) == s.take(n) + replaced(s.skip(n), from, to),
    decreases n,
{
    if n == 0 {
        assert(s.skip(0) =~= s);
        assert(s.take(0) + replaced(s, from, to) =~= replaced(s, from, to));
    } else {
        let rest = s.skip(1);
        assert(!occurs_at(s, from, 0));
        assert forall|j: int| 0 <= j < n - 1 implies !#[trigger] occurs_at(rest, from, j) by {
            lemma_occurs_in_tail(s, from, 1, j);
            assert(!occurs_at(s, from, 1 + j));
        }
        lemma_replacing_copies(rest, from, to, n - 1);
        assert(rest.skip(n - 1) =~= s.skip(n));
        let tail = replaced(s.skip(n), from, to);
        assert(seq![s[0]] + (rest.take(n - 1) + tail) =~= s.take(n) + tail);
    }
}

/// A text that stands in a part stands in the whole.
proof fn lemma_contains_in_tail(head: Seq<char>, tail: Seq<char>, pat: Seq<char>)
    requires
        contains(tail, pat),
    ensures
        contains(head + tail, pat),
{
    let i = choose|i: int| occurs_at(tail, pat, i);
    assert((head + tail).skip(head.len() as int) =~= tail);
    lemma_occurs_in_tail(head + tail, pat, head.len() as int, i);
    assert(occurs_at(head + tail, pat, head.len() + i));
}

/// Replacing leaves a text where it stands apart from everything that is replaced.
pub proof fn law_replacing_elsewhere(
    s: Seq<char>,
    from: Seq<char>,
    to: Seq<char>,
    pat: Seq<char>,
    k: int,
)
    requires
        from.len() > 0,
        occurs_at(s, pat, k),
        forall|j: int| #[trigger]
            occurs_at(s, from, j) ==> j + from.len() <= k || k + pat.len() <= j,
    ensures
        contains(replaced(s, from, to), pat),
    decreases s.len(),
{
    if k == 0 {
        assert forall|j: int| 0 <= j < pat.len() implies !#[trigger] occurs_at(s, from, j) by {}
        lemma_replacing_copies(s, from, to, pat.len() as int);
        let all = replaced(s, from, to);
        assert(s.take(pat.len() as int) =~= s.subrange(0, pat.len() as int));
        assert(all.subrange(0, pat.len() as int) =~= pat);
        assert(occurs_at(all, pat, 0));
    } else {
        let n: int = if begins(s, from) {
            from.len() as int
        } else {
            1
        };
        assert(begins(s, from) ==> from.len() <= k || k + pat.len() <= 0);
        let rest = s.skip(n);
        lemma_occurs_in_tail(s, pat, n, k - n);
        assert forall|j: int| #[trigger] occurs_at(rest, from, j) implies j + from.len() <= k - n
            || k - n + pat.len() <= j by {
            lemma_occurs_in_tail(s, from, n, j);
            assert(occurs_at(s, from, n + j));
        }
        law_replacing_elsewhere(rest, from, to, pat, k - n);
        if begins(s, from) {
            lemma_contains_in_tail(to, replaced(rest, from, to), pat);
        } else {
            lemma_contains_in_tail(seq![s[0]], replaced(rest, from, to), pat);
        }
    }
}

/// Where everything that is to be replaced stands before a part of a text or behind it, or is that
/// part, the text is replaced before it and behind it, each on its own.
pub proof fn law_replacing_apart(
    a: Seq<char>,
    x: Seq<char>,
    b: Seq<char>,
    from: Seq<char>,
    to: Seq<char>,
)
    requires
        from.len() > 0,
        forall|j: int| #[trigger]
            occurs_at(a + x + b, from, j) ==> j + from.len() <= a.len() || a.len() + x.len() <= j || (j
                == a.len() && x == from),
    ensures
        replaced(a + x + b, from, to) == replaced(a, from, to) + (if x == from {
            to
        } else {
            x
        }) + replaced(b, from, to),
    decreases a.len(),
{
    let s = a + x + b;
    let y = if x == from {
        to
    } else {
        x
    };
    let behind = replaced(b, from, to);
    if a.len() == 0 {
        assert(s =~= x + b);
        assert(s.skip(x.len() as int) =~= b);
        assert(s.subrange(0, x.len() as int) =~= x);
        if x == from {
            assert(begins(s, from));
        } else {
            assert forall|j: int| 0 <= j < x.len() implies !#[trigger] occurs_at(s, from, j) by {}
            lemma_replacing_copies(s, from, to, x.len() as int);
            assert(s.take(x.len() as int) =~= x);
        }
        assert(replaced(a, from, to) + y + behind =~= y + behind);
    } else {
        let n: int = if begins(s, from) {
            from.len() as int
        } else {
            1
        };
        assert(begins(s, from) ==> from.len() <= a.len());
        assert(begins(s, from) == begins(a, from)) by {
            if from.len() <= a.len() {
                assert(s.subrange(0, from.len() as int) =~= a.subrange(0, from.len() as int));
            }
        }
        let less = a.skip(n);
        let rest = less + x + b;
        assert(s.skip(n) =~= rest);
        assert forall|j: int| #[trigger] occurs_at(rest, from, j) implies j + from.len()
            <= less.len() || less.len() + x.len() <= j || (j == less.len() && x == from) by {
            lemma_occurs_in_tail(s, from, n, j);
            assert(occurs_at(s, from, n + j));
        }
        law_replacing_apart(less, x, b, from, to);
        let tail = replaced(less, from, to);
        if begins(s, from) {
            assert(to + (tail + y + behind) =~= to + tail + y + behind);
        } else {
            assert(s[0] == a[0]);
            assert(seq![s[0]] + (tail + y + behind) =~= seq![a[0]] + tail + y + behind);
        }
    }
}

/// `pat` stands at `i` in a text that consists of `i` characters, `pat` and anything, and in no
/// other text.
pub proof fn law_occurs(s: Seq<char>, pat: Seq<char>, i: int, rest: Seq<char>)
    requires
        0 <= i <= s.len(),
    ensures
        occurs_at(s.take(i) + pat + rest, pat, i),
        occurs_at(s, pat, i) <==> pat.is_prefix_of(s.skip(i)),
        begins(s, pat) <==> pat.is_prefix_of(s),
{
    let all = s.take(i) + pat + rest;
    assert(all.subrange(i, i + pat.len()) =~= pat);
    if i + pat.len() <= s.len() {
        assert(s.subrange(i, i + pat.len()) =~= s.skip(i).subrange(0, pat.len() as int));
    }
}

/// A text stands somewhere in another one if what is left of that one at some place starts with it,
/// character for character.
pub proof fn law_contains(s: Seq<char>, pat: Seq<char>)
    ensures
        contains(s, pat) <==> exists|i: int| 0 <= i <= s.len() && pat.is_prefix_of(
            #[trigger] s.skip(i),
        ),
{
    if contains(s, pat) {
        let i = choose|i: int| occurs_at(s, pat, i);
        law_occurs(s, pat, i, pat);
        assert(pat.is_prefix_of(s.skip(i)));
    }
    if exists|i: int| 0 <= i <= s.len() && pat.is_prefix_of(#[trigger] s.skip(i)) {
        let i = choose|i: int| 0 <= i <= s.len() && pat.is_prefix_of(#[trigger] s.skip(i));
        law_occurs(s, pat, i, pat);
        assert(occurs_at(s, pat, i));
    }
}

/// The characters that count as white space.
pub proof fn law_white_space(c: char, spaces: Seq<char>)
    requires
        spaces == seq![
            '\t', '\n', '\u{b}', '\u{c}', '\r', ' ', '\u{85}', '\u{a0}', '\u{1680}', '\u{2000}',
            '\u{2001}', '\u{2002}', '\u{2003}', '\u{2004}', '\u{2005}', '\u{2006}', '\u{2007}',
            '\u{2008}', '\u{2009}', '\u{200a}', '\u{2028}', '\u{2029}', '\u{202f}', '\u{205f}',
            '\u{3000}',
        ],
    ensures
        white_space(c) <==> spaces.contains(c),
{
    if white_space(c) {
        let i: int = if c as u32 <= 0x0d {
            c as u32 - 0x09
        } else if c as u32 == 0x20 {
            5
        } else if c as u32 == 0x85 {
            6
        } else if c as u32 == 0xa0 {
            7
        } else if c as u32 == 0x1680 {
            8
        } else if c as u32 <= 0x200a {
            9 + (c as u32 - 0x2000)
        } else if c as u32 == 0x2028 {
            20
        } else if c as u32 == 0x2029 {
            21
        } else if c as u32 == 0x202f {
            22
        } else if c as u32 == 0x205f {
            23
        } else {
            24
        };
        assert(spaces[i] == c);
    }
}

/// White space at the start of a text, or at its end, makes no difference to trimming it.
proof fn lemma_trimmed_outside(a: Seq<char>, t: Seq<char>)
    requires
        forall|i: int| 0 <= i < a.len() ==> white_space(#[trigger] a[i]),
    ensures
        trimmed_start(a + t) == trimmed_start(t),
        trimmed_end(t + a) == trimmed_end(t),
    decreases a.len(),
{
    if a.len() == 0 {
        assert(a + t =~= t);
        assert(t + a =~= t);
    } else {
        let less = a.skip(1);
        let short = a.drop_last();
        assert(white_space(a[0]) && white_space(a[a.len() - 1]));
        assert((a + t).skip(1) =~= less + t);
        assert((t + a).drop_last() =~= t + short);
        assert((t + a).last() == a.last());
        assert forall|i: int| 0 <= i < less.len() implies white_space(#[trigger] less[i]) by {
            assert(less[i] == a[i + 1]);
        }
        lemma_trimmed_outside(less, t);
        lemma_trimmed_outside(short, t);
    }
}

/// Trimming takes off the white space before and behind a text, and nothing of the text.
pub proof fn law_trimmed(before: Seq<char>, text: Seq<char>, behind: Seq<char>)
    requires
        forall|i: int| 0 <= i < before.len() ==> white_space(#[trigger] before[i]),
        forall|i: int| 0 <= i < behind.len() ==> white_space(#[trigger] behind[i]),
        text.len() > 0 ==> !white_space(text[0]) && !white_space(text.last()),
    ensures
        trimmed(before + text + behind) == text,
{
    let none = Seq::<char>::empty();
    assert(before + text + behind =~= before + (text + behind));
    lemma_trimmed_outside(before, text + behind);
    lemma_trimmed_outside(behind, text);
    if text.len() == 0 {
        assert(text + behind =~= behind + none);
        lemma_trimmed_outside(behind, none);
        assert(text =~= none);
    } else {
        assert((text + behind)[0] == text[0]);
    }
}

/// One more text is joined behind the others, and behind a separator where there are others.
pub proof fn law_joined(parts: Seq<Seq<char>>, more: Seq<char>, sep: Seq<char>)
    ensures
        joined(Seq::empty(), sep) == Seq::<char>::empty(),
        joined(seq![more], sep) == more,
        parts.len() > 0 ==> joined(parts.push(more), sep) == joined(parts, sep) + sep + more,
    decreases parts.len(),
{
    if parts.len() > 0 {
        let all = parts.push(more);
        let rest = parts.skip(1);
        law_joined(rest, more, sep);
        assert(all.skip(1) =~= rest.push(more));
        assert(all[0] == parts[0]);
        if parts.len() == 1 {
            assert(rest.push(more) =~= seq![more]);
        }
        assert(joined(all, sep) =~= joined(parts, sep) + sep + more);
    }
}

/// A text consists of its pieces, with a separator between each two, and no piece holds one.
pub proof fn law_pieces(s: Seq<char>, sep: char)
    ensures
        pieces(s, sep).len() > 0,
        joined(pieces(s, sep), seq![sep]) == s,
        forall|i: int| 0 <= i < pieces(s, sep).len() ==> !(#[trigger] pieces(s, sep)[i]).contains(sep),
    decreases s.len(),
{
    lemma_first_from(s, seq![sep], 0);
    let all = pieces(s, sep);
    match first(s, seq![sep]) {
        Some(k) => {
            let head = s.take(k);
            let rest = s.skip(k + 1);
            assert forall|j: int| 0 <= j < head.len() implies #[trigger] head[j] != sep by {
                lemma_occurs_char(s, sep, j);
            }
            law_pieces(rest, sep);
            assert forall|i: int| 0 <= i < all.len() implies !(#[trigger] all[i]).contains(sep) by {
                if i > 0 {
                    assert(all[i] == pieces(rest, sep)[i - 1]);
                }
            }
            lemma_occurs_char(s, sep, k);
            assert(all.skip(1) =~= pieces(rest, sep));
            assert(s =~= head + seq![sep] + rest);
        },
        None => {
            assert forall|j: int| 0 <= j < s.len() implies #[trigger] s[j] != sep by {
                lemma_occurs_char(s, sep, j);
            }
        },
    }
}

/// In lower case the capital letters of an ASCII text have become small ones, and nothing else
/// has changed; any other text is what Unicode makes of it.
pub proof fn law_lower(s: Seq<char>)
    ensures
        (forall|i: int| 0 <= i < s.len() ==> (#[trigger] s[i]) as u32 <= 0x7f) ==> lower(s).len()
            == s.len() && forall|i: int|
            0 <= i < s.len() ==> (#[trigger] lower(s)[i]) as u32 == if 'A' <= s[i] <= 'Z' {
                s[i] as u32 + 32
            } else {
                s[i] as u32 as int
            },
        !(forall|i: int| 0 <= i < s.len() ==> (#[trigger] s[i]) as u32 <= 0x7f) ==> lower(s)
            == unicode_lowercase(s),
{
}

/// The letters and digits among the ASCII characters are those of the English alphabet and the
/// decimal ones; among the other characters they are Unicode's.
pub proof fn law_alphanumeric(c: char)
    ensures
        c as u32 <= 0x7f ==> (alphanumeric(c) <==> 0x30 <= c as u32 <= 0x39 || 0x41 <= c as u32
            <= 0x5a || 0x61 <= c as u32 <= 0x7a),
        c as u32 > 0x7f ==> alphanumeric(c) == unicode_alphanumeric(c),
{
}

// ---------------------------------------------------------------------------
// Outside functions
// ---------------------------------------------------------------------------

/// `String::push` appends one character to the end of the string.
pub assume_specification[ String::push ](s: &mut String, c: char)
    ensures
        final(s)@ == old(s)@.push(c),
;

/// `str::to_lowercase` gives the Unicode lower-case form of the text, whatever the
/// locale; among ASCII characters it changes exactly `A` to `Z`.
pub assume_specification[ str::to_lowercase ](s: &str) -> (r: String)
    ensures
        r@ == unicode_lowercase(s@),
        all_ascii(s@) ==> r@ == s@.map_values(|c: char| ascii_lower(c)),
;

/// `char::is_alphanumeric` tells whether Unicode counts the character as alphabetic or
/// numeric; among ASCII characters these are the letters and the digits.
pub assume_specification[ char::is_alphanumeric ](c: char) -> (r: bool)
    ensures
        r == unicode_alphanumeric(c),
        c as u32 <= 0x7f ==> r == ascii_alphanumeric(c),
;

// ---------------------------------------------------------------------------
// The operations
// ---------------------------------------------------------------------------

/// The characters of `s`, in order.
pub fn chars_of(s: &str) -> (r: Vec<char>)
    ensures
        r@ == s@,
{
    let mut out: Vec<char> = Vec::new();
    for c in it: s.chars()
        invariant
            it.seq() == s@,
            out@ == s@.take(it.index() as int),
    {
        out.push(c);
    }
    out
}

/// The text made of the characters of `chars` from `from` up to `to`.
pub fn slice_text(chars: &Vec<char>, from: usize, to: usize) -> (r: String)
    requires
        from <= to <= chars@.len(),
    ensures
        r@ == chars@.subrange(from as int, to as int),
{
    let mut out = String::new();
    let mut i: usize = from;
    while i < to
        invariant
            from <= i <= to <= chars@.len(),
            out@ == chars@.subrange(from as int, i as int),
        decreases to - i,
    {
        out.push(chars[i]);
        i += 1;
    }
    out
}

/// Whether `c` is white space.
pub fn is_white_space(c: char) -> (r: bool)
    ensures
        r == white_space(c),
{
    let u: u32 = c as u32;
    (0x09 <= u && u <= 0x0d) || u == 0x20 || u == 0x85 || u == 0xa0 || u == 0x1680 || (0x2000 <= u
        && u <= 0x200a) || u == 0x2028 || u == 0x2029 || u == 0x202f || u == 0x205f || u == 0x3000
}

/// Whether `c` is a letter or a digit.
pub fn is_letter_or_digit(c: char) -> (r: bool)
    ensures
        r == alphanumeric(c),
{
    c.is_alphanumeric()
}

/// `s` in lower case.
pub fn to_lower(s: &str) -> (r: String)
    ensures
        r@ == lower(s@),
{
    s.to_lowercase()
}

/// `s` without the white space at its two ends.
pub fn trim(s: &str) -> (r: String)
    ensures
        r@ == trimmed(s@),
{
    let chars = chars_of(s);
    let mut from: usize = 0;
    assert(chars@.skip(0) =~= chars@);
    while from < chars.len() && is_white_space(chars[from])
        invariant
            from <= chars@.len(),
            trimmed_start(chars@) == trimmed_start(chars@.skip(from as int)),
        decreases chars@.len() - from,
    {
        assert(chars@.skip(from as int).skip(1) =~= chars@.skip(from + 1));
        from += 1;
    }
    let mut to: usize = chars.len();
    assert(chars@.subrange(from as int, to as int) =~= chars@.skip(from as int));
    while from < to && is_white_space(chars[to - 1])
        invariant
            from <= to <= chars@.len(),
            trimmed(chars@) == trimmed_end(chars@.subrange(from as int, to as int)),
        decreases to,
    {
        assert(chars@.subrange(from as int, to as int).drop_last() =~= chars@.subrange(
            from as int,
            to - 1,
        ));
        to -= 1;
    }
    slice_text(&chars, from, to)
}

/// Whether `pat` stands in `chars` at position `at`.
pub fn matches_at(chars: &Vec<char>, pat: &Vec<char>, at: usize) -> (r: bool)
    requires
        at <= chars@.len(),
    ensures
        r == occurs_at(chars@, pat@, at as int),
{
    if pat.len() > chars.len() - at {
        return false;
    }
    let mut i: usize = 0;
    while i < pat.len()
        invariant
            i <= pat@.len(),
            at + pat@.len() <= chars.len(),
            forall|j: int| 0 <= j < i ==> chars@[at + j] == #[trigger] pat@[j],
        decreases pat@.len() - i,
    {
        if chars[at + i] != pat[i] {
            assert(chars@.subrange(at as int, at + pat@.len())[i as int] == chars@[at + i]);
            return false;
        }
        i += 1;
    }
    assert(chars@.subrange(at as int, at + pat@.len()) =~= pat@);
    true
}

/// The first position at or after `from` at which `pat` stands in `chars`.
pub fn find_from(chars: &Vec<char>, pat: &Vec<char>, from: usize) -> (r: Option<usize>)
    requires
        from <= chars@.len(),
    ensures
        match r {
            Some(k) => first_from(chars@, pat@, from as int) == Some(k as int),
            None => first_from(chars@, pat@, from as int) is None,
        },
{
    let mut i: usize = from;
    while i < chars.len()
        invariant
            from <= i <= chars@.len(),
            first_from(chars@, pat@, from as int) == first_from(chars@, pat@, i as int),
        decreases chars@.len() - i,
    {
        if matches_at(chars, pat, i) {
            return Some(i);
        }
        i += 1;
    }
    proof {
        lemma_first_from(chars@, pat@, i as int);
    }
    if matches_at(chars, pat, i) {
        Some(i)
    } else {
        None
    }
}

/// Whether `s` starts with `prefix`.
pub fn starts_with(s: &str, prefix: &str) -> (r: bool)
    ensures
        r == begins(s@, prefix@),
{
    let chars = chars_of(s);
    let pat = chars_of(prefix);
    matches_at(&chars, &pat, 0)
}

/// Whether `pat` stands somewhere in `s`.
pub fn has_text(s: &str, pat: &str) -> (r: bool)
    ensures
        r == contains(s@, pat@),
{
    let chars = chars_of(s);
    let pat = chars_of(pat);
    proof {
        lemma_first_from(chars@, pat@, 0);
    }
    find_from(&chars, &pat, 0).is_some()
}

/// The pieces of `s` between the separators `sep`.
pub fn split(s: &str, sep: char) -> (r: Vec<String>)
    ensures
        r.deep_view() == pieces(s@, sep),
{
    let chars = chars_of(s);
    let mut out: Vec<String> = Vec::new();
    let mut start: usize = 0;
    let mut i: usize = 0;
    assert(s@.skip(0) =~= s@);
    assert(out.deep_view() + pieces(s@.skip(0), sep) =~= pieces(s@, sep));
    while i < chars.len()
        invariant
            chars@ == s@,
            start <= i <= chars@.len(),
            forall|j: int| start <= j < i ==> #[trigger] chars@[j] != sep,
            out.deep_view() + pieces(s@.skip(start as int), sep) == pieces(s@, sep),
        decreases chars@.len() - i,
    {
        if chars[i] == sep {
            let ghost before = out.deep_view();
            let ghost rest = s@.skip(start as int);
            let piece = slice_text(&chars, start, i);
            proof {
                lemma_occurs_char(rest, sep, i - start);
                assert forall|j: int| 0 <= j < i - start implies !#[trigger] occurs_at(
                    rest,
                    seq![sep],
                    j,
                ) by {
                    lemma_occurs_char(rest, sep, j);
                    assert(rest[j] == chars@[start + j]);
                }
                lemma_first_is(rest, seq![sep], 0, i - start);
                assert(rest.take(i - start) =~= piece@);
                assert(rest.skip(i - start + 1) =~= s@.skip(i + 1));
            }
            out.push(piece);
            assert(out.deep_view() =~= before.push(piece@));
            assert(out.deep_view() + pieces(s@.skip(i + 1), sep) =~= before + (seq![piece@]
                + pieces(s@.skip(i + 1), sep)));
            start = i + 1;
        }
        i += 1;
    }
    let ghost before = out.deep_view();
    let ghost rest = s@.skip(start as int);
    let piece = slice_text(&chars, start, i);
    proof {
        lemma_first_from(rest, seq![sep], 0);
        assert forall|j: int| 0 <= j implies !#[trigger] occurs_at(rest, seq![sep], j) by {
            lemma_occurs_char(rest, sep, j);
            if j < rest.len() {
                assert(rest[j] == chars@[start + j]);
            }
        }
        assert(rest =~= piece@);
    }
    out.push(piece);
    assert(out.deep_view() =~= before + seq![piece@]);
    out
}

/// `s` with every occurrence of `from` turned into `to`.
pub fn replace_all(s: &str, from: &str, to: &str) -> (r: String)
    requires
        from@.len() > 0,
    ensures
        r@ == replaced(s@, from@, to@),
{
    let chars = chars_of(s);
    let pat = chars_of(from);
    let mut out = String::new();
    let mut i: usize = 0;
    assert(s@.skip(0) =~= s@);
    assert(out@ + replaced(s@.skip(0), from@, to@) =~= replaced(s@, from@, to@));
    while i < chars.len()
        invariant
            chars@ == s@,
            pat@ == from@,
            pat@.len() > 0,
            i <= chars@.len(),
            out@ + replaced(s@.skip(i as int), from@, to@) == replaced(s@, from@, to@),
        decreases chars@.len() - i,
    {
        let ghost before = out@;
        let ghost rest = s@.skip(i as int);
        proof {
            lemma_occurs_in_tail(s@, from@, i as int, 0);
        }
        if matches_at(&chars, &pat, i) {
            out.append(to);
            proof {
                let next = i + from@.len();
                assert(rest.skip(from@.len() as int) =~= s@.skip(next));
                assert(out@ + replaced(s@.skip(next), from@, to@) =~= before + (to@ + replaced(
                    s@.skip(next),
                    from@,
                    to@,
                )));
            }
            i += pat.len();
        } else {
            out.push(chars[i]);
            proof {
                assert(rest.skip(1) =~= s@.skip(i + 1));
                assert(out@ + replaced(s@.skip(i + 1), from@, to@) =~= before + (seq![rest[0]]
                    + replaced(s@.skip(i + 1), from@, to@)));
            }
            i += 1;
        }
    }
    assert(out@ + replaced(s@.skip(i as int), from@, to@) =~= out@);
    out
}

/// The texts of `parts`, in order, with `sep` between each two neighbours.
pub fn join(parts: &Vec<String>, sep: &str) -> (r: String)
    ensures
        r@ == joined(parts.deep_view(), sep@),
{
    let ghost all = parts.deep_view();
    let mut out = String::new();
    if parts.len() == 0 {
        return out;
    }
    let mut i: usize = 0;
    assert(all.skip(0) =~= all);
    assert(out@ + joined(all, sep@) =~= joined(all, sep@));
    while i + 1 < parts.len()
        invariant
            all == parts.deep_view(),
            i < parts.len(),
            out@ + joined(all.skip(i as int), sep@) == joined(all, sep@),
        decreases parts@.len() - i,
    {
        let ghost before = out@;
        out.append(parts[i].as_str());
        out.append(sep);
        proof {
            assert(all.skip(i as int).skip(1) =~= all.skip(i + 1));
            assert(out@ + joined(all.skip(i + 1), sep@) =~= before + (all[i as int] + sep@ + joined(
                all.skip(i + 1),
                sep@,
            )));
        }
        i += 1;
    }
    out.append(parts[i].as_str());
    out
}

} // verus!
