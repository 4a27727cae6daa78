//! What a page holds: its title, its body, its chapter links and its images.

use crate::dom::{document_selection, fragment_selection, parseable, NodeView, TagView};
use crate::dom::{select_in_document, select_in_fragment, Node, Tag};
use crate::text::{join, joined, law_trimmed_twice, trim, trimmed};
use crate::url::{absolute, law_absolute_is_valid, to_absolute, valid_url};
use vstd::prelude::*;
use vstd::utf8::encode_utf8;

verus! {

// ---------------------------------------------------------------------------
// Title and body
// ---------------------------------------------------------------------------

/// The first element of a selection, if it has one.
pub open spec fn first_node(selection: Option<Seq<NodeView>>) -> Option<NodeView> {
    match selection {
        Some(nodes) => if nodes.len() > 0 {
            Some(nodes[0])
        } else {
            None
        },
        None => None,
    }
}

/// The text of an element: its pieces, one behind the other.
pub open spec fn node_text(node: NodeView) -> Seq<char> {
    joined(node.texts, ""@)
}

/// The title of a page: the text of the first element of the first selection that gives
/// one, and a fixed title where none does.
pub open spec fn chosen_title(selections: Seq<Option<Seq<NodeView>>>) -> Seq<char>
    decreases selections.len(),
{
    if selections.len() == 0 {
        "未知标题"@
    } else {
        match first_node(selections[0]) {
            Some(node) => if trimmed(node_text(node)).len() > 0 {
                trimmed(node_text(node))
            } else {
                chosen_title(selections.skip(1))
            },
            None => chosen_title(selections.skip(1)),
        }
    }
}

/// The HTML is more than a stub: over fifty bytes without the white space at its ends.
pub open spec fn substantial(html: Seq<char>) -> bool {
    encode_utf8(trimmed(html)).len() > 50
}

/// The body of a page: what the first element of the first selection holds, if that is
/// substantial, else that of the next one, and so on; of the last selection, whatever it
/// holds, and nothing where it has no element.
pub open spec fn chosen_body(selections: Seq<Option<Seq<NodeView>>>) -> Seq<char>
    decreases selections.len(),
{
    if selections.len() == 0 {
        Seq::empty()
    } else {
        match first_node(selections[0]) {
            Some(node) => if selections.len() == 1 || substantial(node.inner_html) {
                node.inner_html
            } else {
                chosen_body(selections.skip(1))
            },
            None => chosen_body(selections.skip(1)),
        }
    }
}

/// Where a title is looked for.
pub open spec fn title_selectors() -> Seq<Seq<char>> {
    seq!["h1"@, "title"@]
}

/// Where the body is looked for; the last place is the one to fall back on.
pub open spec fn body_selectors() -> Seq<Seq<char>> {
    seq!["#b_con"@, ".article-content"@, ".content-detail"@, "article"@, "body"@]
}

/// The elements that each of `selectors` picks in a document.
pub open spec fn picked(
    html: Seq<char>,
    selectors: Seq<Seq<char>>,
    attr: Option<Seq<char>>,
) -> Seq<Option<Seq<NodeView>>> {
    selectors.map_values(|s: Seq<char>| document_selection(html, s, attr))
}

/// The title of a page.
pub open spec fn page_title(raw: Seq<char>) -> Seq<char> {
    chosen_title(picked(raw, title_selectors(), None))
}

/// The body of a page.
pub open spec fn page_body(raw: Seq<char>) -> Seq<char> {
    chosen_body(picked(raw, body_selectors(), None))
}

/// The title that the selections give.
pub fn choose_title(selections: &Vec<Option<Vec<Node>>>) -> (r: String)
    ensures
        r@ == chosen_title(selections.deep_view()),
{
    let ghost all = selections.deep_view();
    let mut i: usize = 0;
    assert(all.skip(0) =~= all);
    while i < selections.len()
        invariant
            all == selections.deep_view(),
            i <= selections@.len(),
            chosen_title(all.skip(i as int)) == chosen_title(all),
        decreases selections@.len() - i,
    {
        proof {
            assert(all.skip(i as int).skip(1) =~= all.skip(i + 1));
            assert(all[i as int] == selections[i as int].deep_view());
        }
        if let Some(nodes) = &selections[i] {
            if nodes.len() > 0 {
                assert(nodes.deep_view()[0] == nodes[0].deep_view());
                let title = trim(join(&nodes[0].texts, "").as_str());
                if !title.as_str().is_empty() {
                    return title;
                }
            }
        }
        i += 1;
    }
    "未知标题".to_owned()
}

/// The body that the selections give.
pub fn choose_body(selections: &Vec<Option<Vec<Node>>>) -> (r: String)
    ensures
        r@ == chosen_body(selections.deep_view()),
{
    let ghost all = selections.deep_view();
    let mut i: usize = 0;
    assert(all.skip(0) =~= all);
    while i < selections.len()
        invariant
            all == selections.deep_view(),
            i <= selections@.len(),
            chosen_body(all.skip(i as int)) == chosen_body(all),
        decreases selections@.len() - i,
    {
        proof {
            assert(all.skip(i as int).skip(1) =~= all.skip(i + 1));
            assert(all[i as int] == selections[i as int].deep_view());
        }
        if let Some(nodes) = &selections[i] {
            if nodes.len() > 0 {
                assert(nodes.deep_view()[0] == nodes[0].deep_view());
                let content = trim(nodes[0].inner_html.as_str());
                if i == selections.len() - 1 || content.as_str().as_bytes().len() > 50 {
                    return nodes[0].inner_html.clone();
                }
            }
        }
        i += 1;
    }
    String::new()
}

/// The title and the body of a page.
pub fn parse_html(raw: &str) -> (r: (String, String))
    requires
        parseable(raw@),
    ensures
        r.0@ == page_title(raw@),
        r.1@ == page_body(raw@),
{
    let titles = vec!["h1", "title"];
    assert(titles.deep_view() =~= title_selectors());
    let bodies = vec!["#b_con", ".article-content", ".content-detail", "article", "body"];
    assert(bodies.deep_view() =~= body_selectors());
    let title = choose_title(&select_in_document(raw, &titles, None));
    let body = choose_body(&select_in_document(raw, &bodies, None));
    (title, body)
}

// ---------------------------------------------------------------------------
// Chapter links
// ---------------------------------------------------------------------------

/// A link: its title and its address.
pub type Link = (Seq<char>, Seq<char>);

/// One of `links` has the address `url`.
pub open spec fn has_url(links: Seq<Link>, url: Seq<char>) -> bool {
    exists|i: int| 0 <= i < links.len() && (#[trigger] links[i]).1 == url
}

/// `links` with those of the elements `nodes` added whose address is new. An element
/// without an address gives no link.
pub open spec fn gathered(links: Seq<Link>, nodes: Seq<NodeView>, base: Seq<char>) -> Seq<Link>
    decreases nodes.len(),
{
    if nodes.len() == 0 {
        links
    } else {
        let next = match nodes[0].value {
            Some(href) => if has_url(links, absolute(href, base)) {
                links
            } else {
                links.push((trimmed(node_text(nodes[0])), absolute(href, base)))
            },
            None => links,
        };
        gathered(next, nodes.skip(1), base)
    }
}

/// The links of the first selection that gives any.
pub open spec fn chosen_links(
    selections: Seq<Option<Seq<NodeView>>>,
    base: Seq<char>,
) -> Seq<Link>
    decreases selections.len(),
{
    if selections.len() == 0 {
        Seq::empty()
    } else {
        let links = match selections[0] {
            Some(nodes) => gathered(Seq::empty(), nodes, base),
            None => Seq::empty(),
        };
        if links.len() > 0 {
            links
        } else {
            chosen_links(selections.skip(1), base)
        }
    }
}

/// Where the chapters of a text are looked for.
pub open spec fn chapter_selectors() -> Seq<Seq<char>> {
    seq![".rul ul.show li a"@, ".sidebar ul li a"@, ".catalog ul li a"@, ".nav-list li a"@]
}

/// The chapter links of a page.
pub open spec fn chapter_links(html: Seq<char>, base: Seq<char>) -> Seq<Link> {
    chosen_links(picked(html, chapter_selectors(), Some("href"@)), base)
}

fn lists_url(links: &Vec<(String, String)>, url: &String) -> (r: bool)
    ensures
        r == has_url(links.deep_view(), url@),
{
    let ghost all = links.deep_view();
    let mut i: usize = 0;
    while i < links.len()
        invariant
            all == links.deep_view(),
            i <= links@.len(),
            forall|j: int| 0 <= j < i ==> (#[trigger] all[j]).1 != url@,
        decreases links@.len() - i,
    {
        assert(all[i as int] == links[i as int].deep_view());
        if links[i].1 == *url {
            return true;
        }
        i += 1;
    }
    false
}

/// The links that the elements `nodes` give, each address once.
pub fn gather_links(nodes: &Vec<Node>, base: &str) -> (r: Vec<(String, String)>)
    ensures
        r.deep_view() == gathered(Seq::empty(), nodes.deep_view(), base@),
{
    let ghost all = nodes.deep_view();
    let mut links: Vec<(String, String)> = Vec::new();
    let mut i: usize = 0;
    assert(all.skip(0) =~= all);
    assert(links.deep_view() =~= Seq::empty());
    while i < nodes.len()
        invariant
            all == nodes.deep_view(),
            i <= nodes@.len(),
            gathered(links.deep_view(), all.skip(i as int), base@) == gathered(
                Seq::empty(),
                all,
                base@,
            ),
        decreases nodes@.len() - i,
    {
        let ghost before = links.deep_view();
        proof {
            assert(all.skip(i as int).skip(1) =~= all.skip(i + 1));
            assert(all[i as int] == nodes[i as int].deep_view());
        }
        if let Some(href) = &nodes[i].value {
            let title = trim(join(&nodes[i].texts, "").as_str());
            let url = to_absolute(href.as_str(), base);
            if !lists_url(&links, &url) {
                links.push((title, url));
                assert(links.deep_view() =~= before.push((title@, url@)));
            }
        }
        i += 1;
    }
    links
}

/// The links of the first selection that gives any.
pub fn choose_links(selections: &Vec<Option<Vec<Node>>>, base: &str) -> (r: Vec<(String, String)>)
    ensures
        r.deep_view() == chosen_links(selections.deep_view(), base@),
{
    let ghost all = selections.deep_view();
    let mut i: usize = 0;
    assert(all.skip(0) =~= all);
    while i < selections.len()
        invariant
            all == selections.deep_view(),
            i <= selections@.len(),
            chosen_links(all.skip(i as int), base@) == chosen_links(all, base@),
        decreases selections@.len() - i,
    {
        proof {
            assert(all.skip(i as int).skip(1) =~= all.skip(i + 1));
            assert(all[i as int] == selections[i as int].deep_view());
        }
        if let Some(nodes) = &selections[i] {
            let links = gather_links(nodes, base);
            assert(links.deep_view().len() == links@.len());
            if links.len() > 0 {
                return links;
            }
        }
        i += 1;
    }
    let none: Vec<(String, String)> = Vec::new();
    assert(none.deep_view() =~= Seq::empty());
    none
}

/// The chapter links in the sidebar of a page of the site `base_url`, each with its title.
pub fn extract_chapter_links(html: &str, base_url: &str) -> (r: Vec<(String, String)>)
    requires
        parseable(html@),
    ensures
        r.deep_view() == chapter_links(html@, base_url@),
{
    let selectors = vec![
        ".rul ul.show li a",
        ".sidebar ul li a",
        ".catalog ul li a",
        ".nav-list li a",
    ];
    assert(selectors.deep_view() =~= chapter_selectors());
    choose_links(&select_in_document(html, &selectors, Some("href")), base_url)
}

// ---------------------------------------------------------------------------
// Images
// ---------------------------------------------------------------------------

/// `srcs` with those values of `tags` added that are new.
pub open spec fn with_values(srcs: Seq<Seq<char>>, tags: Seq<TagView>) -> Seq<Seq<char>>
    decreases tags.len(),
{
    if tags.len() == 0 {
        srcs
    } else {
        let next = match tags[0].value {
            Some(v) => if srcs.contains(v) {
                srcs
            } else {
                srcs.push(v)
            },
            None => srcs,
        };
        with_values(next, tags.skip(1))
    }
}

/// The values of a selection, each once; none where there is no selection.
pub open spec fn distinct_values(selection: Option<Seq<TagView>>) -> Seq<Seq<char>> {
    match selection {
        Some(tags) => with_values(Seq::empty(), tags),
        None => Seq::empty(),
    }
}

/// The image sources of an HTML fragment, each once.
pub open spec fn image_sources(html: Seq<char>) -> Seq<Seq<char>> {
    distinct_values(fragment_selection(html, "img"@, Some("src"@)))
}

fn lists_text(texts: &Vec<String>, text: &String) -> (r: bool)
    ensures
        r == texts.deep_view().contains(text@),
{
    let ghost all = texts.deep_view();
    let mut i: usize = 0;
    while i < texts.len()
        invariant
            all == texts.deep_view(),
            i <= texts@.len(),
            forall|j: int| 0 <= j < i ==> #[trigger] all[j] != text@,
        decreases texts@.len() - i,
    {
        assert(all[i as int] == texts[i as int]@);
        if texts[i] == *text {
            return true;
        }
        i += 1;
    }
    false
}

/// The values of a selection, each once.
pub fn collect_values(selection: &Option<Vec<Tag>>) -> (r: Vec<String>)
    ensures
        r.deep_view() == distinct_values(selection.deep_view()),
{
    let mut srcs: Vec<String> = Vec::new();
    assert(srcs.deep_view() =~= Seq::empty());
    if let Some(tags) = selection {
        let ghost all = tags.deep_view();
        let mut i: usize = 0;
        assert(all.skip(0) =~= all);
        while i < tags.len()
            invariant
                all == tags.deep_view(),
                i <= tags@.len(),
                with_values(srcs.deep_view(), all.skip(i as int)) == with_values(Seq::empty(), all),
            decreases tags@.len() - i,
        {
            let ghost before = srcs.deep_view();
            proof {
                assert(all.skip(i as int).skip(1) =~= all.skip(i + 1));
                assert(all[i as int] == tags[i as int].deep_view());
            }
            if let Some(value) = &tags[i].value {
                if !lists_text(&srcs, value) {
                    srcs.push(value.clone());
                    assert(srcs.deep_view() =~= before.push(value@));
                }
            }
            i += 1;
        }
    }
    srcs
}

/// The image sources of an HTML fragment, each once.
pub fn extract_img_srcs(html: &str) -> (r: Vec<String>)
    requires
        parseable(html@),
    ensures
        r.deep_view() == image_sources(html@),
{
    let selectors = vec!["img"];
    let selections = select_in_fragment(html, &selectors, Some("src"));
    proof {
        assert(selectors.deep_view()[0] == "img"@);
        assert(selections.deep_view().len() == 1);
        assert(selections.deep_view()[0] == selections[0].deep_view());
    }
    collect_values(&selections[0])
}

// ---------------------------------------------------------------------------
// Laws
// ---------------------------------------------------------------------------

/// No two of `links` have the same address.
pub open spec fn distinct_urls(links: Seq<Link>) -> bool {
    forall|i: int, j: int|
        0 <= i < j < links.len() ==> (#[trigger] links[i]).1 != (#[trigger] links[j]).1
}

proof fn lemma_gathered(links: Seq<Link>, nodes: Seq<NodeView>, base: Seq<char>)
    requires
        distinct_urls(links),
    ensures
        distinct_urls(gathered(links, nodes, base)),
        valid_url(base) && (forall|i: int| 0 <= i < links.len() ==> valid_url((#[trigger] links[i]).1))
            ==> (forall|i: int|
            0 <= i < gathered(links, nodes, base).len() ==> valid_url(
                (#[trigger] gathered(links, nodes, base)[i]).1,
            )),
    decreases nodes.len(),
{
    if nodes.len() > 0 {
        match nodes[0].value {
            Some(href) => {
                let url = absolute(href, base);
                if valid_url(base) {
                    law_absolute_is_valid(href, base);
                }
                if has_url(links, url) {
                    lemma_gathered(links, nodes.skip(1), base);
                } else {
                    let next = links.push((trimmed(node_text(nodes[0])), url));
                    assert forall|i: int, j: int| 0 <= i < j < next.len() implies (
                    #[trigger] next[i]).1 != (#[trigger] next[j]).1 by {
                        assert(links[i] == next[i]);
                        if j < links.len() {
                            assert(links[j] == next[j]);
                        }
                    }
                    lemma_gathered(next, nodes.skip(1), base);
                }
            },
            None => {
                lemma_gathered(links, nodes.skip(1), base);
            },
        }
    }
}

/// The chapter links that are chosen have distinct addresses, and, on an accepted site,
/// all of them can be fetched.
pub proof fn law_chosen_links(selections: Seq<Option<Seq<NodeView>>>, base: Seq<char>)
    ensures
        distinct_urls(chosen_links(selections, base)),
        valid_url(base) ==> forall|i: int|
            0 <= i < chosen_links(selections, base).len() ==> valid_url(
                (#[trigger] chosen_links(selections, base)[i]).1,
            ),
    decreases selections.len(),
{
    if selections.len() > 0 {
        if let Some(nodes) = selections[0] {
            lemma_gathered(Seq::empty(), nodes, base);
        }
        law_chosen_links(selections.skip(1), base);
    }
}

/// The chapter links of a page have distinct addresses, and, on an accepted site, all of
/// them can be fetched.
pub proof fn law_chapter_links(html: Seq<char>, base: Seq<char>)
    ensures
        distinct_urls(chapter_links(html, base)),
        valid_url(base) ==> forall|i: int|
            0 <= i < chapter_links(html, base).len() ==> valid_url(
                (#[trigger] chapter_links(html, base)[i]).1,
            ),
{
    law_chosen_links(picked(html, chapter_selectors(), Some("href"@)), base);
}

/// The title of a page is never empty, and has no white space at its ends.
pub proof fn law_title(selections: Seq<Option<Seq<NodeView>>>)
    ensures
        chosen_title(selections).len() > 0,
        trimmed(chosen_title(selections)) == chosen_title(selections),
    decreases selections.len(),
{
    if selections.len() == 0 {
        reveal_strlit("未知标题");
    } else {
        if let Some(node) = first_node(selections[0]) {
            law_trimmed_twice(node_text(node));
        }
        law_title(selections.skip(1));
    }
}

proof fn lemma_with_values(srcs: Seq<Seq<char>>, tags: Seq<TagView>)
    requires
        srcs.no_duplicates(),
    ensures
        with_values(srcs, tags).no_duplicates(),
        forall|v: Seq<char>|
            #[trigger] with_values(srcs, tags).contains(v) <==> srcs.contains(v) || exists|i: int|
                0 <= i < tags.len() && (#[trigger] tags[i]).value == Some(v),
    decreases tags.len(),
{
    if tags.len() > 0 {
        let rest = tags.skip(1);
        let next = match tags[0].value {
            Some(v) => if srcs.contains(v) {
                srcs
            } else {
                srcs.push(v)
            },
            None => srcs,
        };
        lemma_with_values(next, rest);
        assert forall|v: Seq<char>| #[trigger] with_values(srcs, tags).contains(v) <==> srcs.contains(v)
            || exists|i: int| 0 <= i < tags.len() && (#[trigger] tags[i]).value == Some(v) by {
            if exists|i: int| 0 <= i < rest.len() && (#[trigger] rest[i]).value == Some(v) {
                let i = choose|i: int| 0 <= i < rest.len() && (#[trigger] rest[i]).value == Some(v);
                assert(tags[i + 1].value == Some(v));
            }
            if exists|i: int| 0 <= i < tags.len() && (#[trigger] tags[i]).value == Some(v) {
                let i = choose|i: int| 0 <= i < tags.len() && (#[trigger] tags[i]).value == Some(v);
                if i > 0 {
                    assert(rest[i - 1].value == Some(v));
                } else if !srcs.contains(v) {
                    assert(next[srcs.len() as int] == v);
                }
            }
            if srcs.contains(v) {
                let i = choose|i: int| 0 <= i < srcs.len() && srcs[i] == v;
                assert(next[i] == v);
            }
            if next.contains(v) && !srcs.contains(v) {
                let i = choose|i: int| 0 <= i < next.len() && next[i] == v;
                assert(i == srcs.len());
                assert(tags[0].value == Some(v));
            }
        }
    }
}

/// The values of a selection are listed each once, and all of them, and no others.
pub proof fn law_distinct_values(tags: Seq<TagView>)
    ensures
        distinct_values(Some(tags)).no_duplicates(),
        forall|v: Seq<char>|
            #[trigger] distinct_values(Some(tags)).contains(v) <==> exists|i: int|
                0 <= i < tags.len() && (#[trigger] tags[i]).value == Some(v),
{
    lemma_with_values(Seq::empty(), tags);
}

/// The title of a page is what the first element of a selection says, without the white space
/// at its ends, where that is anything, and where no selection before it gives a title.
pub proof fn law_title_taken(selections: Seq<Option<Seq<NodeView>>>, k: int)
    requires
        0 <= k < selections.len(),
        selections[k] is Some,
        selections[k]->0.len() > 0,
        trimmed(joined(selections[k]->0[0].texts, ""@)).len() > 0,
        forall|j: int|
            0 <= j < k && (#[trigger] selections[j]) is Some && selections[j]->0.len() > 0
                ==> trimmed(joined(selections[j]->0[0].texts, ""@)).len() == 0,
    ensures
        chosen_title(selections) == trimmed(joined(selections[k]->0[0].texts, ""@)),
    decreases k,
{
    if k > 0 {
        let rest = selections.skip(1);
        assert(rest[k - 1] == selections[k]);
        assert(selections[0] is Some && selections[0]->0.len() > 0 ==> trimmed(
            joined(selections[0]->0[0].texts, ""@),
        ).len() == 0);
        assert forall|j: int|
            0 <= j < k - 1 && (#[trigger] rest[j]) is Some && rest[j]->0.len() > 0 implies trimmed(
            joined(rest[j]->0[0].texts, ""@),
        ).len() == 0 by {
            assert(rest[j] == selections[j + 1]);
        }
        law_title_taken(rest, k - 1);
    }
}

/// A page of which no selection gives a title has the fixed one.
pub proof fn law_title_missing(selections: Seq<Option<Seq<NodeView>>>)
    requires
        forall|j: int|
            0 <= j < selections.len() && (#[trigger] selections[j]) is Some
                && selections[j]->0.len() > 0 ==> trimmed(
                joined(selections[j]->0[0].texts, ""@),
            ).len() == 0,
    ensures
        chosen_title(selections) == "未知标题"@,
    decreases selections.len(),
{
    if selections.len() > 0 {
        let rest = selections.skip(1);
        assert(selections[0] is Some && selections[0]->0.len() > 0 ==> trimmed(
            joined(selections[0]->0[0].texts, ""@),
        ).len() == 0);
        assert forall|j: int|
            0 <= j < rest.len() && (#[trigger] rest[j]) is Some
                && rest[j]->0.len() > 0 implies trimmed(joined(rest[j]->0[0].texts, ""@)).len()
            == 0 by {
            assert(rest[j] == selections[j + 1]);
        }
        law_title_missing(rest);
    }
}

/// A page is titled by its first `h1`, or, where that says nothing, by its first `title`; and a
/// page where neither says anything has the fixed title.
pub proof fn law_page_titled(raw: Seq<char>, places: Seq<Seq<char>>, k: int)
    requires
        places == seq!["h1"@, "title"@],
        0 <= k <= places.len(),
        k < places.len() ==> (document_selection(raw, places[k], None) matches Some(nodes)
            && nodes.len() > 0 && trimmed(joined(nodes[0].texts, ""@)).len() > 0),
        forall|j: int|
            0 <= j < k ==> (document_selection(raw, #[trigger] places[j], None) matches Some(nodes)
                ==> nodes.len() > 0 ==> trimmed(joined(nodes[0].texts, ""@)).len() == 0),
    ensures
        k < places.len() ==> page_title(raw) == trimmed(
            joined((document_selection(raw, places[k], None)->0)[0].texts, ""@),
        ),
        k == places.len() ==> page_title(raw) == "未知标题"@,
{
    let selections = picked(raw, title_selectors(), None);
    assert(selections.len() == places.len());
    assert forall|j: int| 0 <= j < places.len() implies #[trigger] selections[j]
        == document_selection(raw, places[j], None) by {
        assert(places[j] == title_selectors()[j]);
    }
    if k < places.len() {
        law_title_taken(selections, k);
    } else {
        law_title_missing(selections);
    }
}

/// The body of a page is what the first element of a selection holds, where that is over fifty
/// bytes long without the white space at its ends, or the selection is the last one, and where
/// no selection before it gives a body.
pub proof fn law_body_taken(selections: Seq<Option<Seq<NodeView>>>, k: int)
    requires
        0 <= k < selections.len(),
        selections[k] is Some,
        selections[k]->0.len() > 0,
        k == selections.len() - 1 || encode_utf8(trimmed(selections[k]->0[0].inner_html)).len()
            > 50,
        forall|j: int|
            0 <= j < k && (#[trigger] selections[j]) is Some && selections[j]->0.len() > 0
                ==> encode_utf8(trimmed(selections[j]->0[0].inner_html)).len() <= 50,
    ensures
        chosen_body(selections) == selections[k]->0[0].inner_html,
    decreases k,
{
    if k > 0 {
        let rest = selections.skip(1);
        assert(rest[k - 1] == selections[k]);
        assert(selections[0] is Some && selections[0]->0.len() > 0 ==> encode_utf8(
            trimmed(selections[0]->0[0].inner_html),
        ).len() <= 50);
        assert forall|j: int|
            0 <= j < k - 1 && (#[trigger] rest[j]) is Some
                && rest[j]->0.len() > 0 implies encode_utf8(trimmed(rest[j]->0[0].inner_html)).len()
            <= 50 by {
            assert(rest[j] == selections[j + 1]);
        }
        law_body_taken(rest, k - 1);
    }
}

/// A page of which no selection gives a body has an empty one.
pub proof fn law_body_missing(selections: Seq<Option<Seq<NodeView>>>)
    requires
        selections.len() > 0 && selections.last() is Some ==> selections.last()->0.len() == 0,
        forall|j: int|
            0 <= j < selections.len() && (#[trigger] selections[j]) is Some
                && selections[j]->0.len() > 0 ==> encode_utf8(
                trimmed(selections[j]->0[0].inner_html),
            ).len() <= 50,
    ensures
        chosen_body(selections) == Seq::<char>::empty(),
    decreases selections.len(),
{
    if selections.len() > 0 {
        let rest = selections.skip(1);
        assert(selections[0] is Some && selections[0]->0.len() > 0 ==> encode_utf8(
            trimmed(selections[0]->0[0].inner_html),
        ).len() <= 50);
        assert forall|j: int|
            0 <= j < rest.len() && (#[trigger] rest[j]) is Some
                && rest[j]->0.len() > 0 implies encode_utf8(trimmed(rest[j]->0[0].inner_html)).len()
            <= 50 by {
            assert(rest[j] == selections[j + 1]);
        }
        if rest.len() > 0 {
            assert(rest.last() == selections.last());
        }
        law_body_missing(rest);
    }
}

/// The body of a page is what the first element holds that stands at the first of the known
/// places where that is over fifty bytes long; else all of the page's `body`; else nothing.
pub proof fn law_page_body(raw: Seq<char>, places: Seq<Seq<char>>, k: int)
    requires
        places == seq!["#b_con"@, ".article-content"@, ".content-detail"@, "article"@, "body"@],
        0 <= k <= 5,
        k < 5 ==> (document_selection(raw, places[k], None) matches Some(nodes) && nodes.len() > 0),
        k < 4 ==> encode_utf8(
            trimmed((document_selection(raw, places[k], None)->0)[0].inner_html),
        ).len() > 50,
        forall|j: int|
            0 <= j < k && j < 4 ==> (document_selection(raw, #[trigger] places[j], None) matches Some(
                nodes,
            ) ==> nodes.len() > 0 ==> encode_utf8(trimmed(nodes[0].inner_html)).len() <= 50),
        k == 5 ==> (document_selection(raw, places[4], None) matches Some(nodes) ==> nodes.len()
            == 0),
    ensures
        k < 5 ==> page_body(raw) == (document_selection(raw, places[k], None)->0)[0].inner_html,
        k == 5 ==> page_body(raw) == Seq::<char>::empty(),
{
    let selections = picked(raw, body_selectors(), None);
    assert(selections.len() == places.len());
    assert forall|j: int| 0 <= j < places.len() implies #[trigger] selections[j]
        == document_selection(raw, places[j], None) by {
        assert(places[j] == body_selectors()[j]);
    }
    assert(selections[4] == document_selection(raw, places[4], None));
    if k < 5 {
        law_body_taken(selections, k);
    } else {
        law_body_missing(selections);
    }
}

/// The element at `i` has an address, and no element before it has that same address.
pub open spec fn leads_on(nodes: Seq<NodeView>, base: Seq<char>, i: int) -> bool {
    &&& nodes[i].value is Some
    &&& forall|j: int|
        0 <= j < i && (#[trigger] nodes[j]).value is Some ==> absolute(nodes[j].value->0, base)
            != absolute(nodes[i].value->0, base)
}

/// `links` are those of the first `n` elements, taken at the places `from`: in the order of the
/// elements, one for each address, by the first element that has it.
pub open spec fn lists(
    links: Seq<Link>,
    nodes: Seq<NodeView>,
    n: int,
    base: Seq<char>,
    from: Seq<int>,
) -> bool {
    &&& from.len() == links.len()
    &&& forall|a: int, b: int|
        0 <= a < b < from.len() ==> (#[trigger] from[a]) < (#[trigger] from[b])
    &&& forall|a: int|
        0 <= a < from.len() ==> 0 <= (#[trigger] from[a]) < n && leads_on(nodes, base, from[a])
            && links[a] == (
            trimmed(joined(nodes[from[a]].texts, ""@)),
            absolute(nodes[from[a]].value->0, base),
        )
    &&& forall|i: int| 0 <= i < n && #[trigger] leads_on(nodes, base, i) ==> from.contains(i)
}

/// Whatever address an element has, there is a first element that has it.
proof fn lemma_leads_on(nodes: Seq<NodeView>, base: Seq<char>, i: int) -> (j: int)
    requires
        0 <= i < nodes.len(),
        nodes[i].value is Some,
    ensures
        0 <= j <= i,
        leads_on(nodes, base, j),
        absolute(nodes[j].value->0, base) == absolute(nodes[i].value->0, base),
    decreases i,
{
    if leads_on(nodes, base, i) {
        i
    } else {
        let m = choose|m: int|
            0 <= m < i && (#[trigger] nodes[m]).value is Some && absolute(nodes[m].value->0, base)
                == absolute(nodes[i].value->0, base);
        lemma_leads_on(nodes, base, m)
    }
}

proof fn lemma_gathered_lists(
    links: Seq<Link>,
    nodes: Seq<NodeView>,
    n: int,
    base: Seq<char>,
    from: Seq<int>,
) -> (r: Seq<int>)
    requires
        0 <= n <= nodes.len(),
        lists(links, nodes, n, base, from),
    ensures
        lists(gathered(links, nodes.skip(n), base), nodes, nodes.len() as int, base, r),
    decreases nodes.len() - n,
{
    if n == nodes.len() {
        from
    } else {
        let rest = nodes.skip(n);
        assert(rest[0] == nodes[n]);
        assert(rest.skip(1) =~= nodes.skip(n + 1));
        if nodes[n].value is None {
            assert(lists(links, nodes, n + 1, base, from));
            lemma_gathered_lists(links, nodes, n + 1, base, from)
        } else {
            let url = absolute(nodes[n].value->0, base);
            if has_url(links, url) {
                let a = choose|a: int| 0 <= a < links.len() && (#[trigger] links[a]).1 == url;
                assert(0 <= from[a] < n);
                assert(nodes[from[a]].value is Some);
                assert(!leads_on(nodes, base, n));
                assert(lists(links, nodes, n + 1, base, from));
                lemma_gathered_lists(links, nodes, n + 1, base, from)
            } else {
                let j = lemma_leads_on(nodes, base, n);
                if j < n {
                    assert(from.contains(j));
                    let a = choose|a: int| 0 <= a < from.len() && from[a] == j;
                    assert(links[a].1 == url);
                }
                let link = (trimmed(node_text(nodes[n])), url);
                let more = links.push(link);
                let longer = from.push(n);
                assert forall|a: int| 0 <= a < longer.len() implies 0 <= (#[trigger] longer[a]) < n
                    + 1 && leads_on(nodes, base, longer[a]) && more[a] == (
                    trimmed(joined(nodes[longer[a]].texts, ""@)),
                    absolute(nodes[longer[a]].value->0, base),
                ) by {
                    if a < from.len() {
                        assert(longer[a] == from[a]);
                    }
                }
                assert forall|a: int, b: int| 0 <= a < b < longer.len() implies (
                #[trigger] longer[a]) < (#[trigger] longer[b]) by {
                    assert(longer[a] == from[a]);
                    if b < from.len() {
                        assert(longer[b] == from[b]);
                    }
                }
                assert forall|i: int| 0 <= i < n + 1 && #[trigger] leads_on(
                    nodes,
                    base,
                    i,
                ) implies longer.contains(i) by {
                    if i < n {
                        assert(from.contains(i));
                        let a = choose|a: int| 0 <= a < from.len() && from[a] == i;
                        assert(longer[a] == i);
                    } else {
                        assert(longer[from.len() as int] == i);
                    }
                }
                lemma_gathered_lists(more, nodes, n + 1, base, longer)
            }
        }
    }
}

/// Elements without addresses give no link.
proof fn lemma_gathered_none(links: Seq<Link>, nodes: Seq<NodeView>, base: Seq<char>)
    requires
        forall|i: int| 0 <= i < nodes.len() ==> (#[trigger] nodes[i]).value is None,
    ensures
        gathered(links, nodes, base) == links,
    decreases nodes.len(),
{
    if nodes.len() > 0 {
        assert(nodes[0].value is None);
        let rest = nodes.skip(1);
        assert forall|i: int| 0 <= i < rest.len() implies (#[trigger] rest[i]).value is None by {
            assert(rest[i] == nodes[i + 1]);
        }
        lemma_gathered_none(links, rest, base);
    }
}

proof fn lemma_chosen_links(
    selections: Seq<Option<Seq<NodeView>>>,
    base: Seq<char>,
    k: int,
    nodes: Seq<NodeView>,
)
    requires
        0 <= k < selections.len(),
        selections[k] == Some(nodes),
        gathered(Seq::empty(), nodes, base).len() > 0,
        forall|j: int, i: int|
            0 <= j < k && (#[trigger] selections[j]) is Some && 0 <= i < selections[j]->0.len()
                ==> (#[trigger] selections[j]->0[i]).value is None,
    ensures
        chosen_links(selections, base) == gathered(Seq::empty(), nodes, base),
    decreases k,
{
    if k > 0 {
        let rest = selections.skip(1);
        if let Some(first) = selections[0] {
            assert forall|i: int| 0 <= i < first.len() implies (#[trigger] first[i]).value is None by {
                assert(selections[0]->0[i].value is None);
            }
            lemma_gathered_none(Seq::empty(), first, base);
        }
        assert(rest[k - 1] == selections[k]);
        assert forall|j: int, i: int|
            0 <= j < k - 1 && (#[trigger] rest[j]) is Some && 0 <= i < rest[j]->0.len() implies (
        #[trigger] rest[j]->0[i]).value is None by {
            assert(rest[j] == selections[j + 1]);
            assert(selections[j + 1]->0[i].value is None);
        }
        lemma_chosen_links(rest, base, k - 1, nodes);
    }
}

/// The links of elements are listed in the order of the elements: one for each address, by the
/// first element that has it.
pub proof fn law_links_gathered(nodes: Seq<NodeView>, base: Seq<char>) -> (from: Seq<int>)
    ensures
        lists(gathered(Seq::empty(), nodes, base), nodes, nodes.len() as int, base, from),
{
    let none = Seq::<Link>::empty();
    assert(nodes.skip(0) =~= nodes);
    assert(lists(none, nodes, 0, base, Seq::<int>::empty()));
    lemma_gathered_lists(none, nodes, 0, base, Seq::<int>::empty())
}

/// The links that are chosen are those of the first selection that has an element with an address,
/// all of them.
pub proof fn law_links_taken(
    selections: Seq<Option<Seq<NodeView>>>,
    base: Seq<char>,
    k: int,
    nodes: Seq<NodeView>,
) -> (from: Seq<int>)
    requires
        0 <= k < selections.len(),
        selections[k] == Some(nodes),
        exists|i: int| 0 <= i < nodes.len() && (#[trigger] nodes[i]).value is Some,
        forall|j: int, i: int|
            0 <= j < k && (#[trigger] selections[j]) is Some && 0 <= i < selections[j]->0.len()
                ==> (#[trigger] selections[j]->0[i]).value is None,
    ensures
        lists(chosen_links(selections, base), nodes, nodes.len() as int, base, from),
        from.len() > 0,
{
    let from = law_links_gathered(nodes, base);
    let i = choose|i: int| 0 <= i < nodes.len() && (#[trigger] nodes[i]).value is Some;
    let j = lemma_leads_on(nodes, base, i);
    assert(from.contains(j));
    lemma_chosen_links(selections, base, k, nodes);
    from
}

/// The chapter links of a page are the links at the first of the known places in its sidebar
/// that has any: all of them, in their order, each address once, and each with its title.
pub proof fn law_chapters_listed(
    html: Seq<char>,
    base: Seq<char>,
    places: Seq<Seq<char>>,
    k: int,
    nodes: Seq<NodeView>,
) -> (from: Seq<int>)
    requires
        places == seq![
            ".rul ul.show li a"@,
            ".sidebar ul li a"@,
            ".catalog ul li a"@,
            ".nav-list li a"@,
        ],
        0 <= k < places.len(),
        document_selection(html, places[k], Some("href"@)) == Some(nodes),
        exists|i: int| 0 <= i < nodes.len() && (#[trigger] nodes[i]).value is Some,
        forall|j: int, i: int|
            0 <= j < k && document_selection(html, #[trigger] places[j], Some("href"@)) is Some && 0
                <= i < document_selection(html, places[j], Some("href"@))->0.len() ==> (
            #[trigger] document_selection(html, places[j], Some("href"@))->0[i]).value is None,
    ensures
        chapter_links(html, base).len() > 0,
        lists(chapter_links(html, base), nodes, nodes.len() as int, base, from),
        forall|i: int|
            0 <= i < nodes.len() && (#[trigger] nodes[i]).value is Some ==> has_url(
                chapter_links(html, base),
                absolute(nodes[i].value->0, base),
            ),
{
    let selections = picked(html, chapter_selectors(), Some("href"@));
    assert(selections.len() == places.len());
    assert forall|j: int| 0 <= j < places.len() implies #[trigger] selections[j]
        == document_selection(html, places[j], Some("href"@)) by {
        assert(places[j] == chapter_selectors()[j]);
    }
    let none = Seq::<Link>::empty();
    let links = gathered(none, nodes, base);
    assert(nodes.skip(0) =~= nodes);
    assert(lists(none, nodes, 0, base, Seq::<int>::empty()));
    let from = lemma_gathered_lists(none, nodes, 0, base, Seq::<int>::empty());
    assert forall|i: int| 0 <= i < nodes.len() && (#[trigger] nodes[i]).value is Some implies has_url(
        links,
        absolute(nodes[i].value->0, base),
    ) by {
        let j = lemma_leads_on(nodes, base, i);
        assert(from.contains(j));
        let a = choose|a: int| 0 <= a < from.len() && from[a] == j;
        assert(links[a].1 == absolute(nodes[i].value->0, base));
    }
    let i = choose|i: int| 0 <= i < nodes.len() && (#[trigger] nodes[i]).value is Some;
    assert(has_url(links, absolute(nodes[i].value->0, base)));
    assert(links.len() > 0);
    assert forall|j: int, i: int|
        0 <= j < k && (#[trigger] selections[j]) is Some && 0 <= i < selections[j]->0.len() implies (
    #[trigger] selections[j]->0[i]).value is None by {
        assert(document_selection(html, places[j], Some("href"@))->0[i].value is None);
    }
    lemma_chosen_links(selections, base, k, nodes);
    from
}

/// A page without a link at any of the known places in its sidebar has no chapter links.
pub proof fn law_no_chapters_listed(html: Seq<char>, base: Seq<char>, places: Seq<Seq<char>>)
    requires
        places == seq![
            ".rul ul.show li a"@,
            ".sidebar ul li a"@,
            ".catalog ul li a"@,
            ".nav-list li a"@,
        ],
        forall|j: int, i: int|
            0 <= j < places.len() && document_selection(
                html,
                #[trigger] places[j],
                Some("href"@),
            ) is Some && 0 <= i < document_selection(html, places[j], Some("href"@))->0.len() ==> (
            #[trigger] document_selection(html, places[j], Some("href"@))->0[i]).value is None,
    ensures
        chapter_links(html, base) == Seq::<Link>::empty(),
{
    let selections = picked(html, chapter_selectors(), Some("href"@));
    assert(selections.len() == places.len());
    assert forall|j: int, i: int|
        0 <= j < selections.len() && (#[trigger] selections[j]) is Some && 0 <= i
            < selections[j]->0.len() implies (#[trigger] selections[j]->0[i]).value is None by {
        assert(places[j] == chapter_selectors()[j]);
        assert(selections[j] == document_selection(html, places[j], Some("href"@)));
        assert(document_selection(html, places[j], Some("href"@))->0[i].value is None);
    }
    lemma_no_links(selections, base);
}

proof fn lemma_no_links(selections: Seq<Option<Seq<NodeView>>>, base: Seq<char>)
    requires
        forall|j: int, i: int|
            0 <= j < selections.len() && (#[trigger] selections[j]) is Some && 0 <= i
                < selections[j]->0.len() ==> (#[trigger] selections[j]->0[i]).value is None,
    ensures
        chosen_links(selections, base) == Seq::<Link>::empty(),
    decreases selections.len(),
{
    if selections.len() > 0 {
        let rest = selections.skip(1);
        if let Some(first) = selections[0] {
            assert forall|i: int| 0 <= i < first.len() implies (#[trigger] first[i]).value is None by {
                assert(selections[0]->0[i].value is None);
            }
            lemma_gathered_none(Seq::empty(), first, base);
        }
        assert forall|j: int, i: int|
            0 <= j < rest.len() && (#[trigger] rest[j]) is Some && 0 <= i
                < rest[j]->0.len() implies (#[trigger] rest[j]->0[i]).value is None by {
            assert(rest[j] == selections[j + 1]);
            assert(selections[j + 1]->0[i].value is None);
        }
        lemma_no_links(rest, base);
    }
}

} // verus!
