//! Addresses: which ones are accepted, and how a link is resolved against its page.

use crate::text::{begins, first, first_from, occurs_at};
use crate::text::{chars_of, find_from, slice_text, starts_with};
use crate::text::{law_occurs, lemma_first_from, lemma_first_is};
use vstd::prelude::*;

verus! {

/// An address that can be fetched: it names the scheme `http` or `https`.
pub open spec fn valid_url(url: Seq<char>) -> bool {
    begins(url, "http://"@) || begins(url, "https://"@)
}

/// The scheme and the host of an address: all before the first slash behind `://`. An
/// address without `://` is taken as it is.
pub open spec fn base_url(url: Seq<char>) -> Seq<char> {
    match first(url, "://"@) {
        Some(i) => match first_from(url, "/"@, i + 3) {
            Some(k) => url.take(k),
            None => url,
        },
        None => url,
    }
}

/// The address that the link `src` means on a page of the site `base`.
pub open spec fn absolute(src: Seq<char>, base: Seq<char>) -> Seq<char> {
    if valid_url(src) {
        src
    } else if begins(src, "//"@) {
        "https:"@ + src
    } else if begins(src, "/"@) {
        base + src
    } else {
        base + "/"@ + src
    }
}

/// Whether `url` names the scheme `http` or `https`.
pub fn is_valid_url(url: &str) -> (r: bool)
    ensures
        r == valid_url(url@),
{
    starts_with(url, "http://") || starts_with(url, "https://")
}

/// The scheme and the host of `url`.
pub fn extract_base_url(url: &str) -> (r: String)
    ensures
        r@ == base_url(url@),
{
    let chars = chars_of(url);
    let mark = chars_of("://");
    let slash = chars_of("/");
    proof {
        reveal_strlit("://");
        lemma_first_from(chars@, mark@, 0);
    }
    if let Some(i) = find_from(&chars, &mark, 0) {
        assert(i + 3 <= chars.len());
        proof {
            lemma_first_from(chars@, slash@, i + 3);
        }
        if let Some(k) = find_from(&chars, &slash, i + 3) {
            let base = slice_text(&chars, 0, k);
            assert(base@ =~= url@.take(k as int));
            return base;
        }
    }
    url.to_owned()
}

/// The address that the link `src` means on a page of the site `base`.
pub fn to_absolute(src: &str, base: &str) -> (r: String)
    ensures
        r@ == absolute(src@, base@),
{
    if is_valid_url(src) {
        src.to_owned()
    } else if starts_with(src, "//") {
        "https:".to_owned().concat(src)
    } else if starts_with(src, "/") {
        base.to_owned().concat(src)
    } else {
        base.to_owned().concat("/").concat(src)
    }
}

// ---------------------------------------------------------------------------
// Laws
// ---------------------------------------------------------------------------

/// A text that goes on after a prefix still starts with what the prefix starts with.
proof fn lemma_begins_extended(s: Seq<char>, more: Seq<char>, pat: Seq<char>)
    requires
        begins(s, pat),
    ensures
        begins(s + more, pat),
{
    assert((s + more).subrange(0, pat.len() as int) =~= s.subrange(0, pat.len() as int));
}

/// Where `://` first stands in an accepted address.
proof fn lemma_scheme(url: Seq<char>)
    requires
        valid_url(url),
    ensures
        begins(url, "http://"@) ==> url.len() >= 7 && first(url, "://"@) == Some(4int),
        begins(url, "https://"@) ==> url.len() >= 8 && first(url, "://"@) == Some(5int),
{
    reveal_strlit("http://");
    reveal_strlit("https://");
    reveal_strlit("://");
    let (scheme, k) = if begins(url, "http://"@) {
        ("http://"@, 4int)
    } else {
        ("https://"@, 5int)
    };
    assert(url.subrange(0, scheme.len() as int) == scheme);
    assert forall|j: int| 0 <= j < scheme.len() implies url[j] == #[trigger] scheme[j] by {
        assert(url.subrange(0, scheme.len() as int)[j] == url[j]);
    }
    assert(url[k] == scheme[k] && url[k + 1] == scheme[k + 1] && url[k + 2] == scheme[k + 2]);
    assert(url.subrange(k, k + 3) =~= "://"@);
    assert forall|j: int| 0 <= j < k implies !#[trigger] occurs_at(url, "://"@, j) by {
        assert(url[j] == scheme[j]);
        if occurs_at(url, "://"@, j) {
            assert(url.subrange(j, j + 3)[0] == url[j]);
            assert("://"@[0] == ':');
        }
    }
    lemma_first_is(url, "://"@, 0, k);
    assert(url[4] == scheme[4]);
    if begins(url, "http://"@) && begins(url, "https://"@) {
        assert(url.subrange(0, 7)[4] == url[4]);
        assert(url.subrange(0, 8)[4] == url[4]);
    }
}

/// The site of an accepted address is itself an accepted address.
pub proof fn law_base_is_valid(url: Seq<char>)
    requires
        valid_url(url),
    ensures
        valid_url(base_url(url)),
{
    reveal_strlit("http://");
    reveal_strlit("https://");
    lemma_scheme(url);
    let i = first(url, "://"@)->0;
    lemma_first_from(url, "/"@, i + 3);
    let base = base_url(url);
    let scheme = if begins(url, "http://"@) {
        "http://"@
    } else {
        "https://"@
    };
    assert(base.len() >= scheme.len());
    assert(base.subrange(0, scheme.len() as int) =~= url.subrange(0, scheme.len() as int));
}

/// What a link means on a page of an accepted site is an accepted address, whatever the
/// link says.
pub proof fn law_absolute_is_valid(src: Seq<char>, base: Seq<char>)
    requires
        valid_url(base),
    ensures
        valid_url(absolute(src, base)),
{
    let scheme = if begins(base, "http://"@) {
        "http://"@
    } else {
        "https://"@
    };
    if valid_url(src) {
    } else if begins(src, "//"@) {
        reveal_strlit("//");
        reveal_strlit("https:");
        reveal_strlit("https://");
        let all = "https:"@ + src;
        assert(src.subrange(0, 2) == "//"@);
        assert(src[0] == src.subrange(0, 2)[0] && src[1] == src.subrange(0, 2)[1]);
        assert(all.subrange(0, 8) =~= "https://"@);
    } else if begins(src, "/"@) {
        lemma_begins_extended(base, src, scheme);
    } else {
        lemma_begins_extended(base, "/"@, scheme);
        lemma_begins_extended(base + "/"@, src, scheme);
    }
}

/// An address that can be fetched is not changed by resolving it.
pub proof fn law_absolute_keeps_valid(src: Seq<char>, base: Seq<char>)
    requires
        valid_url(src),
    ensures
        absolute(src, base) == src,
{
}

/// The site of a site is that site.
pub proof fn law_base_of_base(url: Seq<char>)
    ensures
        base_url(base_url(url)) == base_url(url),
{
    reveal_strlit("://");
    reveal_strlit("/");
    lemma_first_from(url, "://"@, 0);
    if let Some(i) = first(url, "://"@) {
        lemma_first_from(url, "/"@, i + 3);
        if let Some(k) = first_from(url, "/"@, i + 3) {
            let base = url.take(k);
            assert(base.subrange(i, i + 3) =~= url.subrange(i, i + 3));
            assert forall|j: int| 0 <= j < i implies !#[trigger] occurs_at(base, "://"@, j) by {
                assert(base.subrange(j, j + 3) =~= url.subrange(j, j + 3));
                assert(!occurs_at(url, "://"@, j));
            }
            lemma_first_is(base, "://"@, 0, i);
            lemma_first_from(base, "/"@, i + 3);
            if let Some(m) = first_from(base, "/"@, i + 3) {
                assert(base.subrange(m, m + 1) =~= url.subrange(m, m + 1));
                assert(occurs_at(url, "/"@, m));
            }
        }
    }
}

/// The site of an address is how the address begins.
pub proof fn law_base_is_prefix(url: Seq<char>)
    ensures
        base_url(url).is_prefix_of(url),
{
    reveal_strlit("://");
    lemma_first_from(url, "://"@, 0);
    if let Some(i) = first(url, "://"@) {
        lemma_first_from(url, "/"@, i + 3);
    }
}

/// The site of a relative link is the site that it is resolved against.
pub proof fn law_site_of_link(src: Seq<char>, base: Seq<char>)
    requires
        first(base, "://"@) is Some,
        base_url(base) == base,
        !valid_url(src),
        !begins(src, "//"@),
    ensures
        base_url(absolute(src, base)) == base,
{
    reveal_strlit("://");
    reveal_strlit("/");
    let url = absolute(src, base);
    let n = base.len() as int;
    let i = first(base, "://"@)->0;
    lemma_first_from(base, "://"@, 0);
    assert(url.take(n) =~= base);
    assert(url.subrange(i, i + 3) =~= base.subrange(i, i + 3));
    assert forall|j: int| 0 <= j < i implies !#[trigger] occurs_at(url, "://"@, j) by {
        assert(url.subrange(j, j + 3) =~= base.subrange(j, j + 3));
        assert(!occurs_at(base, "://"@, j));
    }
    lemma_first_is(url, "://"@, 0, i);
    lemma_first_from(base, "/"@, i + 3);
    assert(first_from(base, "/"@, i + 3) is None) by {
        if let Some(k) = first_from(base, "/"@, i + 3) {
            assert(base.take(k).len() == k);
        }
    }
    assert(url.subrange(n, n + 1) =~= "/"@) by {
        if begins(src, "/"@) {
            assert(src.subrange(0, 1)[0] == src[0]);
        }
        assert(url[n] == '/');
    }
    assert forall|j: int| i + 3 <= j < n implies !#[trigger] occurs_at(url, "/"@, j) by {
        assert(url.subrange(j, j + 1) =~= base.subrange(j, j + 1));
        assert(!occurs_at(base, "/"@, j));
    }
    lemma_first_is(url, "/"@, i + 3, n);
}

/// The accepted addresses are those that start with `http://` or with `https://`.
pub proof fn law_accepted(url: Seq<char>)
    ensures
        valid_url(url) <==> "http://"@.is_prefix_of(url) || "https://"@.is_prefix_of(url),
{
    law_occurs(url, "http://"@, 0, url);
    law_occurs(url, "https://"@, 0, url);
}

/// A link with a scheme means itself, one that starts with a host is fetched by `https`, one that
/// starts at the root of the site stands behind the site, and any other one behind the site and
/// a slash.
pub proof fn law_resolved(src: Seq<char>, base: Seq<char>)
    ensures
        "http://"@.is_prefix_of(src) ==> absolute(src, base) == src,
        "https://"@.is_prefix_of(src) ==> absolute(src, base) == src,
        "//"@.is_prefix_of(src) ==> absolute(src, base) == "https:"@ + src,
        "/"@.is_prefix_of(src) && !"//"@.is_prefix_of(src) ==> absolute(src, base) == base + src,
        !"/"@.is_prefix_of(src) && !"http://"@.is_prefix_of(src) && !"https://"@.is_prefix_of(src)
            ==> absolute(src, base) == base + "/"@ + src,
{
    reveal_strlit("http://");
    reveal_strlit("https://");
    reveal_strlit("//");
    reveal_strlit("/");
    law_accepted(src);
    law_occurs(src, "//"@, 0, src);
    law_occurs(src, "/"@, 0, src);
    if "//"@.is_prefix_of(src) {
        assert(src[0] == src.subrange(0, 2)[0]);
        assert("/"@ =~= src.subrange(0, 1));
        if "http://"@.is_prefix_of(src) {
            assert(src[0] == src.subrange(0, 7)[0]);
        }
        if "https://"@.is_prefix_of(src) {
            assert(src[0] == src.subrange(0, 8)[0]);
        }
    }
    if "/"@.is_prefix_of(src) {
        assert(src[0] == src.subrange(0, 1)[0]);
        if "http://"@.is_prefix_of(src) {
            assert(src[0] == src.subrange(0, 7)[0]);
        }
        if "https://"@.is_prefix_of(src) {
            assert(src[0] == src.subrange(0, 8)[0]);
        }
    }
}

/// The site of an address is its scheme and its host, whatever stands behind the host.
pub proof fn law_site(scheme: Seq<char>, host: Seq<char>, path: Seq<char>)
    requires
        !scheme.contains(':'),
        !host.contains('/'),
        path.len() > 0 ==> path[0] == '/',
    ensures
        base_url(scheme + "://"@ + host + path) == scheme + "://"@ + host,
{
    reveal_strlit("://");
    reveal_strlit("/");
    let url = scheme + "://"@ + host + path;
    let i = scheme.len() as int;
    let k = i + 3 + host.len();
    assert(url.subrange(i, i + 3) =~= "://"@);
    assert forall|j: int| 0 <= j < i implies !#[trigger] occurs_at(url, "://"@, j) by {
        if occurs_at(url, "://"@, j) {
            assert(url.subrange(j, j + 3)[0] == url[j]);
            assert(url[j] == scheme[j]);
            assert(scheme.contains(scheme[j]));
        }
    }
    lemma_first_is(url, "://"@, 0, i);
    assert forall|j: int| i + 3 <= j < k implies !#[trigger] occurs_at(url, "/"@, j) by {
        if occurs_at(url, "/"@, j) {
            assert(url.subrange(j, j + 1)[0] == url[j]);
            assert(url[j] == host[j - i - 3]);
            assert(host.contains(host[j - i - 3]));
        }
    }
    assert(url.take(k) =~= scheme + "://"@ + host);
    if path.len() > 0 {
        assert(url[k] == '/');
        assert(url.subrange(k, k + 1) =~= "/"@);
        lemma_first_is(url, "/"@, i + 3, k);
    } else {
        assert(url =~= scheme + "://"@ + host);
        lemma_first_from(url, "/"@, i + 3);
        if let Some(j) = first_from(url, "/"@, i + 3) {
            assert(occurs_at(url, "/"@, j));
            assert(j < k);
        }
    }
}

/// An address without `://` is its own site.
pub proof fn law_no_site(url: Seq<char>)
    requires
        forall|i: int| 0 <= i <= url.len() ==> !"://"@.is_prefix_of(#[trigger] url.skip(i)),
    ensures
        base_url(url) == url,
{
    reveal_strlit("://");
    lemma_first_from(url, "://"@, 0);
    if let Some(i) = first(url, "://"@) {
        law_occurs(url, "://"@, i, url);
        assert("://"@.is_prefix_of(url.skip(i)));
    }
}

} // verus!
