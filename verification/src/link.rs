//! Normalization of a raw link against the scope of a crawl.
//!
//! A raw link is whatever a page wrote in an `href` or `src` attribute. Its
//! query and fragment are cut off; what is left is kept if it already lies in
//! the scope, expanded if it is a path from the root, and rejected otherwise.
//! A link that begins with `//` names another host and is no such path. The
//! empty string stands for a rejected link.

use vstd::prelude::*;
use vstd::string::*;
use crate::text::{chars_of, starts_with};

verus! {

/// The characters that open a query or a fragment.
pub open spec fn is_delimiter(c: char) -> bool {
    c == '#' || c == '?'
}

/// No character of `s` opens a query or a fragment.
pub open spec fn delimiter_free(s: Seq<char>) -> bool {
    forall|i: int| 0 <= i < s.len() ==> !is_delimiter(#[trigger] s[i])
}

/// The number of characters of `s` in front of its first delimiter.
pub open spec fn stem_len(s: Seq<char>) -> nat
    decreases s.len(),
{
    if s.len() == 0 || is_delimiter(s[0]) {
        0
    } else {
        1 + stem_len(s.drop_first())
    }
}

/// `s` without its query and fragment: what stands in front of the first
/// `#` or `?`.
pub open spec fn stem(s: Seq<char>) -> Seq<char> {
    s.take(stem_len(s) as int)
}

/// `s` is a path from the root of a site: it begins with `/`, and not with
/// `//`, which would name a host.
pub open spec fn from_root(s: Seq<char>) -> bool {
    &&& s.len() > 0
    &&& s[0] == '/'
    &&& s.len() > 1 ==> s[1] != '/'
}

/// The canonical form of `link` in a crawl bounded by `scope`, or the empty
/// sequence where the link is rejected.
pub open spec fn normalize(link: Seq<char>, scope: Seq<char>) -> Seq<char> {
    let kept = stem(link);
    if scope.is_prefix_of(kept) {
        kept
    } else if from_root(kept) {
        scope + kept
    } else {
        Seq::empty()
    }
}

/// Whether `scope` comes through a second normalization of `link`: it holds
/// no delimiter, or the link lay in the scope before it was normalized, or
/// link and scope are cut down to the same text.
pub open spec fn scope_stable(link: Seq<char>, scope: Seq<char>) -> bool {
    ||| delimiter_free(scope)
    ||| scope.is_prefix_of(stem(link))
    ||| stem(scope) == stem(link)
}

/// `stem_len(s)` is the position of the first delimiter of `s`, or the length
/// of `s` where it has none.
pub proof fn lemma_stem_len(s: Seq<char>)
    ensures
        stem_len(s) <= s.len(),
        forall|i: int| 0 <= i < stem_len(s) ==> !is_delimiter(#[trigger] s[i]),
        stem_len(s) < s.len() ==> is_delimiter(s[stem_len(s) as int]),
        delimiter_free(stem(s)),
    decreases s.len(),
{
    if s.len() == 0 || is_delimiter(s[0]) {
    } else {
        let rest = s.drop_first();
        lemma_stem_len(rest);
        assert forall|i: int| 0 <= i < stem_len(s) implies !is_delimiter(#[trigger] s[i]) by {
            if i > 0 {
                assert(s[i] == rest[i - 1]);
            }
        }
        if stem_len(s) < s.len() {
            assert(s[stem_len(s) as int] == rest[stem_len(rest) as int]);
        }
    }
}

/// A position in front of which `s` has no delimiter, and which holds one or
/// ends `s`, is `stem_len(s)`.
pub proof fn lemma_stem_len_unique(s: Seq<char>, k: int)
    requires
        0 <= k <= s.len(),
        forall|i: int| 0 <= i < k ==> !is_delimiter(#[trigger] s[i]),
        k < s.len() ==> is_delimiter(s[k]),
    ensures
        stem_len(s) == k,
    decreases s.len(),
{
    if k == 0 {
    } else {
        let rest = s.drop_first();
        assert(!is_delimiter(s[0]));
        assert forall|i: int| 0 <= i < k - 1 implies !is_delimiter(#[trigger] rest[i]) by {
            assert(rest[i] == s[i + 1]);
        }
        if k - 1 < rest.len() {
            assert(rest[k - 1] == s[k]);
        }
        lemma_stem_len_unique(rest, k - 1);
    }
}

/// What `normalize` accepts lies in the scope and holds no delimiter behind
/// the scope.
pub proof fn lemma_normalize_in_scope(link: Seq<char>, scope: Seq<char>)
    ensures
        normalize(link, scope).len() > 0 ==> {
            &&& scope.is_prefix_of(normalize(link, scope))
            &&& delimiter_free(normalize(link, scope).skip(scope.len() as int))
        },
{
    lemma_stem_len(link);
    let kept = stem(link);
    let out = normalize(link, scope);
    let tail = out.skip(scope.len() as int);
    if scope.is_prefix_of(kept) {
        assert forall|i: int| 0 <= i < tail.len() implies !is_delimiter(#[trigger] tail[i]) by {
            assert(tail[i] == kept[i + scope.len()]);
        }
    } else if from_root(kept) {
        assert(out.subrange(0, scope.len() as int) =~= scope);
        assert(tail =~= kept);
    }
}

/// Normalizing is idempotent on accepted links: where `normalize` accepts
/// `link` and the scope comes through (`scope_stable`), normalizing the result
/// again leaves it as it is.
pub proof fn lemma_normalize_idempotent(link: Seq<char>, scope: Seq<char>)
    requires
        normalize(link, scope).len() > 0,
        scope_stable(link, scope),
    ensures
        normalize(normalize(link, scope), scope) == normalize(link, scope),
{
    lemma_stem_len(link);
    let kept = stem(link);
    let out = normalize(link, scope);
    if scope.is_prefix_of(kept) {
        lemma_stem_len_unique(kept, kept.len() as int);
        assert(stem(kept) =~= kept);
    } else {
        assert(out == scope + kept);
        assert(out.subrange(0, scope.len() as int) =~= scope);
        if delimiter_free(scope) {
            assert forall|i: int| 0 <= i < out.len() implies !is_delimiter(#[trigger] out[i]) by {
                if i < scope.len() {
                    assert(out[i] == scope[i]);
                } else {
                    assert(out[i] == kept[i - scope.len()]);
                }
            }
            lemma_stem_len_unique(out, out.len() as int);
            assert(stem(out) =~= out);
        } else {
            lemma_stem_of_scoped(scope, kept);
        }
    }
}

/// Outside `scope_stable`, normalizing an accepted link a second time
/// changes it: the condition of `lemma_normalize_idempotent` leaves out no
/// link of which idempotence holds.
pub proof fn lemma_normalize_unstable(link: Seq<char>, scope: Seq<char>)
    requires
        normalize(link, scope).len() > 0,
        !scope_stable(link, scope),
    ensures
        normalize(normalize(link, scope), scope) != normalize(link, scope),
{
    lemma_stem_len(link);
    lemma_stem_len(scope);
    let kept = stem(link);
    let out = normalize(link, scope);
    assert(out == scope + kept);
    lemma_stem_of_scoped(scope, kept);
    let again = normalize(out, scope);
    if again == out {
        assert(again == scope + stem(scope));
        assert(kept =~= out.skip(scope.len() as int));
        assert(stem(scope) =~= again.skip(scope.len() as int));
    }
}

/// Behind a scope that holds a delimiter nothing survives: `scope + rest` is
/// cut where `scope` is.
proof fn lemma_stem_of_scoped(scope: Seq<char>, rest: Seq<char>)
    requires
        !delimiter_free(scope),
    ensures
        stem(scope + rest) == stem(scope),
        stem(scope).len() < scope.len(),
{
    lemma_stem_len(scope);
    let k = stem_len(scope) as int;
    if k == scope.len() {
        assert forall|i: int| 0 <= i < scope.len() implies !is_delimiter(#[trigger] scope[i]) by {}
    }
    let whole = scope + rest;
    assert forall|i: int| 0 <= i < k implies !is_delimiter(#[trigger] whole[i]) by {
        assert(whole[i] == scope[i]);
    }
    assert(whole[k] == scope[k]);
    lemma_stem_len_unique(whole, k);
    assert(whole.take(k) =~= scope.take(k));
}

/// Normalizes the raw link `host` against `scope`.
///
/// The link is cut in front of its first `#` or `?`. What is left is returned
/// as it is where it begins with `scope`, and behind `scope` where it begins
/// with a single `/`. Any other link is rejected: the result is empty.
pub fn format_link(host: &str, scope: &str) -> (link: String)
    ensures
        link@ == normalize(host@, scope@),
        link@.len() > 0 ==> scope@.is_prefix_of(link@),
{
    let text = chars_of(host);
    let base = chars_of(scope);
    let cut = first_delimiter(&text);
    proof {
        lemma_normalize_in_scope(host@, scope@);
    }
    if starts_with(&text, cut, &base) {
        host.substring_char(0, cut).to_owned()
    } else if cut > 0 && text[0] == '/' && !(cut > 1 && text[1] == '/') {
        let mut link = scope.to_owned();
        link.append(host.substring_char(0, cut));
        link
    } else {
        String::new()
    }
}

/// The position of the first `#` or `?` of `text`, or its length where it has
/// neither.
fn first_delimiter(text: &Vec<char>) -> (cut: usize)
    ensures
        cut == stem_len(text@),
        cut <= text.len(),
{
    let mut i: usize = 0;
    while i < text.len() && text[i] != '#' && text[i] != '?'
        invariant
            i <= text.len(),
            forall|j: int| 0 <= j < i ==> !is_delimiter(#[trigger] text@[j]),
        decreases text.len() - i,
    {
        i += 1;
    }
    proof {
        lemma_stem_len_unique(text@, i as int);
    }
    i
}

} // verus!
