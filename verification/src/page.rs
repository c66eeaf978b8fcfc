//! The raw links of a page: what its anchors and images point to.
//!
//! Reading HTML is left to the `select` crate. It reports, for each element
//! of a kind, the attribute asked for or its absence; which of them count as
//! links is decided here.

use vstd::prelude::*;
use vstd::string::*;

verus! {

/// The longest page, in bytes, that is handed to the parser. It keeps its
/// texts in buffers that it grows to the next power of two and that end at
/// 2^31 bytes, and it may write three bytes for one that it reads; a page of
/// this length stays below that end.
pub const MAX_BODY: usize = 0x2000_0000;

/// The page `body` is short enough to be parsed.
pub open spec fn parsable(body: &str) -> bool {
    body.spec_bytes().len() <= MAX_BODY
}

/// For each element named `tag` that `select` finds in the HTML text `body`,
/// in the order of the document, the value of its attribute `attr`, or `None`
/// where the element has no such attribute.
pub uninterp spec fn element_attrs(body: Seq<char>, tag: Seq<char>, attr: Seq<char>) -> Seq<
    Option<Seq<char>>,
>;

/// Parses `body` with `select::document::Document::from`, walks the elements
/// that `Document::find` yields for `select::predicate::Name(tag)` and asks
/// each for `attr` with `select::node::Node::attr`. The contract gives the
/// outcome its name, `element_attrs`, and says nothing else of it. A longer
/// page than `MAX_BODY` is left out: on such a page the parser may panic.
#[verifier::external_body]
fn select_attrs(body: &str, tag: &str, attr: &str) -> (found: Vec<Option<String>>)
    requires
        parsable(body),
    ensures
        found.deep_view() == element_attrs(body@, tag@, attr@),
{
    select::document::Document::from(body)
        .find(select::predicate::Name(tag))
        .map(|node| node.attr(attr).map(|value| value.to_string()))
        .collect()
}

/// The values that are there, in order: `items` without its `None`s.
pub open spec fn present(items: Seq<Option<Seq<char>>>) -> Seq<Seq<char>> {
    items.filter_map(|item: Option<Seq<char>>| item)
}

/// The targets of the anchors of `body`: the `href` of each `a` element that
/// has one.
pub open spec fn anchor_links(body: Seq<char>) -> Seq<Seq<char>> {
    present(element_attrs(body, "a"@, "href"@))
}

/// The sources of the images of `body`: the `src` of each `img` element that
/// has one.
pub open spec fn image_links(body: Seq<char>) -> Seq<Seq<char>> {
    present(element_attrs(body, "img"@, "src"@))
}

/// Keeps the values that are there and drops each `None`, without changing
/// the order.
pub fn collect_present(items: Vec<Option<String>>) -> (kept: Vec<String>)
    ensures
        kept.deep_view() == present(items.deep_view()),
{
    let ghost all = items.deep_view();
    let mut kept: Vec<String> = Vec::new();
    for item in it: items.into_iter()
        invariant
            it.seq() == items@,
            all == items.deep_view(),
            kept.deep_view() == present(all.take(it.index() as int)),
    {
        let ghost n = it.index() as int;
        proof {
            assert(all.take(n + 1).drop_last() =~= all.take(n));
            assert(all.take(n + 1).last() == item.deep_view());
        }
        let ghost before = kept.deep_view();
        if let Some(value) = item {
            kept.push(value);
            assert(kept.deep_view() =~= before + seq![value@]);
        }
    }
    proof {
        assert(all.take(all.len() as int) =~= all);
    }
    kept
}

/// Every link that an anchor of the page `body` points to, as it is written
/// there.
pub fn parse_a(body: &str) -> (links: Vec<String>)
    requires
        parsable(body),
    ensures
        links.deep_view() == anchor_links(body@),
{
    collect_present(select_attrs(body, "a", "href"))
}

/// Every source that an image of the page `body` is loaded from, as it is
/// written there.
pub fn parse_img(body: &str) -> (links: Vec<String>)
    requires
        parsable(body),
    ensures
        links.deep_view() == image_links(body@),
{
    collect_present(select_attrs(body, "img", "src"))
}

} // verus!
