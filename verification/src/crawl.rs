//! The crawl as a mathematical state, and the transitions that move it.
//!
//! The state is the frontier together with the scope, the URL that is
//! fetched next, and whether the crawl has finished. A page is remembered
//! under its path key, the path of its URL: that is the key under which the
//! frontier holds it.

use vstd::prelude::*;
use crate::frontier::{
    holds_once, lemma_enqueue_again, lemma_enqueue_wf, lemma_mark_harvested_wf, lemma_next_url_wf,
    lemma_without_key, FrontierView,
};
use crate::link::normalize;
use crate::urls::{url_origin, url_path};

verus! {

/// The state of a crawl.
pub struct Crawl {
    /// What every link that the crawl follows begins with.
    pub scope: Seq<char>,
    /// The URL that is fetched next or, once the crawl has finished, the one
    /// fetched last.
    pub current: Seq<char>,
    /// What has been fetched and what is waiting.
    pub frontier: FrontierView,
    /// Whether the frontier was found exhausted after the last page.
    pub finished: bool,
}

impl Crawl {
    /// The crawl that starts at `seed`, with nothing fetched and nothing
    /// queued. Its scope is the origin of the seed. `None` where `seed` is no
    /// URL.
    pub open spec fn start(seed: Seq<char>) -> Option<Crawl> {
        match (url_origin(seed), url_path(seed)) {
            (Some(scope), Some(_)) => Some(
                Crawl { scope, current: seed, frontier: FrontierView::empty(), finished: false },
            ),
            _ => None,
        }
    }

    /// The path keys of the pages fetched so far, in that order.
    pub open spec fn harvested(self) -> Seq<Seq<char>> {
        self.frontier.harvested
    }

    /// The path keys of the queued URLs, in the order of the queue.
    pub open spec fn keys(self) -> Seq<Seq<char>> {
        self.frontier.keys()
    }

    /// The queued URLs, in the order of the queue.
    pub open spec fn urls(self) -> Seq<Seq<char>> {
        self.frontier.urls()
    }

    /// Whether `url` is known: the path key of its page is harvested, or the
    /// URL itself is queued. `None` where `url` is no URL.
    pub open spec fn is_found(self, url: Seq<char>) -> Option<bool> {
        match url_path(url) {
            Some(key) => Some(self.frontier.known(url, key)),
            None => None,
        }
    }

    /// Whether `url` is still to be fetched: it is queued, or it is the
    /// current URL of a crawl that goes on.
    pub open spec fn pending(self, url: Seq<char>) -> bool {
        self.urls().contains(url) || (!self.finished && self.current == url)
    }

    /// Whether the page of path key `key` has been fetched or a URL of that
    /// key is waiting.
    pub open spec fn covers(self, key: Seq<char>) -> bool {
        self.harvested().contains(key) || self.keys().contains(key)
    }

    /// Every queued URL is queued under its path key.
    pub open spec fn keyed(self) -> bool {
        forall|i: int|
            0 <= i < self.frontier.queued.len() ==> url_path(
                (#[trigger] self.frontier.queued[i]).url,
            ) == Some(self.frontier.queued[i].key)
    }

    /// What holds of every state that a crawl passes through: the current
    /// URL has a path, the frontier is well formed, and its keys are the
    /// path keys of the queued URLs.
    pub open spec fn wf(self) -> bool {
        &&& url_path(self.current) is Some
        &&& self.frontier.wf()
        &&& self.keyed()
    }

    /// The state after `url` was offered to the queue: it is appended, and
    /// counted as discovered, where it is a URL and not known. Otherwise
    /// nothing changes.
    pub open spec fn enqueue(self, url: Seq<char>) -> Crawl {
        match url_path(url) {
            Some(key) => Crawl { frontier: self.frontier.enqueue(url, key), ..self },
            None => self,
        }
    }

    /// The state after the page of `url` was fetched: its path key is
    /// harvested, unless it was already, and every URL queued under that key
    /// leaves the queue. Nothing changes where `url` has no path.
    pub open spec fn mark_harvested(self, url: Seq<char>) -> Crawl {
        match url_path(url) {
            Some(key) => Crawl { frontier: self.frontier.mark_harvested(key), ..self },
            None => self,
        }
    }

    /// The state after the first URL left the queue. Nothing changes where
    /// the queue is empty.
    pub open spec fn next_url(self) -> Crawl {
        Crawl { frontier: self.frontier.next_url(), ..self }
    }

    /// The state after the raw link `link` of a fetched page was looked at.
    /// A link that `normalize` rejects changes nothing; one that it accepts
    /// is offered to the queue. `Err` holds the normalized link where that
    /// is no URL.
    pub open spec fn offer(self, link: Seq<char>) -> Result<Crawl, Seq<char>> {
        let url = normalize(link, self.scope);
        if url.len() == 0 {
            Ok(self)
        } else if url_path(url) is None {
            Err(url)
        } else {
            Ok(self.enqueue(url))
        }
    }

    /// The state after the raw links `links` were looked at one after the
    /// other, or the first failure among them.
    pub open spec fn absorb(self, links: Seq<Seq<char>>) -> Result<Crawl, Seq<char>>
        decreases links.len(),
    {
        if links.len() == 0 {
            Ok(self)
        } else {
            match self.absorb(links.drop_last()) {
                Ok(crawl) => crawl.offer(links.last()),
                Err(url) => Err(url),
            }
        }
    }

    /// The state after the scheduler chose what to fetch next: the first
    /// queued URL becomes the current one, or the crawl has finished where
    /// nothing is queued.
    pub open spec fn advance(self) -> Crawl {
        if self.frontier.queued.len() > 0 {
            Crawl { current: self.frontier.queued[0].url, finished: false, ..self.next_url() }
        } else {
            Crawl { finished: true, ..self }
        }
    }

    /// One cycle of the crawl, for the raw links `links` found on the page
    /// of the current URL: the page is marked harvested, the links are
    /// looked at, and the next URL is chosen. `Err` holds the first accepted
    /// link that is no URL.
    pub open spec fn step(self, links: Seq<Seq<char>>) -> Result<Crawl, Seq<char>> {
        match self.mark_harvested(self.current).absorb(links) {
            Ok(crawl) => Ok(crawl.advance()),
            Err(url) => Err(url),
        }
    }

    /// The state after the pages of a run were handled one after the other,
    /// `pages[i]` holding the raw links of the page fetched in cycle `i`; or
    /// the failure that ended the run.
    pub open spec fn run(self, pages: Seq<Seq<Seq<char>>>) -> Result<Crawl, Seq<char>>
        decreases pages.len(),
    {
        if pages.len() == 0 {
            Ok(self)
        } else {
            match self.run(pages.drop_last()) {
                Ok(crawl) => crawl.step(pages.last()),
                Err(url) => Err(url),
            }
        }
    }
}

/// `url` is what `normalize` makes of one of the raw links `links`, and is
/// not rejected.
pub open spec fn accepted(scope: Seq<char>, links: Seq<Seq<char>>, url: Seq<char>) -> bool {
    url.len() > 0 && exists|i: int|
        0 <= i < links.len() && normalize(#[trigger] links[i], scope) == url
}

/// Offering a URL to the queue keeps the state well formed.
pub proof fn lemma_crawl_enqueue(crawl: Crawl, url: Seq<char>)
    requires
        crawl.wf(),
    ensures
        crawl.enqueue(url).wf(),
{
    if let Some(key) = url_path(url) {
        lemma_enqueue_wf(crawl.frontier, url, key);
        let next = crawl.enqueue(url);
        assert forall|i: int| 0 <= i < next.frontier.queued.len() implies url_path(
            (#[trigger] next.frontier.queued[i]).url,
        ) == Some(next.frontier.queued[i].key) by {
            if i < crawl.frontier.queued.len() {
                assert(next.frontier.queued[i] == crawl.frontier.queued[i]);
            }
        }
    }
}

/// Marking a page harvested keeps the state well formed.
pub proof fn lemma_crawl_mark_harvested(crawl: Crawl, url: Seq<char>)
    requires
        crawl.wf(),
    ensures
        crawl.mark_harvested(url).wf(),
{
    if let Some(key) = url_path(url) {
        lemma_mark_harvested_wf(crawl.frontier, key);
        lemma_without_key(crawl.frontier.queued, key);
        let next = crawl.mark_harvested(url);
        assert forall|i: int| 0 <= i < next.frontier.queued.len() implies url_path(
            (#[trigger] next.frontier.queued[i]).url,
        ) == Some(next.frontier.queued[i].key) by {
            let pending = next.frontier.queued[i];
            assert(crawl.frontier.queued.contains(pending));
            let j = choose|j: int|
                0 <= j < crawl.frontier.queued.len() && crawl.frontier.queued[j] == pending;
            assert(url_path(crawl.frontier.queued[j].url) == Some(crawl.frontier.queued[j].key));
        }
    }
}

/// Taking the first URL out of the queue keeps the state well formed.
pub proof fn lemma_crawl_next_url(crawl: Crawl)
    requires
        crawl.wf(),
    ensures
        crawl.next_url().wf(),
{
    lemma_next_url_wf(crawl.frontier);
    let next = crawl.next_url();
    assert forall|i: int| 0 <= i < next.frontier.queued.len() implies url_path(
        (#[trigger] next.frontier.queued[i]).url,
    ) == Some(next.frontier.queued[i].key) by {
        assert(next.frontier.queued[i] == crawl.frontier.queued[i + 1]);
    }
}

/// Choosing what to fetch next keeps the state well formed.
pub proof fn lemma_advance_wf(crawl: Crawl)
    requires
        crawl.wf(),
    ensures
        crawl.advance().wf(),
{
    lemma_crawl_next_url(crawl);
    if crawl.frontier.queued.len() > 0 {
        assert(url_path(crawl.frontier.queued[0].url) is Some);
    }
}

/// Looking at the raw links of a page keeps the state well formed.
pub proof fn lemma_absorb_wf(crawl: Crawl, links: Seq<Seq<char>>)
    requires
        crawl.wf(),
    ensures
        crawl.absorb(links) matches Ok(next) ==> next.wf(),
    decreases links.len(),
{
    if links.len() > 0 {
        lemma_absorb_wf(crawl, links.drop_last());
        if let Ok(before) = crawl.absorb(links.drop_last()) {
            lemma_crawl_enqueue(before, normalize(links.last(), before.scope));
        }
    }
}

/// Looking at links harvests nothing and forgets nothing: scope, current
/// URL and harvested keys stay as they are, and what was queued or
/// discovered stays in front of what is added.
pub proof fn lemma_absorb_grows(crawl: Crawl, links: Seq<Seq<char>>)
    ensures
        crawl.absorb(links) matches Ok(next) ==> {
            &&& next.scope == crawl.scope
            &&& next.current == crawl.current
            &&& next.finished == crawl.finished
            &&& next.frontier.harvested == crawl.frontier.harvested
            &&& crawl.frontier.queued.is_prefix_of(next.frontier.queued)
            &&& crawl.frontier.discovered.is_prefix_of(next.frontier.discovered)
            &&& next.frontier.found() - crawl.frontier.found() == next.frontier.queued.len()
                - crawl.frontier.queued.len()
        },
    decreases links.len(),
{
    let queued = crawl.frontier.queued;
    let discovered = crawl.frontier.discovered;
    if links.len() > 0 {
        lemma_absorb_grows(crawl, links.drop_last());
        if let Ok(before) = crawl.absorb(links.drop_last()) {
            if let Ok(next) = before.offer(links.last()) {
                assert(before.frontier.queued.is_prefix_of(next.frontier.queued));
                assert(before.frontier.discovered.is_prefix_of(next.frontier.discovered));
                assert(queued =~= next.frontier.queued.subrange(0, queued.len() as int));
                assert(discovered =~= next.frontier.discovered.subrange(
                    0,
                    discovered.len() as int,
                ));
            }
        }
    } else {
        assert(queued =~= queued.subrange(0, queued.len() as int));
        assert(discovered =~= discovered.subrange(0, discovered.len() as int));
    }
}

/// A failure among the first links of a page is the failure of the page.
pub proof fn lemma_absorb_fails(crawl: Crawl, links: Seq<Seq<char>>, n: int)
    requires
        0 <= n <= links.len(),
        crawl.absorb(links.take(n)) is Err,
    ensures
        crawl.absorb(links) == crawl.absorb(links.take(n)),
    decreases links.len() - n,
{
    if n < links.len() {
        assert(links.take(n + 1).drop_last() =~= links.take(n));
        lemma_absorb_fails(crawl, links, n + 1);
    } else {
        assert(links.take(n) =~= links);
    }
}

/// After the links of a page were looked at, each accepted link is known:
/// the path key of its page is harvested, or the link is queued.
pub proof fn lemma_absorb_covers(crawl: Crawl, links: Seq<Seq<char>>)
    requires
        crawl.wf(),
    ensures
        crawl.absorb(links) matches Ok(next) ==> forall|i: int|
            #![trigger links[i]]
            0 <= i < links.len() && normalize(links[i], crawl.scope).len() > 0 ==> next.is_found(
                normalize(links[i], crawl.scope),
            ) == Some(true),
    decreases links.len(),
{
    if links.len() > 0 {
        let front = links.drop_last();
        lemma_absorb_covers(crawl, front);
        lemma_absorb_wf(crawl, front);
        lemma_absorb_grows(crawl, front);
        if let Ok(before) = crawl.absorb(front) {
            if let Ok(next) = before.offer(links.last()) {
                let last = normalize(links.last(), crawl.scope);
                if last.len() > 0 {
                    lemma_enqueue_again(before.frontier, last, url_path(last)->0);
                }
                assert forall|i: int|
                    #![trigger links[i]]
                    0 <= i < links.len() && normalize(links[i], crawl.scope).len()
                        > 0 implies next.is_found(normalize(links[i], crawl.scope)) == Some(
                    true,
                ) by {
                    let url = normalize(links[i], crawl.scope);
                    if i < front.len() {
                        assert(front[i] == links[i]);
                        if before.urls().contains(url) {
                            let j = choose|j: int|
                                0 <= j < before.urls().len() && before.urls()[j] == url;
                            assert(before.frontier.queued.is_prefix_of(next.frontier.queued));
                            assert(next.frontier.queued[j] == before.frontier.queued[j]);
                            assert(next.urls()[j] == url);
                        }
                    }
                }
            }
        }
    }
}

/// One cycle keeps the state well formed. It harvests the current page and
/// no other, and takes nothing back from what was discovered. After it the
/// crawl has finished exactly where the page of the current URL is
/// harvested, and then nothing is queued; where it goes on, the page of the
/// current URL is not harvested and the URL is no longer queued.
pub proof fn lemma_step_wf(crawl: Crawl, links: Seq<Seq<char>>)
    requires
        crawl.wf(),
    ensures
        crawl.step(links) matches Ok(next) ==> {
            &&& next.wf()
            &&& next.scope == crawl.scope
            &&& next.harvested() == crawl.mark_harvested(crawl.current).harvested()
            &&& next.frontier.completed() >= 1
            &&& crawl.frontier.discovered.is_prefix_of(next.frontier.discovered)
            &&& next.finished <==> next.harvested().contains(url_path(next.current)->0)
            &&& next.finished ==> next.frontier.queued.len() == 0 && next.current == crawl.current
            &&& !next.finished ==> !next.urls().contains(next.current)
        },
{
    let at = url_path(crawl.current)->0;
    lemma_crawl_mark_harvested(crawl, crawl.current);
    lemma_mark_harvested_wf(crawl.frontier, at);
    let marked = crawl.mark_harvested(crawl.current);
    lemma_absorb_wf(marked, links);
    lemma_absorb_grows(marked, links);
    if let Ok(filled) = marked.absorb(links) {
        lemma_advance_wf(filled);
        if filled.frontier.queued.len() > 0 {
            lemma_next_url_wf(filled.frontier);
            assert(url_path(filled.frontier.queued[0].url) == Some(filled.keys()[0]));
            assert(!filled.harvested().contains(filled.keys()[0]));
        }
    }
}

/// What the links of a page add to the queue are accepted links of the
/// page.
pub proof fn lemma_absorb_sources(crawl: Crawl, links: Seq<Seq<char>>)
    ensures
        crawl.absorb(links) matches Ok(next) ==> forall|j: int|
            crawl.frontier.queued.len() <= j < next.frontier.queued.len() ==> accepted(
                crawl.scope,
                links,
                #[trigger] next.urls()[j],
            ),
    decreases links.len(),
{
    if links.len() > 0 {
        let front = links.drop_last();
        lemma_absorb_sources(crawl, front);
        lemma_absorb_grows(crawl, front);
        if let Ok(before) = crawl.absorb(front) {
            if let Ok(next) = before.offer(links.last()) {
                assert forall|j: int|
                    crawl.frontier.queued.len() <= j < next.frontier.queued.len() implies accepted(
                    crawl.scope,
                    links,
                    #[trigger] next.urls()[j],
                ) by {
                    let url = next.urls()[j];
                    if j < before.frontier.queued.len() {
                        assert(before.urls()[j] == url);
                        let i = choose|i: int|
                            0 <= i < front.len() && normalize(#[trigger] front[i], crawl.scope)
                                == url;
                        assert(links[i] == front[i]);
                    } else {
                        assert(normalize(links[links.len() - 1], crawl.scope) == url);
                    }
                }
            }
        }
    }
}

/// What is pending after a cycle: the URLs that were queued and the
/// accepted links of the page, as far as their pages are not harvested, and
/// nothing else. Each of them is pending once: it is the URL to fetch next
/// or it is queued, not both, and the queue holds it once.
pub proof fn lemma_step_pending(crawl: Crawl, links: Seq<Seq<char>>, url: Seq<char>)
    requires
        crawl.wf(),
    ensures
        crawl.step(links) matches Ok(next) ==> {
            &&& next.pending(url) <==> (crawl.urls().contains(url) || accepted(
                crawl.scope,
                links,
                url,
            )) && !next.harvested().contains(url_path(url)->0)
            &&& next.pending(url) ==> (url == next.current) != next.urls().contains(url)
            &&& next.urls().contains(url) ==> holds_once(next.urls(), url)
        },
{
    let at = url_path(crawl.current)->0;
    lemma_crawl_mark_harvested(crawl, crawl.current);
    lemma_mark_harvested_wf(crawl.frontier, at);
    lemma_without_key(crawl.frontier.queued, at);
    let marked = crawl.mark_harvested(crawl.current);
    lemma_absorb_wf(marked, links);
    lemma_absorb_grows(marked, links);
    lemma_absorb_covers(marked, links);
    lemma_absorb_sources(marked, links);
    if let Ok(filled) = marked.absorb(links) {
        lemma_advance_wf(filled);
        lemma_next_url_wf(filled.frontier);
        let next = filled.advance();
        let key = url_path(url)->0;
        let sources = crawl.urls().contains(url) || accepted(crawl.scope, links, url);
        // Before the next URL is chosen, the queue holds what is pending after.
        assert(filled.urls().contains(url) ==> sources && !filled.harvested().contains(key)) by {
            if filled.urls().contains(url) {
                let j = choose|j: int| 0 <= j < filled.urls().len() && filled.urls()[j] == url;
                let pending = filled.frontier.queued[j];
                assert(url_path(pending.url) == Some(pending.key));
                assert(filled.keys()[j] == key);
                if j < marked.frontier.queued.len() {
                    assert(marked.frontier.queued[j] == pending);
                    let k = choose|k: int|
                        0 <= k < crawl.frontier.queued.len() && crawl.frontier.queued[k]
                            == pending;
                    assert(crawl.urls()[k] == url);
                } else {
                    assert(accepted(marked.scope, links, filled.urls()[j]));
                }
            }
        }
        assert(sources && !filled.harvested().contains(key) ==> filled.urls().contains(url)) by {
            if crawl.urls().contains(url) && !filled.harvested().contains(key) {
                let k = choose|k: int| 0 <= k < crawl.urls().len() && crawl.urls()[k] == url;
                let pending = crawl.frontier.queued[k];
                assert(url_path(pending.url) == Some(pending.key));
                assert(pending.key != at);
                assert(marked.frontier.queued.contains(pending));
                let j = choose|j: int|
                    0 <= j < marked.frontier.queued.len() && marked.frontier.queued[j]
                        == pending;
                assert(filled.frontier.queued[j] == pending);
                assert(filled.urls()[j] == url);
            }
            if accepted(crawl.scope, links, url) {
                let i = choose|i: int|
                    0 <= i < links.len() && normalize(#[trigger] links[i], crawl.scope) == url;
                assert(filled.is_found(url) == Some(true));
            }
        }
        assert(next.pending(url) <==> filled.urls().contains(url)) by {
            if filled.urls().contains(url) {
                let j = choose|j: int| 0 <= j < filled.urls().len() && filled.urls()[j] == url;
                if j > 0 {
                    assert(next.urls()[j - 1] == url);
                }
            }
            if next.urls().contains(url) {
                let j = choose|j: int| 0 <= j < next.urls().len() && next.urls()[j] == url;
                assert(filled.urls()[j + 1] == url);
            }
            if !next.finished && next.current == url {
                assert(filled.urls()[0] == url);
            }
        }
        if next.urls().contains(url) {
            let j = choose|j: int| 0 <= j < next.urls().len() && next.urls()[j] == url;
            assert(filled.urls()[j + 1] == url);
            assert(filled.urls()[0] != filled.urls()[j + 1]);
            lemma_queued_once(next, url, j);
        }
    }
}

/// What holds of every state that a crawl reaches from its seed, whatever
/// the pages hold. Harvested and queued are disjoint: no path key is both
/// harvested and the key of a queued URL. And the crawl goes on as long as
/// a page is left to fetch: it has finished exactly where the page of the
/// current URL is harvested, and then nothing is queued.
pub proof fn lemma_run_wf(seed: Seq<char>, pages: Seq<Seq<Seq<char>>>)
    ensures
        Crawl::start(seed) matches Some(first) ==> (first.run(pages) matches Ok(crawl) ==> {
            &&& crawl.wf()
            &&& forall|i: int|
                0 <= i < crawl.frontier.queued.len() ==> !crawl.harvested().contains(
                    url_path((#[trigger] crawl.frontier.queued[i]).url)->0,
                )
            &&& crawl.finished <==> crawl.harvested().contains(url_path(crawl.current)->0)
            &&& crawl.finished ==> crawl.frontier.queued.len() == 0
        }),
    decreases pages.len(),
{
    if let Some(first) = Crawl::start(seed) {
        assert(first.urls() =~= Seq::empty());
        if pages.len() > 0 {
            lemma_run_wf(seed, pages.drop_last());
            if let Ok(before) = first.run(pages.drop_last()) {
                lemma_step_wf(before, pages.last());
            }
        }
        if let Ok(crawl) = first.run(pages) {
            assert forall|i: int|
                0 <= i < crawl.frontier.queued.len() implies !crawl.harvested().contains(
                url_path((#[trigger] crawl.frontier.queued[i]).url)->0,
            ) by {
                assert(crawl.keys()[i] == crawl.frontier.queued[i].key);
            }
        }
    }
}

/// Offering a URL twice is offering it once: the second call changes
/// nothing, so the URL is counted as discovered at most once. After the
/// calls the queue holds the URL exactly once, unless it is no URL or the
/// path key of its page is harvested: then the queue does not hold it at
/// all.
pub proof fn lemma_enqueue_twice(crawl: Crawl, url: Seq<char>)
    requires
        crawl.wf(),
    ensures
        crawl.enqueue(url).enqueue(url) == crawl.enqueue(url),
        crawl.enqueue(url).frontier.found() == crawl.frontier.found() + (if crawl.is_found(url)
            == Some(false) {
            1nat
        } else {
            0nat
        }),
        (url_path(url) matches Some(key) && !crawl.harvested().contains(key)) ==> holds_once(
            crawl.enqueue(url).urls(),
            url,
        ),
        !(url_path(url) matches Some(key) && !crawl.harvested().contains(key)) ==> !crawl.enqueue(
            url,
        ).urls().contains(url),
{
    let once = crawl.enqueue(url);
    lemma_crawl_enqueue(crawl, url);
    match url_path(url) {
        Some(key) => {
            lemma_enqueue_again(crawl.frontier, url, key);
            if crawl.harvested().contains(key) && once.urls().contains(url) {
                let i = choose|i: int| 0 <= i < once.urls().len() && once.urls()[i] == url;
                assert(url_path(once.frontier.queued[i].url) == Some(once.frontier.queued[i].key));
                assert(once.keys()[i] == key);
            }
        },
        None => {
            if crawl.urls().contains(url) {
                let i = choose|i: int| 0 <= i < crawl.urls().len() && crawl.urls()[i] == url;
                assert(url_path(crawl.frontier.queued[i].url) is Some);
            }
        },
    }
}

/// In a well-formed state a queued URL stands in the queue once.
proof fn lemma_queued_once(crawl: Crawl, url: Seq<char>, i: int)
    requires
        crawl.wf(),
        0 <= i < crawl.frontier.queued.len(),
        crawl.urls()[i] == url,
    ensures
        holds_once(crawl.urls(), url),
{
    let urls = crawl.urls();
    assert forall|j: int| 0 <= j < urls.len() && #[trigger] urls[j] == url implies j == i by {}
}

} // verus!
