//! A crawl over a whole site, and why it ends.
//!
//! A site is taken as a function from the path key of a page to the raw
//! links on it. The keys that can be reached from the seed by following
//! accepted links form the site's reach. Where the reach is finite, the
//! crawl fetches each of its pages once, in as many cycles as it has keys,
//! and then finds the frontier exhausted.

use vstd::prelude::*;
use crate::crawl::{
    lemma_absorb_grows, lemma_advance_wf, lemma_crawl_enqueue, lemma_crawl_mark_harvested, Crawl,
};
use crate::frontier::{lemma_enqueue_wf, lemma_mark_harvested_wf, lemma_without_key};
use crate::link::normalize;
use crate::urls::url_path;

verus! {

/// The path key that the raw link `link` leads to in a crawl bounded by
/// `scope`; `None` where the link is rejected or is no URL.
pub open spec fn target(scope: Seq<char>, link: Seq<char>) -> Option<Seq<char>> {
    let url = normalize(link, scope);
    if url.len() == 0 {
        None
    } else {
        url_path(url)
    }
}

/// The raw link `link` is rejected, or is accepted as a URL.
pub open spec fn readable(scope: Seq<char>, link: Seq<char>) -> bool {
    normalize(link, scope).len() > 0 ==> url_path(normalize(link, scope)) is Some
}

/// The page of key `from` holds a link that leads to the page of key `to`.
pub open spec fn links_to(
    site: spec_fn(Seq<char>) -> Seq<Seq<char>>,
    scope: Seq<char>,
    from: Seq<char>,
    to: Seq<char>,
) -> bool {
    exists|i: int| 0 <= i < site(from).len() && target(scope, #[trigger] site(from)[i]) == Some(to)
}

/// `walk` is a way through the site: each of its keys is linked to from the
/// one in front of it.
pub open spec fn is_walk(
    site: spec_fn(Seq<char>) -> Seq<Seq<char>>,
    scope: Seq<char>,
    walk: Seq<Seq<char>>,
) -> bool {
    &&& walk.len() > 0
    &&& forall|i: int|
        0 < i < walk.len() ==> links_to(site, scope, walk[i - 1], #[trigger] walk[i])
}

/// The page of `key` can be reached from the page of `root` by following
/// accepted links.
pub open spec fn reachable(
    site: spec_fn(Seq<char>) -> Seq<Seq<char>>,
    scope: Seq<char>,
    root: Seq<char>,
    key: Seq<char>,
) -> bool {
    exists|walk: Seq<Seq<char>>|
        #[trigger] is_walk(site, scope, walk) && walk[0] == root && walk.last() == key
}

/// The reach of the site from `root`: the keys of all pages that can be
/// reached from there.
pub open spec fn reach(
    site: spec_fn(Seq<char>) -> Seq<Seq<char>>,
    scope: Seq<char>,
    root: Seq<char>,
) -> Set<Seq<char>> {
    Set::new(|key: Seq<char>| reachable(site, scope, root, key))
}

/// No page in the reach of the site holds an accepted link that is no URL.
pub open spec fn well_linked(
    site: spec_fn(Seq<char>) -> Seq<Seq<char>>,
    scope: Seq<char>,
    root: Seq<char>,
) -> bool {
    forall|key: Seq<char>, i: int|
        reachable(site, scope, root, key) && 0 <= i < site(key).len() ==> readable(
            scope,
            #[trigger] site(key)[i],
        )
}

/// The state of the crawl that began in `first` after `n` cycles over the
/// site, each on the page of the URL that was current; or the failure that
/// ended it.
pub open spec fn crawl_of(
    site: spec_fn(Seq<char>) -> Seq<Seq<char>>,
    first: Crawl,
    n: nat,
) -> Result<Crawl, Seq<char>>
    decreases n,
{
    if n == 0 {
        Ok(first)
    } else {
        match crawl_of(site, first, (n - 1) as nat) {
            Ok(crawl) => crawl.step(site(url_path(crawl.current)->0)),
            Err(url) => Err(url),
        }
    }
}

/// The crawl that began in `first` runs for `n` cycles over the site and
/// then has finished, with nothing queued and exactly the reach fetched.
pub open spec fn ends_at(
    site: spec_fn(Seq<char>) -> Seq<Seq<char>>,
    scope: Seq<char>,
    root: Seq<char>,
    first: Crawl,
    n: nat,
) -> bool {
    &&& forall|m: nat|
        m < n ==> (#[trigger] crawl_of(site, first, m) matches Ok(early) && !early.finished)
    &&& crawl_of(site, first, n) matches Ok(last) && {
        &&& last.finished
        &&& last.frontier.queued.len() == 0
        &&& last.frontier.completed() == n
        &&& last.harvested().to_set() == reach(site, scope, root)
    }
}

/// What holds of a crawl over the site between two cycles, after `n` of
/// them: the page of the current URL is in the reach and not fetched,
/// everything fetched or queued is in the reach, the root is
/// fetched or about to be, and every link of a fetched page leads to a page
/// that is fetched, queued or current.
spec fn on_course(
    site: spec_fn(Seq<char>) -> Seq<Seq<char>>,
    scope: Seq<char>,
    root: Seq<char>,
    crawl: Crawl,
    n: nat,
) -> bool {
    let at = url_path(crawl.current)->0;
    &&& crawl.wf()
    &&& crawl.scope == scope
    &&& !crawl.finished
    &&& crawl.harvested().len() == n
    &&& !crawl.harvested().contains(at)
    &&& reachable(site, scope, root, at)
    &&& crawl.harvested().contains(root) || root == at
    &&& forall|key: Seq<char>| crawl.covers(key) ==> reachable(site, scope, root, key)
    &&& forall|from: Seq<char>, to: Seq<char>|
        crawl.harvested().contains(from) && #[trigger] links_to(site, scope, from, to)
            ==> crawl.covers(to) || to == at
}

/// What holds of a crawl over the site once it has finished, after `n`
/// cycles: everything fetched is in the reach, the root is fetched, and
/// every link of a fetched page leads to a fetched page.
spec fn arrived(
    site: spec_fn(Seq<char>) -> Seq<Seq<char>>,
    scope: Seq<char>,
    root: Seq<char>,
    crawl: Crawl,
    n: nat,
) -> bool {
    &&& crawl.wf()
    &&& crawl.finished
    &&& crawl.frontier.queued.len() == 0
    &&& crawl.harvested().len() == n
    &&& crawl.harvested().contains(root)
    &&& forall|key: Seq<char>|
        crawl.harvested().contains(key) ==> reachable(site, scope, root, key)
    &&& forall|from: Seq<char>, to: Seq<char>|
        crawl.harvested().contains(from) && #[trigger] links_to(site, scope, from, to)
            ==> crawl.harvested().contains(to)
}

/// A walk can be followed one link further.
proof fn lemma_reachable_next(
    site: spec_fn(Seq<char>) -> Seq<Seq<char>>,
    scope: Seq<char>,
    root: Seq<char>,
    from: Seq<char>,
    to: Seq<char>,
)
    requires
        reachable(site, scope, root, from),
        links_to(site, scope, from, to),
    ensures
        reachable(site, scope, root, to),
{
    let walk = choose|walk: Seq<Seq<char>>|
        #[trigger] is_walk(site, scope, walk) && walk[0] == root && walk.last() == from;
    let longer = walk.push(to);
    assert forall|i: int| 0 < i < longer.len() implies links_to(
        site,
        scope,
        longer[i - 1],
        #[trigger] longer[i],
    ) by {
        if i < walk.len() {
            assert(links_to(site, scope, walk[i - 1], walk[i]));
        }
    }
    assert(is_walk(site, scope, longer) && longer[0] == root && longer.last() == to);
}

/// The root is in its own reach.
proof fn lemma_reachable_root(
    site: spec_fn(Seq<char>) -> Seq<Seq<char>>,
    scope: Seq<char>,
    root: Seq<char>,
)
    ensures
        reachable(site, scope, root, root),
{
    let walk = seq![root];
    assert(is_walk(site, scope, walk) && walk[0] == root && walk.last() == root);
}

/// A set of keys that holds the first key of a walk, and with a key every
/// key it links to, holds the whole walk.
proof fn lemma_walk_stays(
    site: spec_fn(Seq<char>) -> Seq<Seq<char>>,
    scope: Seq<char>,
    held: Seq<Seq<char>>,
    walk: Seq<Seq<char>>,
    i: int,
)
    requires
        is_walk(site, scope, walk),
        held.contains(walk[0]),
        forall|from: Seq<char>, to: Seq<char>|
            held.contains(from) && #[trigger] links_to(site, scope, from, to) ==> held.contains(to),
        0 <= i < walk.len(),
    ensures
        held.contains(walk[i]),
    decreases i,
{
    if i > 0 {
        lemma_walk_stays(site, scope, held, walk, i - 1);
        assert(links_to(site, scope, walk[i - 1], walk[i]));
    }
}

/// After the links of a page were absorbed, each of them leads to a covered
/// page, and what is queued was queued before or is led to by one of them.
proof fn lemma_absorb_reaches(crawl: Crawl, links: Seq<Seq<char>>)
    requires
        crawl.wf(),
        forall|i: int| 0 <= i < links.len() ==> readable(crawl.scope, #[trigger] links[i]),
    ensures
        crawl.absorb(links) matches Ok(next) && {
            &&& next.wf()
            &&& next.scope == crawl.scope
            &&& next.current == crawl.current
            &&& next.harvested() == crawl.harvested()
            &&& forall|key: Seq<char>| crawl.keys().contains(key) ==> next.keys().contains(key)
            &&& forall|i: int|
                0 <= i < links.len() ==> (target(crawl.scope, #[trigger] links[i]) matches Some(key)
                    ==> next.covers(key))
            &&& forall|key: Seq<char>|
                next.keys().contains(key) ==> crawl.keys().contains(key) || exists|i: int|
                    0 <= i < links.len() && target(crawl.scope, #[trigger] links[i]) == Some(key)
        },
    decreases links.len(),
{
    if links.len() > 0 {
        let front = links.drop_last();
        let link = links.last();
        assert forall|i: int| 0 <= i < front.len() implies readable(
            crawl.scope,
            #[trigger] front[i],
        ) by {
            assert(front[i] == links[i]);
        }
        lemma_absorb_reaches(crawl, front);
        let before = crawl.absorb(front)->Ok_0;
        assert(readable(crawl.scope, links[links.len() - 1]));
        let next = before.offer(link)->Ok_0;
        let url = normalize(link, crawl.scope);
        lemma_crawl_enqueue(before, url);
        if let Some(key) = url_path(url) {
            lemma_enqueue_wf(before.frontier, url, key);
        }
        assert forall|key: Seq<char>| before.keys().contains(key) implies next.keys().contains(
            key,
        ) by {
            let j = choose|j: int| 0 <= j < before.keys().len() && before.keys()[j] == key;
            if next.frontier.queued.len() > before.frontier.queued.len() {
                assert(next.keys()[j] == key);
            }
        }
        assert forall|i: int| 0 <= i < links.len() implies (target(
            crawl.scope,
            #[trigger] links[i],
        ) matches Some(key) ==> next.covers(key)) by {
            if let Some(key) = target(crawl.scope, links[i]) {
                if i < front.len() {
                    assert(front[i] == links[i]);
                    assert(before.covers(key));
                } else if before.frontier.known(url, key) {
                    if before.urls().contains(url) {
                        let j = choose|j: int|
                            0 <= j < before.urls().len() && before.urls()[j] == url;
                        assert(before.frontier.queued[j].url == url);
                        assert(before.keys()[j] == key);
                    }
                } else {
                    assert(next.frontier == before.frontier.enqueue(url, key));
                    assert(next.keys()[before.frontier.queued.len() as int] == key);
                }
                assert(next.harvested().contains(key) || next.keys().contains(key));
            }
        }
        assert forall|key: Seq<char>| next.keys().contains(key) implies crawl.keys().contains(key)
            || exists|i: int|
            0 <= i < links.len() && target(crawl.scope, #[trigger] links[i]) == Some(key) by {
            let j = choose|j: int| 0 <= j < next.keys().len() && next.keys()[j] == key;
            if j < before.keys().len() {
                assert(before.keys()[j] == key);
                assert(before.keys().contains(key));
                if !crawl.keys().contains(key) {
                    let i = choose|i: int|
                        0 <= i < front.len() && target(crawl.scope, #[trigger] front[i]) == Some(
                            key,
                        );
                    assert(links[i] == front[i]);
                }
            } else {
                assert(target(crawl.scope, links[links.len() - 1]) == Some(key));
            }
        }
    }
}

/// What holds of a crawl over the site in the middle of a cycle, once the
/// page was marked and its links were absorbed: as `arrived`, but for what
/// is still queued.
spec fn gathered(
    site: spec_fn(Seq<char>) -> Seq<Seq<char>>,
    scope: Seq<char>,
    root: Seq<char>,
    crawl: Crawl,
    n: nat,
) -> bool {
    &&& crawl.wf()
    &&& crawl.scope == scope
    &&& crawl.harvested().len() == n
    &&& crawl.harvested().contains(root)
    &&& forall|key: Seq<char>| crawl.covers(key) ==> reachable(site, scope, root, key)
    &&& forall|from: Seq<char>, to: Seq<char>|
        crawl.harvested().contains(from) && #[trigger] links_to(site, scope, from, to)
            ==> crawl.covers(to)
}

/// Marking the current page of a crawl that is on course harvests its key
/// and takes out of the queue the URLs of that key and no others.
proof fn lemma_cycle_marks(
    site: spec_fn(Seq<char>) -> Seq<Seq<char>>,
    scope: Seq<char>,
    root: Seq<char>,
    crawl: Crawl,
    n: nat,
)
    requires
        on_course(site, scope, root, crawl, n),
    ensures
        ({
            let at = url_path(crawl.current)->0;
            let marked = crawl.mark_harvested(crawl.current);
            &&& marked.wf()
            &&& marked.scope == scope
            &&& marked.harvested() == crawl.harvested().push(at)
            &&& forall|key: Seq<char>|
                marked.harvested().contains(key) <==> crawl.harvested().contains(key) || key == at
            &&& forall|key: Seq<char>|
                marked.keys().contains(key) <==> crawl.keys().contains(key) && key != at
        }),
{
    let at = url_path(crawl.current)->0;
    lemma_crawl_mark_harvested(crawl, crawl.current);
    lemma_mark_harvested_wf(crawl.frontier, at);
    lemma_without_key(crawl.frontier.queued, at);
    let marked = crawl.mark_harvested(crawl.current);
    assert forall|key: Seq<char>| marked.harvested().contains(key) <==> crawl.harvested().contains(
        key,
    ) || key == at by {
        if marked.harvested().contains(key) {
            let j = choose|j: int|
                0 <= j < marked.harvested().len() && marked.harvested()[j] == key;
            if j < n {
                assert(crawl.harvested()[j] == key);
            }
        }
        if crawl.harvested().contains(key) {
            let j = choose|j: int| 0 <= j < crawl.harvested().len() && crawl.harvested()[j] == key;
            assert(marked.harvested()[j] == key);
        }
        if key == at {
            assert(marked.harvested()[n as int] == key);
        }
    }
    assert forall|key: Seq<char>| marked.keys().contains(key) <==> crawl.keys().contains(key)
        && key != at by {
        if marked.keys().contains(key) {
            let j = choose|j: int| 0 <= j < marked.keys().len() && marked.keys()[j] == key;
            let pending = marked.frontier.queued[j];
            let k = choose|k: int|
                0 <= k < crawl.frontier.queued.len() && crawl.frontier.queued[k] == pending;
            assert(crawl.keys()[k] == key);
        }
        if crawl.keys().contains(key) && key != at {
            let k = choose|k: int| 0 <= k < crawl.keys().len() && crawl.keys()[k] == key;
            let pending = crawl.frontier.queued[k];
            assert(pending.key != at);
            let j = choose|j: int|
                0 <= j < marked.frontier.queued.len() && marked.frontier.queued[j] == pending;
            assert(marked.keys()[j] == key);
        }
    }
}

/// Marking the current page of a crawl that is on course and absorbing its
/// links succeeds, and leaves the page of every link of a fetched page
/// covered.
proof fn lemma_cycle_gathers(
    site: spec_fn(Seq<char>) -> Seq<Seq<char>>,
    scope: Seq<char>,
    root: Seq<char>,
    crawl: Crawl,
    n: nat,
)
    requires
        on_course(site, scope, root, crawl, n),
        well_linked(site, scope, root),
    ensures
        crawl.mark_harvested(crawl.current).absorb(site(url_path(crawl.current)->0)) matches Ok(
            filled,
        ) && gathered(site, scope, root, filled, n + 1) && !filled.finished,
{
    let at = url_path(crawl.current)->0;
    let links = site(at);
    lemma_cycle_marks(site, scope, root, crawl, n);
    let marked = crawl.mark_harvested(crawl.current);
    assert forall|i: int| 0 <= i < links.len() implies readable(
        marked.scope,
        #[trigger] links[i],
    ) by {
        assert(readable(scope, site(at)[i]));
    }
    lemma_absorb_reaches(marked, links);
    lemma_absorb_grows(marked, links);
    let filled = marked.absorb(links)->Ok_0;
    assert forall|key: Seq<char>| filled.covers(key) implies reachable(site, scope, root, key) by {
        if filled.harvested().contains(key) {
            assert(marked.harvested().contains(key));
            if key != at {
                assert(crawl.covers(key));
            }
        } else {
            assert(filled.keys().contains(key));
            if marked.keys().contains(key) {
                assert(crawl.covers(key));
            } else {
                let i = choose|i: int|
                    0 <= i < links.len() && target(marked.scope, #[trigger] links[i]) == Some(key);
                assert(target(scope, site(at)[i]) == Some(key));
                assert(links_to(site, scope, at, key));
                lemma_reachable_next(site, scope, root, at, key);
            }
        }
    }
    assert forall|from: Seq<char>, to: Seq<char>|
        filled.harvested().contains(from) && #[trigger] links_to(
            site,
            scope,
            from,
            to,
        ) implies filled.covers(to) by {
        assert(marked.harvested().contains(from));
        if from == at {
            let i = choose|i: int|
                0 <= i < site(at).len() && target(scope, #[trigger] site(at)[i]) == Some(to);
            assert(target(marked.scope, links[i]) == Some(to));
        } else {
            assert(crawl.harvested().contains(from));
            if to == at {
                assert(marked.harvested().contains(to));
            } else {
                assert(crawl.covers(to));
                if crawl.harvested().contains(to) {
                    assert(marked.harvested().contains(to));
                } else {
                    assert(marked.keys().contains(to));
                }
            }
        }
    }
    assert(filled.harvested().contains(root)) by {
        assert(marked.harvested().contains(root));
    }
}

/// Choosing the next URL after the links were gathered puts the crawl on
/// course again, or finds it arrived.
proof fn lemma_cycle_advances(
    site: spec_fn(Seq<char>) -> Seq<Seq<char>>,
    scope: Seq<char>,
    root: Seq<char>,
    filled: Crawl,
    n: nat,
)
    requires
        gathered(site, scope, root, filled, n),
    ensures
        if filled.advance().finished {
            arrived(site, scope, root, filled.advance(), n)
        } else {
            on_course(site, scope, root, filled.advance(), n)
        },
{
    lemma_advance_wf(filled);
    let next = filled.advance();
    if filled.frontier.queued.len() > 0 {
        let first = filled.keys()[0];
        assert(filled.keys().contains(first));
        assert(url_path(next.current) == Some(first));
        assert(next.keys() =~= filled.keys().drop_first());
        assert forall|key: Seq<char>| next.keys().contains(key) implies filled.keys().contains(
            key,
        ) by {
            let j = choose|j: int| 0 <= j < next.keys().len() && next.keys()[j] == key;
            assert(filled.keys()[j + 1] == key);
        }
        assert forall|key: Seq<char>| filled.keys().contains(key) implies next.keys().contains(
            key,
        ) || key == first by {
            let j = choose|j: int| 0 <= j < filled.keys().len() && filled.keys()[j] == key;
            if j > 0 {
                assert(next.keys()[j - 1] == key);
            }
        }
        assert(!next.harvested().contains(first)) by {
            assert(!filled.harvested().contains(filled.keys()[0]));
        }
        assert forall|key: Seq<char>|
            next.covers(key) implies reachable(site, scope, root, key) by {
            assert(filled.covers(key));
        }
        assert(reachable(site, scope, root, first)) by {
            assert(filled.covers(first));
        }
        assert forall|from: Seq<char>, to: Seq<char>|
            next.harvested().contains(from) && #[trigger] links_to(
                site,
                scope,
                from,
                to,
            ) implies next.covers(to) || to == first by {
            assert(filled.covers(to));
        }
    } else {
        assert forall|key: Seq<char>| !filled.keys().contains(key) by {
            if filled.keys().contains(key) {
                let j = choose|j: int| 0 <= j < filled.keys().len() && filled.keys()[j] == key;
            }
        }
        assert forall|key: Seq<char>| next.harvested().contains(key) implies reachable(
            site,
            scope,
            root,
            key,
        ) by {
            assert(filled.covers(key));
        }
        assert forall|from: Seq<char>, to: Seq<char>|
            next.harvested().contains(from) && #[trigger] links_to(
                site,
                scope,
                from,
                to,
            ) implies next.harvested().contains(to) by {
            assert(filled.covers(to));
        }
    }
}

/// One cycle of a crawl that is on course leaves it on course or arrived.
proof fn lemma_cycle(
    site: spec_fn(Seq<char>) -> Seq<Seq<char>>,
    scope: Seq<char>,
    root: Seq<char>,
    crawl: Crawl,
    n: nat,
)
    requires
        on_course(site, scope, root, crawl, n),
        well_linked(site, scope, root),
    ensures
        crawl.step(site(url_path(crawl.current)->0)) matches Ok(next) && (if next.finished {
            arrived(site, scope, root, next, n + 1)
        } else {
            on_course(site, scope, root, next, n + 1)
        }),
{
    lemma_cycle_gathers(site, scope, root, crawl, n);
    let filled = crawl.mark_harvested(crawl.current).absorb(site(url_path(crawl.current)->0))->Ok_0;
    lemma_cycle_advances(site, scope, root, filled, n + 1);
}

/// What a crawl that has arrived has fetched is the reach of the site.
proof fn lemma_arrived_is_reach(
    site: spec_fn(Seq<char>) -> Seq<Seq<char>>,
    scope: Seq<char>,
    root: Seq<char>,
    crawl: Crawl,
    n: nat,
)
    requires
        arrived(site, scope, root, crawl, n),
    ensures
        crawl.harvested().to_set() == reach(site, scope, root),
{
    assert forall|key: Seq<char>|
        reachable(site, scope, root, key) implies crawl.harvested().contains(key) by {
        let walk = choose|walk: Seq<Seq<char>>|
            #[trigger] is_walk(site, scope, walk) && walk[0] == root && walk.last() == key;
        lemma_walk_stays(site, scope, crawl.harvested(), walk, walk.len() - 1);
    }
    assert(crawl.harvested().to_set() =~= reach(site, scope, root));
}

/// A crawl that is on course after `n` cycles arrives after as many cycles
/// as the reach has keys.
proof fn lemma_course_ends(
    site: spec_fn(Seq<char>) -> Seq<Seq<char>>,
    scope: Seq<char>,
    root: Seq<char>,
    first: Crawl,
    crawl: Crawl,
    n: nat,
)
    requires
        reach(site, scope, root).finite(),
        well_linked(site, scope, root),
        crawl_of(site, first, n) == Ok::<Crawl, Seq<char>>(crawl),
        on_course(site, scope, root, crawl, n),
        forall|m: nat|
            m < n ==> (#[trigger] crawl_of(site, first, m) matches Ok(early) && !early.finished),
    ensures
        n < reach(site, scope, root).len(),
        ends_at(site, scope, root, first, reach(site, scope, root).len()),
    decreases reach(site, scope, root).len() - n,
{
    let all = reach(site, scope, root);
    lemma_cycle(site, scope, root, crawl, n);
    let next = crawl.step(site(url_path(crawl.current)->0))->Ok_0;
    assert(crawl_of(site, first, n + 1) == Ok::<Crawl, Seq<char>>(next));
    // The keys fetched so far are that many keys of the reach.
    assert(next.harvested().to_set().subset_of(all)) by {
        assert forall|key: Seq<char>| next.harvested().to_set().contains(key) implies all.contains(
            key,
        ) by {
            if next.finished {
            } else {
                assert(next.covers(key));
            }
        }
    }
    next.harvested().unique_seq_to_set();
    vstd::set_lib::lemma_len_subset(next.harvested().to_set(), all);
    assert forall|m: nat| m < n + 1 implies (#[trigger] crawl_of(site, first, m) matches Ok(early)
        && !early.finished) by {
        if m == n {
        }
    }
    if next.finished {
        lemma_arrived_is_reach(site, scope, root, next, n + 1);
    } else {
        lemma_course_ends(site, scope, root, first, next, n + 1);
    }
}

/// A crawl over a site of finite reach ends, with exactly the reach
/// fetched.
///
/// Let the page of each path key hold the raw links `site(key)`, let the
/// crawl start at `seed`, and let the keys that can be reached from the
/// seed's be finitely many, none of their pages holding an accepted link
/// that is no URL. Then the crawl finishes after as many cycles as there
/// are such keys, and not before; it then has nothing queued, and the keys
/// it has harvested are exactly those that can be reached.
pub proof fn lemma_crawl_ends(site: spec_fn(Seq<char>) -> Seq<Seq<char>>, seed: Seq<char>)
    requires
        Crawl::start(seed) matches Some(first) && {
            &&& reach(site, first.scope, url_path(seed)->0).finite()
            &&& well_linked(site, first.scope, url_path(seed)->0)
        },
    ensures
        Crawl::start(seed) matches Some(first) && ends_at(
            site,
            first.scope,
            url_path(seed)->0,
            first,
            reach(site, first.scope, url_path(seed)->0).len(),
        ),
{
    let first = Crawl::start(seed)->0;
    let root = url_path(seed)->0;
    lemma_reachable_root(site, first.scope, root);
    assert(first.urls() =~= Seq::empty());
    assert(first.keys() =~= Seq::empty());
    assert(on_course(site, first.scope, root, first, 0));
    lemma_course_ends(site, first.scope, root, first, first, 0);
}

} // verus!
