//! The crawler's state as it runs, and one cycle of the crawl.
//!
//! A `Spider` is made from a seed URL and then moved from page to page: its
//! owner fetches the page of `domain()`, hands the body to `crawl`, and goes
//! on until `finished()`. Fetching is the owner's business; everything that
//! is decided is decided here.

use vstd::prelude::*;
use crate::crawl::{
    lemma_absorb_fails, lemma_advance_wf, lemma_crawl_enqueue, lemma_crawl_mark_harvested,
    lemma_crawl_next_url, Crawl,
};
use crate::frontier::Frontier;
use crate::link::format_link;
use crate::page::{anchor_links, image_links, parsable, parse_a, parse_img};
use crate::text::position;
use crate::urls::{get_scope, harvest, url_path, InvalidUrl};

verus! {

/// A crawl in progress.
#[derive(Debug)]
pub struct Spider {
    scope: String,
    domain: String,
    frontier: Frontier,
    finished: bool,
}

impl View for Spider {
    type V = Crawl;

    closed spec fn view(&self) -> Crawl {
        Crawl {
            scope: self.scope@,
            current: self.domain@,
            frontier: self.frontier@,
            finished: self.finished,
        }
    }
}

/// The raw links that one cycle looks at on the page `body`: those of its
/// anchors and, where images count, those of its images behind them.
pub open spec fn page_links(body: Seq<char>, images: bool) -> Seq<Seq<char>> {
    if images {
        anchor_links(body) + image_links(body)
    } else {
        anchor_links(body)
    }
}

/// Whether the command line `args` leaves images switched on: it holds
/// neither `--noimage` nor `-n`.
pub open spec fn images_wanted(args: Seq<Seq<char>>) -> bool {
    !args.contains("--noimage"@) && !args.contains("-n"@)
}

/// Whether a crawl started with the arguments `args` follows the sources of
/// images as well as the targets of anchors.
pub fn wants_images(args: &Vec<String>) -> (wanted: bool)
    ensures
        wanted == images_wanted(args.deep_view()),
{
    let long = "--noimage".to_owned();
    let short = "-n".to_owned();
    position(args, &long).is_none() && position(args, &short).is_none()
}

impl Spider {
    /// The spider keeps its books in order: its frontier does, and its state
    /// is well formed.
    pub closed spec fn wf(&self) -> bool {
        &&& self.frontier.wf()
        &&& self@.wf()
    }

    /// A well-formed spider is in a well-formed state.
    pub proof fn lemma_wf(&self)
        requires
            self.wf(),
        ensures
            self@.wf(),
    {
    }

    /// A spider for the crawl that starts at `domain`, which is also the
    /// first URL to fetch. Its scope is `get_scope(domain)`, the origin of
    /// the seed. Fails where `domain` is no URL.
    pub fn spawn(domain: String) -> (r: Result<Spider, InvalidUrl>)
        ensures
            match r {
                Ok(spider) => spider.wf() && Crawl::start(domain@) == Some(spider@),
                Err(e) => Crawl::start(domain@) is None && e.url@ == domain@,
            },
    {
        let scope = match get_scope(domain.as_str()) {
            Ok(scope) => scope,
            Err(e) => {
                return Err(e);
            },
        };
        match harvest(domain.as_str()) {
            Ok(_) => {
                let spider = Spider { scope, domain, frontier: Frontier::new(), finished: false };
                proof {
                    assert(spider@.urls() =~= Seq::empty());
                }
                Ok(spider)
            },
            Err(e) => Err(e),
        }
    }

    /// The scope of the crawl.
    pub fn scope(&self) -> (scope: &str)
        ensures
            scope@ == self@.scope,
    {
        self.scope.as_str()
    }

    /// The URL to fetch next; once the crawl has finished, the last one
    /// fetched.
    pub fn domain(&self) -> (domain: &str)
        ensures
            domain@ == self@.current,
    {
        self.domain.as_str()
    }

    /// What has been fetched and what is waiting.
    pub fn frontier(&self) -> (frontier: &Frontier)
        requires
            self.wf(),
        ensures
            frontier.wf(),
            frontier@ == self@.frontier,
    {
        &self.frontier
    }

    /// The path keys of the pages fetched so far, in that order.
    pub fn harvested(&self) -> (keys: &Vec<String>)
        ensures
            keys.deep_view() == self@.harvested(),
    {
        self.frontier.harvested()
    }

    /// The URLs waiting to be fetched, the next one first.
    pub fn queued(&self) -> (urls: &Vec<String>)
        ensures
            urls.deep_view() == self@.frontier.urls(),
    {
        self.frontier.queued()
    }

    /// Every URL that ever entered the queue, in the order of discovery.
    pub fn discovered(&self) -> (urls: &Vec<String>)
        ensures
            urls.deep_view() == self@.frontier.discovered,
    {
        self.frontier.discovered()
    }

    /// How many pages have been fetched.
    pub fn done(&self) -> (count: usize)
        ensures
            count == self@.frontier.completed(),
    {
        self.frontier.done()
    }

    /// How many URLs have entered the queue since the start.
    pub fn found(&self) -> (count: usize)
        ensures
            count == self@.frontier.found(),
    {
        self.frontier.found()
    }

    /// Whether the last cycle found the frontier exhausted.
    pub fn finished(&self) -> (finished: bool)
        ensures
            finished == self@.finished,
    {
        self.finished
    }

    /// Whether `host` is known: the path key of its page is harvested, or
    /// the URL itself is queued. Fails where `host` is no URL.
    pub fn is_found(&self, host: &str) -> (r: Result<bool, InvalidUrl>)
        ensures
            match r {
                Ok(known) => self@.is_found(host@) == Some(known),
                Err(e) => self@.is_found(host@) is None && e.url@ == host@,
            },
    {
        match harvest(host) {
            Ok(key) => Ok(self.frontier.is_known(&host.to_owned(), &key)),
            Err(e) => Err(e),
        }
    }

    /// Offers `url` to the queue. It is appended, and counted as discovered,
    /// where it is not known yet (`is_found`); `Ok` tells whether it was.
    /// Fails, and changes nothing, where `url` is no URL.
    pub fn enqueue(&mut self, url: String) -> (r: Result<bool, InvalidUrl>)
        requires
            old(self).wf(),
        ensures
            final(self).wf(),
            final(self)@ == old(self)@.enqueue(url@),
            match r {
                Ok(added) => old(self)@.is_found(url@) == Some(!added),
                Err(e) => old(self)@.is_found(url@) is None && e.url@ == url@,
            },
    {
        match harvest(url.as_str()) {
            Ok(key) => {
                proof {
                    lemma_crawl_enqueue(self@, url@);
                }
                Ok(self.frontier.enqueue(url, key))
            },
            Err(e) => Err(e),
        }
    }

    /// Records that the page of `url` was fetched: its path key is
    /// harvested, and every URL queued under that key leaves the queue. `Ok`
    /// tells whether the key is new among the harvested. Fails, and changes
    /// nothing, where `url` is no URL.
    pub fn mark_harvested(&mut self, url: &str) -> (r: Result<bool, InvalidUrl>)
        requires
            old(self).wf(),
        ensures
            final(self).wf(),
            final(self)@ == old(self)@.mark_harvested(url@),
            match r {
                Ok(fresh) => url_path(url@) matches Some(key) && fresh == !old(
                    self,
                )@.harvested().contains(key),
                Err(e) => url_path(url@) is None && e.url@ == url@,
            },
    {
        match harvest(url) {
            Ok(key) => {
                proof {
                    lemma_crawl_mark_harvested(self@, url@);
                }
                Ok(self.frontier.mark_harvested(key))
            },
            Err(e) => Err(e),
        }
    }

    /// Takes the first URL out of the queue. `None`, and no change, where the
    /// queue is empty.
    pub fn next_url(&mut self) -> (next: Option<String>)
        requires
            old(self).wf(),
        ensures
            final(self).wf(),
            final(self)@ == old(self)@.next_url(),
            match next {
                Some(url) => old(self)@.frontier.queued.len() > 0 && url@ == old(
                    self,
                )@.frontier.queued[0].url,
                None => old(self)@.frontier.queued.len() == 0,
            },
    {
        proof {
            lemma_crawl_next_url(self@);
        }
        self.frontier.next_url()
    }

    /// Looks at the raw links of a page one after the other: each is
    /// normalized against the scope and, where it is accepted, offered to the
    /// queue. Fails at the first accepted link that is no URL.
    pub fn absorb(self, links: &Vec<String>) -> (r: Result<Spider, InvalidUrl>)
        requires
            self.wf(),
        ensures
            match r {
                Ok(spider) => spider.wf() && self@.absorb(links.deep_view()) == Ok::<
                    Crawl,
                    Seq<char>,
                >(spider@),
                Err(e) => self@.absorb(links.deep_view()) == Err::<Crawl, Seq<char>>(e.url@),
            },
    {
        let ghost first = self@;
        let ghost all = links.deep_view();
        let mut spider = self;
        let mut i: usize = 0;
        while i < links.len()
            invariant
                i <= links.len(),
                all == links.deep_view(),
                first == self@,
                spider.wf(),
                first.absorb(all.take(i as int)) == Ok::<Crawl, Seq<char>>(spider@),
            decreases links.len() - i,
        {
            proof {
                assert(all.take(i + 1).drop_last() =~= all.take(i as int));
                assert(all.take(i + 1).last() == links[i as int]@);
            }
            let url = format_link(links[i].as_str(), spider.scope.as_str());
            let ghost before = spider@;
            if !url.as_str().is_empty() {
                match spider.enqueue(url) {
                    Ok(_) => {},
                    Err(e) => {
                        proof {
                            let failure = Err::<Crawl, Seq<char>>(e.url@);
                            assert(before.offer(links[i as int]@) == failure);
                            assert(first.absorb(all.take(i + 1)) == failure);
                            lemma_absorb_fails(first, all, i + 1);
                        }
                        return Err(e);
                    },
                }
            }
            i += 1;
        }
        proof {
            assert(all.take(i as int) =~= all);
        }
        Ok(spider)
    }

    /// One cycle of the crawl, for the raw links `links` found on the page of
    /// `domain()`: the page is marked harvested, the links are absorbed, and
    /// the first queued URL becomes the next to fetch. Where nothing is
    /// queued the crawl has finished. Fails at the first accepted link that
    /// is no URL.
    pub fn step(self, links: &Vec<String>) -> (r: Result<Spider, InvalidUrl>)
        requires
            self.wf(),
        ensures
            match r {
                Ok(spider) => spider.wf() && self@.step(links.deep_view()) == Ok::<
                    Crawl,
                    Seq<char>,
                >(spider@),
                Err(e) => self@.step(links.deep_view()) == Err::<Crawl, Seq<char>>(e.url@),
            },
    {
        let mut spider = self;
        let current = spider.domain.clone();
        let marked = spider.mark_harvested(current.as_str());
        assert(marked is Ok);
        match spider.absorb(links) {
            Ok(filled) => {
                let mut spider = filled;
                proof {
                    lemma_advance_wf(spider@);
                }
                let ghost before = spider@;
                match spider.next_url() {
                    Some(url) => {
                        spider.domain = url;
                        spider.finished = false;
                    },
                    None => {
                        spider.finished = true;
                    },
                }
                proof {
                    assert(spider@ == before.advance());
                }
                Ok(spider)
            },
            Err(e) => Err(e),
        }
    }

    /// One cycle of the crawl, for the page `body` fetched from `domain()`:
    /// `step` on the raw links of the page, those of its anchors and, where
    /// `images` is set, those of its images. The page is no longer than
    /// `MAX_BODY` bytes.
    pub fn crawl(self, body: &str, images: bool) -> (r: Result<Spider, InvalidUrl>)
        requires
            self.wf(),
            parsable(body),
        ensures
            match r {
                Ok(spider) => spider.wf() && self@.step(page_links(body@, images)) == Ok::<
                    Crawl,
                    Seq<char>,
                >(spider@),
                Err(e) => self@.step(page_links(body@, images)) == Err::<Crawl, Seq<char>>(e.url@),
            },
    {
        let mut links = parse_a(body);
        if images {
            let ghost anchors = links.deep_view();
            let mut sources = parse_img(body);
            links.append(&mut sources);
            proof {
                assert(links.deep_view() =~= anchors + image_links(body@));
            }
        }
        self.step(&links)
    }
}

} // verus!
