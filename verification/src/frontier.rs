//! The frontier of a crawl: what has been fetched and what is waiting.
//!
//! A page is remembered under a key. The frontier holds the keys of the
//! pages fetched so far (`harvested`) and the URLs waiting to be fetched,
//! each with the key of its page (`queued`, the next one first). A URL is
//! known once the key of its page is harvested or the URL itself is queued;
//! only unknown URLs enter the queue, and fetching a page takes every URL
//! of its key out of the queue.
//!
//! Nothing here reads a URL: the key comes with it. `Spider` supplies the
//! path of the URL as the key.

use vstd::prelude::*;
use crate::text::position;

verus! {

/// A URL waiting to be fetched, with the key of its page.
pub struct Pending {
    pub url: Seq<char>,
    pub key: Seq<char>,
}

/// The frontier as a mathematical value.
pub struct FrontierView {
    /// The keys of the pages fetched so far, in that order.
    pub harvested: Seq<Seq<char>>,
    /// What is waiting to be fetched, the next one first.
    pub queued: Seq<Pending>,
    /// Every URL that ever entered the queue, in the order of discovery.
    pub discovered: Seq<Seq<char>>,
}

impl FrontierView {
    /// The frontier of a crawl that has not begun.
    pub open spec fn empty() -> FrontierView {
        FrontierView { harvested: Seq::empty(), queued: Seq::empty(), discovered: Seq::empty() }
    }

    /// The queued URLs, in the order of the queue.
    pub open spec fn urls(self) -> Seq<Seq<char>> {
        self.queued.map_values(|pending: Pending| pending.url)
    }

    /// The keys of the queued URLs, in the order of the queue.
    pub open spec fn keys(self) -> Seq<Seq<char>> {
        self.queued.map_values(|pending: Pending| pending.key)
    }

    /// How many pages have been fetched.
    pub open spec fn completed(self) -> nat {
        self.harvested.len()
    }

    /// How many URLs have entered the queue since the start.
    pub open spec fn found(self) -> nat {
        self.discovered.len()
    }

    /// No key is both harvested and queued.
    pub open spec fn disjoint(self) -> bool {
        forall|i: int|
            0 <= i < self.queued.len() ==> !self.harvested.contains(#[trigger] self.keys()[i])
    }

    /// What holds of every frontier: no key is harvested twice, no URL is
    /// queued twice, and no key is both harvested and queued.
    pub open spec fn wf(self) -> bool {
        &&& self.harvested.no_duplicates()
        &&& self.urls().no_duplicates()
        &&& self.disjoint()
    }

    /// Whether `url`, whose page has the key `key`, is known: the key is
    /// harvested, or the URL itself is queued.
    pub open spec fn known(self, url: Seq<char>, key: Seq<char>) -> bool {
        self.harvested.contains(key) || self.urls().contains(url)
    }

    /// The frontier after `url` was offered to the queue under `key`: it is
    /// appended, and counted as discovered, where it is not known. Otherwise
    /// nothing changes.
    pub open spec fn enqueue(self, url: Seq<char>, key: Seq<char>) -> FrontierView {
        if self.known(url, key) {
            self
        } else {
            FrontierView {
                queued: self.queued.push(Pending { url, key }),
                discovered: self.discovered.push(url),
                ..self
            }
        }
    }

    /// The frontier after the page of `key` was fetched: the key is
    /// harvested, unless it was already, and every URL queued under it
    /// leaves the queue.
    pub open spec fn mark_harvested(self, key: Seq<char>) -> FrontierView {
        FrontierView {
            harvested: if self.harvested.contains(key) {
                self.harvested
            } else {
                self.harvested.push(key)
            },
            queued: self.queued.filter(|pending: Pending| pending.key != key),
            ..self
        }
    }

    /// The frontier after the first URL left the queue. Nothing changes
    /// where the queue is empty.
    pub open spec fn next_url(self) -> FrontierView {
        if self.queued.len() > 0 {
            FrontierView { queued: self.queued.drop_first(), ..self }
        } else {
            self
        }
    }
}

/// `x` stands at exactly one position of `s`.
pub open spec fn holds_once(s: Seq<Seq<char>>, x: Seq<char>) -> bool {
    exists|i: int|
        0 <= i < s.len() && #[trigger] s[i] == x && forall|j: int|
            0 <= j < s.len() && #[trigger] s[j] == x ==> j == i
}

/// The URLs of `queued`, in order.
pub open spec fn urls_of(queued: Seq<Pending>) -> Seq<Seq<char>> {
    queued.map_values(|pending: Pending| pending.url)
}

/// Offering a URL to the queue keeps the frontier well formed.
pub proof fn lemma_enqueue_wf(frontier: FrontierView, url: Seq<char>, key: Seq<char>)
    requires
        frontier.wf(),
    ensures
        frontier.enqueue(url, key).wf(),
        !frontier.known(url, key) ==> {
            &&& frontier.enqueue(url, key).keys() == frontier.keys().push(key)
            &&& frontier.enqueue(url, key).urls() == frontier.urls().push(url)
        },
{
    if !frontier.known(url, key) {
        let next = frontier.enqueue(url, key);
        assert(next.keys() =~= frontier.keys().push(key));
        assert(next.urls() =~= frontier.urls().push(url));
        lemma_push_no_duplicates(frontier.urls(), url);
        assert forall|i: int| 0 <= i < next.queued.len() implies !next.harvested.contains(
            #[trigger] next.keys()[i],
        ) by {
            if i < frontier.queued.len() {
                assert(next.keys()[i] == frontier.keys()[i]);
            }
        }
    }
}

/// What is left of a queue when the entries of one key are taken out: the
/// entries of every other key, each as often as before and none of them
/// new.
pub proof fn lemma_without_key(queued: Seq<Pending>, key: Seq<char>)
    ensures
        ({
            let kept = queued.filter(|pending: Pending| pending.key != key);
            &&& kept.len() <= queued.len()
            &&& forall|i: int|
                0 <= i < kept.len() ==> (#[trigger] kept[i]).key != key && queued.contains(kept[i])
            &&& forall|j: int|
                0 <= j < queued.len() && (#[trigger] queued[j]).key != key ==> kept.contains(
                    queued[j],
                )
            &&& urls_of(queued).no_duplicates() ==> urls_of(kept).no_duplicates()
        }),
    decreases queued.len(),
{
    reveal(Seq::filter);
    let pred = |pending: Pending| pending.key != key;
    let kept = queued.filter(pred);
    if queued.len() > 0 {
        let front = queued.drop_last();
        let last = queued.last();
        let before = front.filter(pred);
        lemma_without_key(front, key);
        assert forall|i: int| 0 <= i < kept.len() implies (#[trigger] kept[i]).key != key
            && queued.contains(kept[i]) by {
            if i < before.len() {
                assert(kept[i] == before[i]);
                let j = choose|j: int| 0 <= j < front.len() && front[j] == before[i];
                assert(queued[j] == kept[i]);
            } else {
                assert(queued[queued.len() - 1] == kept[i]);
            }
        }
        assert forall|j: int|
            0 <= j < queued.len() && (#[trigger] queued[j]).key != key implies kept.contains(
            queued[j],
        ) by {
            if j < front.len() {
                assert(front[j] == queued[j]);
                let i = choose|i: int| 0 <= i < before.len() && before[i] == front[j];
                assert(kept[i] == queued[j]);
            } else {
                assert(kept[kept.len() - 1] == queued[j]);
            }
        }
        if urls_of(queued).no_duplicates() {
            assert forall|a: int, b: int|
                0 <= a < front.len() && 0 <= b < front.len() && a != b implies urls_of(front)[a]
                != urls_of(front)[b] by {
                assert(urls_of(queued)[a] != urls_of(queued)[b]);
            }
            let urls = urls_of(kept);
            assert forall|a: int, b: int|
                0 <= a < urls.len() && 0 <= b < urls.len() && a != b implies urls[a]
                != urls[b] by {
                if a < before.len() && b < before.len() {
                    assert(urls_of(before)[a] != urls_of(before)[b]);
                } else {
                    let inner = if a < before.len() { a } else { b };
                    let j = choose|j: int| 0 <= j < front.len() && front[j] == before[inner];
                    assert(urls_of(queued)[j] != urls_of(queued)[queued.len() - 1]);
                }
            }
        }
    }
}

/// Marking a page harvested keeps the frontier well formed.
pub proof fn lemma_mark_harvested_wf(frontier: FrontierView, key: Seq<char>)
    requires
        frontier.wf(),
    ensures
        frontier.mark_harvested(key).wf(),
        frontier.mark_harvested(key).harvested.contains(key),
        !frontier.mark_harvested(key).keys().contains(key),
{
    let next = frontier.mark_harvested(key);
    lemma_without_key(frontier.queued, key);
    lemma_push_contains(frontier.harvested, key, key);
    assert forall|j: int| 0 <= j < next.queued.len() implies !next.harvested.contains(
        #[trigger] next.keys()[j],
    ) by {
        let pending = next.queued[j];
        let k = choose|k: int| 0 <= k < frontier.queued.len() && frontier.queued[k] == pending;
        assert(frontier.keys()[k] == pending.key);
        lemma_push_contains(frontier.harvested, key, pending.key);
    }
    if next.keys().contains(key) {
        let j = choose|j: int| 0 <= j < next.keys().len() && next.keys()[j] == key;
        assert(next.queued[j].key != key);
    }
    if !frontier.harvested.contains(key) {
        lemma_push_no_duplicates(frontier.harvested, key);
    }
}

/// Taking the first URL out of the queue keeps the frontier well formed.
pub proof fn lemma_next_url_wf(frontier: FrontierView)
    requires
        frontier.wf(),
    ensures
        frontier.next_url().wf(),
        frontier.queued.len() > 0 ==> {
            &&& frontier.next_url().keys() == frontier.keys().drop_first()
            &&& frontier.next_url().urls() == frontier.urls().drop_first()
            &&& !frontier.next_url().urls().contains(frontier.queued[0].url)
        },
{
    if frontier.queued.len() > 0 {
        let next = frontier.next_url();
        assert(next.keys() =~= frontier.keys().drop_first());
        assert(next.urls() =~= frontier.urls().drop_first());
        assert forall|j: int| 0 <= j < next.queued.len() implies !next.harvested.contains(
            #[trigger] next.keys()[j],
        ) by {
            assert(next.keys()[j] == frontier.keys()[j + 1]);
        }
        let urls = next.urls();
        assert forall|a: int, b: int|
            0 <= a < urls.len() && 0 <= b < urls.len() && a != b implies urls[a] != urls[b] by {
            assert(urls[a] == frontier.urls()[a + 1]);
            assert(urls[b] == frontier.urls()[b + 1]);
        }
        if urls.contains(frontier.queued[0].url) {
            let j = choose|j: int| 0 <= j < urls.len() && urls[j] == frontier.queued[0].url;
            assert(frontier.urls()[j + 1] == frontier.urls()[0]);
        }
    }
}

/// Offering a URL twice under one key is offering it once: the second call
/// changes nothing, so the URL is counted as discovered at most once. After
/// the calls the URL is known, and queued exactly once unless its key is
/// harvested.
pub proof fn lemma_enqueue_again(frontier: FrontierView, url: Seq<char>, key: Seq<char>)
    requires
        frontier.wf(),
    ensures
        frontier.enqueue(url, key).enqueue(url, key) == frontier.enqueue(url, key),
        frontier.enqueue(url, key).known(url, key),
        frontier.enqueue(url, key).found() == frontier.found() + (if frontier.known(url, key) {
            0nat
        } else {
            1nat
        }),
        !frontier.harvested.contains(key) ==> holds_once(frontier.enqueue(url, key).urls(), url),
{
    let once = frontier.enqueue(url, key);
    lemma_enqueue_wf(frontier, url, key);
    if !frontier.known(url, key) {
        assert(once.urls()[frontier.queued.len() as int] == url);
    }
    if !frontier.harvested.contains(key) {
        let urls = once.urls();
        let i = choose|i: int| 0 <= i < urls.len() && urls[i] == url;
        assert forall|j: int| 0 <= j < urls.len() && #[trigger] urls[j] == url implies j == i by {}
    }
}

/// What a sequence holds after a push is what it held, and the new element.
pub proof fn lemma_push_contains(s: Seq<Seq<char>>, pushed: Seq<char>, x: Seq<char>)
    ensures
        s.push(pushed).contains(x) <==> s.contains(x) || x == pushed,
{
    let t = s.push(pushed);
    if s.contains(x) {
        let i = choose|i: int| 0 <= i < s.len() && s[i] == x;
        assert(t[i] == x);
    }
    if x == pushed {
        assert(t[s.len() as int] == x);
    }
    if t.contains(x) {
        let i = choose|i: int| 0 <= i < t.len() && t[i] == x;
        if i < s.len() {
            assert(s[i] == x);
        }
    }
}

/// Pushing an element that a sequence without duplicates does not hold
/// gives a sequence without duplicates.
proof fn lemma_push_no_duplicates(s: Seq<Seq<char>>, pushed: Seq<char>)
    requires
        s.no_duplicates(),
        !s.contains(pushed),
    ensures
        s.push(pushed).no_duplicates(),
{
    let t = s.push(pushed);
    assert forall|i: int, j: int| 0 <= i < t.len() && 0 <= j < t.len() && i != j implies t[i]
        != t[j] by {
        if i < s.len() && j < s.len() {
        } else if i < s.len() {
            assert(s.contains(s[i]));
        } else {
            assert(s.contains(s[j]));
        }
    }
}

/// The frontier of a crawl.
#[derive(Debug)]
pub struct Frontier {
    harvested: Vec<String>,
    urls: Vec<String>,
    keys: Vec<String>,
    discovered: Vec<String>,
}

impl View for Frontier {
    type V = FrontierView;

    closed spec fn view(&self) -> FrontierView {
        FrontierView {
            harvested: self.harvested.deep_view(),
            queued: Seq::new(
                self.urls.len() as nat,
                |i: int| Pending { url: self.urls[i]@, key: self.keys[i]@ },
            ),
            discovered: self.discovered.deep_view(),
        }
    }
}

impl Frontier {
    /// The frontier keeps its books in order: it holds a key for each
    /// queued URL, and its value is well formed.
    pub closed spec fn wf(&self) -> bool {
        &&& self.urls.len() == self.keys.len()
        &&& self@.wf()
    }

    /// A well-formed frontier has a well-formed value.
    pub proof fn lemma_wf(&self)
        requires
            self.wf(),
        ensures
            self@.wf(),
    {
    }

    /// What the two lists of the queue hold is what the value holds.
    proof fn lemma_lists(&self)
        ensures
            self.urls.deep_view() == self@.urls(),
            self.urls.len() == self.keys.len() ==> self.keys.deep_view() == self@.keys(),
    {
        assert(self.urls.deep_view() =~= self@.urls());
        if self.urls.len() == self.keys.len() {
            assert(self.keys.deep_view() =~= self@.keys());
        }
    }

    /// A frontier with nothing fetched and nothing queued.
    pub fn new() -> (frontier: Frontier)
        ensures
            frontier.wf(),
            frontier@ == FrontierView::empty(),
    {
        let frontier = Frontier {
            harvested: Vec::new(),
            urls: Vec::new(),
            keys: Vec::new(),
            discovered: Vec::new(),
        };
        proof {
            assert(frontier@.harvested =~= Seq::empty());
            assert(frontier@.queued =~= Seq::empty());
            assert(frontier@.discovered =~= Seq::empty());
            assert(frontier@.keys() =~= Seq::empty());
        }
        frontier
    }

    /// The keys of the pages fetched so far, in that order.
    pub fn harvested(&self) -> (keys: &Vec<String>)
        ensures
            keys.deep_view() == self@.harvested,
    {
        &self.harvested
    }

    /// The URLs waiting to be fetched, the next one first.
    pub fn queued(&self) -> (urls: &Vec<String>)
        ensures
            urls.deep_view() == self@.urls(),
    {
        proof {
            self.lemma_lists();
        }
        &self.urls
    }

    /// The keys of the URLs waiting to be fetched, in the order of the
    /// queue.
    pub fn queued_keys(&self) -> (keys: &Vec<String>)
        requires
            self.wf(),
        ensures
            keys.deep_view() == self@.keys(),
    {
        proof {
            self.lemma_lists();
        }
        &self.keys
    }

    /// Every URL that ever entered the queue, in the order of discovery.
    pub fn discovered(&self) -> (urls: &Vec<String>)
        ensures
            urls.deep_view() == self@.discovered,
    {
        &self.discovered
    }

    /// How many pages have been fetched.
    pub fn done(&self) -> (count: usize)
        ensures
            count == self@.completed(),
    {
        self.harvested.len()
    }

    /// How many URLs have entered the queue since the start.
    pub fn found(&self) -> (count: usize)
        ensures
            count == self@.found(),
    {
        self.discovered.len()
    }

    /// Whether `url`, whose page has the key `key`, is known: the key is
    /// harvested, or the URL itself is queued.
    pub fn is_known(&self, url: &String, key: &String) -> (known: bool)
        ensures
            known == self@.known(url@, key@),
    {
        proof {
            self.lemma_lists();
        }
        position(&self.harvested, key).is_some() || position(&self.urls, url).is_some()
    }

    /// Offers `url` to the queue under `key`. It is appended, and counted as
    /// discovered, where it is not known (`is_known`); the result tells
    /// whether it was.
    pub fn enqueue(&mut self, url: String, key: String) -> (added: bool)
        requires
            old(self).wf(),
        ensures
            final(self).wf(),
            final(self)@ == old(self)@.enqueue(url@, key@),
            added == !old(self)@.known(url@, key@),
    {
        if self.is_known(&url, &key) {
            return false;
        }
        let ghost before = *self;
        proof {
            lemma_enqueue_wf(before@, url@, key@);
        }
        self.discovered.push(url.clone());
        self.urls.push(url);
        self.keys.push(key);
        proof {
            assert(self@.queued =~= before@.queued.push(Pending { url: url@, key: key@ }));
            assert(self@.discovered =~= before@.discovered.push(url@));
        }
        true
    }

    /// Records that the page of `key` was fetched: the key is harvested, and
    /// every URL queued under it leaves the queue. The result tells whether
    /// the key is new among the harvested.
    pub fn mark_harvested(&mut self, key: String) -> (fresh: bool)
        requires
            old(self).wf(),
        ensures
            final(self).wf(),
            final(self)@ == old(self)@.mark_harvested(key@),
            fresh == !old(self)@.harvested.contains(key@),
    {
        let ghost before = self@;
        let ghost pred = |pending: Pending| pending.key != key@;
        proof {
            lemma_mark_harvested_wf(before, key@);
            assert(before.queued.take(0).filter(pred) =~= Seq::empty()) by {
                reveal(Seq::filter);
            }
            assert(before.queued.skip(0) =~= before.queued);
        }
        let mut i: usize = 0;
        while i < self.urls.len()
            invariant
                i <= self.urls.len() <= before.queued.len(),
                self.urls.len() == self.keys.len(),
                self@.harvested == before.harvested,
                self@.discovered == before.discovered,
                pred == |pending: Pending| pending.key != key@,
                i == before.queued.take(i + before.queued.len() - self.urls.len()).filter(
                    pred,
                ).len(),
                self@.queued == before.queued.take(
                    i + before.queued.len() - self.urls.len(),
                ).filter(pred) + before.queued.skip(i + before.queued.len() - self.urls.len()),
            decreases self.urls.len() - i,
        {
            let ghost seen = i + before.queued.len() - self.urls.len();
            let ghost now = self@.queued;
            proof {
                reveal(Seq::filter);
                assert(now[i as int] == before.queued[seen]);
                assert(before.queued.take(seen + 1).drop_last() =~= before.queued.take(seen));
                assert(before.queued.take(seen + 1).last() == before.queued[seen]);
            }
            if self.keys[i] == key {
                self.urls.remove(i);
                self.keys.remove(i);
                proof {
                    let head = before.queued.take(seen).filter(pred);
                    assert(!pred(before.queued[seen]));
                    assert(before.queued.take(seen + 1).filter(pred) == head);
                    assert(self@.queued =~= now.remove(i as int));
                    assert(now.remove(i as int) =~= head + before.queued.skip(seen + 1));
                }
            } else {
                i += 1;
                proof {
                    let head = before.queued.take(seen).filter(pred);
                    assert(pred(before.queued[seen]));
                    assert(before.queued.take(seen + 1).filter(pred) == head.push(
                        before.queued[seen],
                    ));
                    assert(self@.queued =~= head.push(before.queued[seen]) + before.queued.skip(
                        seen + 1,
                    ));
                }
            }
        }
        proof {
            assert(before.queued.take(before.queued.len() as int) =~= before.queued);
            assert(self@.queued =~= before.queued.filter(pred));
        }
        let fresh = position(&self.harvested, &key).is_none();
        if fresh {
            self.harvested.push(key);
            proof {
                assert(self.harvested.deep_view() =~= before.harvested.push(key@));
            }
        }
        fresh
    }

    /// Takes the first URL out of the queue. `None`, and no change, where the
    /// queue is empty.
    pub fn next_url(&mut self) -> (next: Option<String>)
        requires
            old(self).wf(),
        ensures
            final(self).wf(),
            final(self)@ == old(self)@.next_url(),
            match next {
                Some(url) => old(self)@.queued.len() > 0 && url@ == old(self)@.queued[0].url,
                None => old(self)@.queued.len() == 0,
            },
    {
        if self.urls.len() == 0 {
            return None;
        }
        let ghost before = *self;
        proof {
            lemma_next_url_wf(before@);
        }
        let url = self.urls.remove(0);
        self.keys.remove(0);
        proof {
            assert(self@.queued =~= before@.queued.drop_first());
        }
        Some(url)
    }
}

} // verus!
