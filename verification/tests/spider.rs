use spider::spider::{wants_images, Spider};

const SEED: &str = "https://example.com/start";

const BODY: &str = r#"<html><body>
<a href="/a">one</a>
<a href="/a">again</a>
<a href="https://external.com/x">out</a>
<img src="/img1.png">
</body></html>"#;

fn strings(items: &[&str]) -> Vec<String> {
    items.iter().map(|s| s.to_string()).collect()
}

fn mark_then_absorb(mut s: Spider, body: &str, images: bool) -> Spider {
    let current = s.domain().to_string();
    assert!(s.mark_harvested(&current).unwrap());
    let mut links = spider::page::parse_a(body);
    if images {
        links.extend(spider::page::parse_img(body));
    }
    s.absorb(&links).unwrap()
}

fn keys_of(urls: &[String]) -> Vec<String> {
    urls.iter().map(|u| spider::urls::harvest(u).unwrap()).collect()
}

#[test]
fn a_new_spider_has_seen_nothing() {
    let s = Spider::spawn(SEED.to_string()).unwrap();
    assert_eq!(s.scope(), "https://example.com");
    assert_eq!(s.domain(), SEED);
    assert!(s.harvested().is_empty());
    assert!(s.queued().is_empty());
    assert!(s.discovered().is_empty());
    assert_eq!(s.done(), 0);
    assert_eq!(s.found(), 0);
    assert!(!s.finished());
}

#[test]
fn the_frontier_holds_the_path_of_each_queued_url() {
    let s = Spider::spawn(SEED.to_string()).unwrap();
    let s = s.crawl(BODY, true).unwrap().step(&strings(&["/b/../c", "/d?x"])).unwrap();
    assert_eq!(s.domain(), "https://example.com/img1.png");
    assert_eq!(
        *s.frontier().queued(),
        strings(&["https://example.com/b/../c", "https://example.com/d"])
    );
    assert_eq!(*s.frontier().queued_keys(), strings(&["/c", "/d"]));
    assert_eq!(*s.frontier().harvested(), strings(&["/start", "/a"]));
}

#[test]
fn spawn_fails_on_what_is_no_url() {
    let e = Spider::spawn("example".to_string()).err().unwrap();
    assert_eq!(e.url, "example");
    assert_eq!(e.cause, url::ParseError::RelativeUrlWithoutBase);
}

#[test]
fn one_cycle_with_images() {
    let s = Spider::spawn(SEED.to_string()).unwrap();
    let s = mark_then_absorb(s, BODY, true);
    assert_eq!(*s.harvested(), strings(&["/start"]));
    assert_eq!(keys_of(s.queued()), strings(&["/a", "/img1.png"]));
    assert_eq!(
        *s.queued(),
        strings(&["https://example.com/a", "https://example.com/img1.png"])
    );
    assert_eq!(s.found(), 2);
    assert_eq!(s.done(), 1);
}

#[test]
fn one_cycle_without_images() {
    let s = Spider::spawn(SEED.to_string()).unwrap();
    let s = mark_then_absorb(s, BODY, wants_images(&strings(&["spider", SEED, "--noimage"])));
    assert_eq!(*s.harvested(), strings(&["/start"]));
    assert_eq!(keys_of(s.queued()), strings(&["/a"]));
    assert_eq!(s.found(), 1);
}

#[test]
fn crawl_moves_on_to_the_first_queued_url() {
    let s = Spider::spawn(SEED.to_string()).unwrap();
    let s = s.crawl(BODY, true).unwrap();
    assert_eq!(*s.harvested(), strings(&["/start"]));
    assert_eq!(s.domain(), "https://example.com/a");
    assert_eq!(*s.queued(), strings(&["https://example.com/img1.png"]));
    assert_eq!(
        *s.discovered(),
        strings(&["https://example.com/a", "https://example.com/img1.png"])
    );
    assert_eq!(s.found(), 2);
    assert_eq!(s.done(), 1);
    assert!(!s.finished());
}

#[test]
fn crawl_without_images_queues_anchors_only() {
    let s = Spider::spawn(SEED.to_string()).unwrap();
    let s = s.crawl(BODY, false).unwrap();
    assert_eq!(s.domain(), "https://example.com/a");
    assert!(s.queued().is_empty());
    assert_eq!(*s.discovered(), strings(&["https://example.com/a"]));
    assert_eq!(s.found(), 1);
    assert!(!s.finished());
}

#[test]
fn crawl_finishes_when_nothing_is_queued() {
    let s = Spider::spawn(SEED.to_string()).unwrap();
    let s = s.crawl("<p>nothing to follow</p>", true).unwrap();
    assert!(s.finished());
    assert_eq!(s.domain(), SEED);
    assert_eq!(*s.harvested(), strings(&["/start"]));
    assert_eq!(s.found(), 0);
}

#[test]
fn step_is_crawl_on_the_links_of_the_page() {
    let by_body = Spider::spawn(SEED.to_string()).unwrap().crawl(BODY, true).unwrap();
    let links = strings(&["/a", "/a", "https://external.com/x", "/img1.png"]);
    let by_links = Spider::spawn(SEED.to_string()).unwrap().step(&links).unwrap();
    assert_eq!(by_body.domain(), by_links.domain());
    assert_eq!(by_body.harvested(), by_links.harvested());
    assert_eq!(by_body.queued(), by_links.queued());
    assert_eq!(by_body.discovered(), by_links.discovered());
    assert_eq!(by_body.finished(), by_links.finished());
}

#[test]
fn wants_images_unless_switched_off() {
    assert!(wants_images(&strings(&["spider", SEED])));
    assert!(wants_images(&strings(&[])));
    assert!(!wants_images(&strings(&["spider", SEED, "--noimage"])));
    assert!(!wants_images(&strings(&["spider", "-n", SEED])));
    assert!(wants_images(&strings(&["spider", SEED, "--noimages", "-N", "n"])));
}

#[test]
fn enqueue_twice_queues_once() {
    let mut s = Spider::spawn(SEED.to_string()).unwrap();
    let u = "https://example.com/a".to_string();
    assert_eq!(s.enqueue(u.clone()).ok(), Some(true));
    assert_eq!(s.found(), 1);
    assert_eq!(s.enqueue(u.clone()).ok(), Some(false));
    assert_eq!(s.found(), 1);
    assert_eq!(s.queued().iter().filter(|q| **q == u).count(), 1);
    assert_eq!(*s.discovered(), vec![u]);
}

#[test]
fn enqueue_tests_the_queue_by_the_whole_url() {
    let mut s = Spider::spawn(SEED.to_string()).unwrap();
    assert_eq!(s.enqueue("https://example.com/b".to_string()).ok(), Some(true));
    assert_eq!(s.enqueue("https://example.com/a/../b".to_string()).ok(), Some(true));
    assert_eq!(s.enqueue("https://example.com/./b".to_string()).ok(), Some(true));
    assert_eq!(s.enqueue("https://example.com/b".to_string()).ok(), Some(false));
    assert_eq!(
        *s.queued(),
        strings(&[
            "https://example.com/b",
            "https://example.com/a/../b",
            "https://example.com/./b"
        ])
    );
    assert_eq!(keys_of(s.queued()), strings(&["/b", "/b", "/b"]));
    assert_eq!(s.found(), 3);
}

#[test]
fn a_link_met_twice_is_pending_once() {
    let s = Spider::spawn(SEED.to_string()).unwrap();
    let s = s.step(&strings(&["/a", "/./a", "/b", "/a", "/./a#x"])).unwrap();
    assert_eq!(s.domain(), "https://example.com/a");
    assert_eq!(*s.queued(), strings(&["https://example.com/./a", "https://example.com/b"]));
    assert_eq!(s.found(), 3);
    let s = s.step(&strings(&["/b", "/./a", "/c"])).unwrap();
    assert_eq!(*s.harvested(), strings(&["/start", "/a"]));
    assert_eq!(s.domain(), "https://example.com/b");
    assert_eq!(*s.queued(), strings(&["https://example.com/c"]));
    assert_eq!(s.found(), 4);
}

#[test]
fn enqueue_skips_what_is_harvested() {
    let mut s = Spider::spawn(SEED.to_string()).unwrap();
    assert_eq!(s.mark_harvested(SEED).ok(), Some(true));
    assert_eq!(s.enqueue(SEED.to_string()).ok(), Some(false));
    assert_eq!(s.enqueue("https://example.com/start?again=1".to_string()).ok(), Some(false));
    assert!(s.queued().is_empty());
    assert_eq!(s.found(), 0);
}

#[test]
fn enqueue_fails_on_what_is_no_url() {
    let mut s = Spider::spawn(SEED.to_string()).unwrap();
    let e = s.enqueue("/only/a/path".to_string()).err().unwrap();
    assert_eq!(e.url, "/only/a/path");
    assert!(s.queued().is_empty());
    assert_eq!(s.found(), 0);
}

#[test]
fn is_found_looks_at_harvested_and_queued() {
    let mut s = Spider::spawn(SEED.to_string()).unwrap();
    assert_eq!(s.is_found(SEED).ok(), Some(false));
    s.mark_harvested(SEED).unwrap();
    assert_eq!(s.is_found(SEED).ok(), Some(true));
    assert_eq!(s.is_found("https://example.com/a").ok(), Some(false));
    s.enqueue("https://example.com/a".to_string()).unwrap();
    assert_eq!(s.is_found("https://example.com/a").ok(), Some(true));
    assert_eq!(s.is_found("https://example.com/a#part").ok(), Some(false));
    assert_eq!(s.is_found("https://example.com/./a").ok(), Some(false));
    assert_eq!(s.is_found("https://example.com/start#part").ok(), Some(true));
    assert_eq!(s.is_found("https://example.com/b").ok(), Some(false));
    assert_eq!(s.is_found("nonsense").err().unwrap().url, "nonsense");
}

#[test]
fn mark_harvested_counts_a_page_once() {
    let mut s = Spider::spawn(SEED.to_string()).unwrap();
    assert_eq!(s.mark_harvested(SEED).ok(), Some(true));
    assert_eq!(s.done(), 1);
    assert_eq!(s.mark_harvested(SEED).ok(), Some(false));
    assert_eq!(s.mark_harvested("https://example.com/start#x").ok(), Some(false));
    assert_eq!(s.done(), 1);
    assert_eq!(*s.harvested(), strings(&["/start"]));
}

#[test]
fn mark_harvested_takes_every_url_of_the_page_out_of_the_queue() {
    let mut s = Spider::spawn(SEED.to_string()).unwrap();
    s.enqueue("https://example.com/a".to_string()).unwrap();
    s.enqueue("https://example.com/b".to_string()).unwrap();
    s.enqueue("https://example.com/./a".to_string()).unwrap();
    assert_eq!(s.mark_harvested("https://example.com/a?x").ok(), Some(true));
    assert_eq!(*s.queued(), strings(&["https://example.com/b"]));
    assert_eq!(*s.harvested(), strings(&["/a"]));
    assert_eq!(s.found(), 3);
}

#[test]
fn mark_harvested_takes_the_page_out_of_the_queue() {
    let mut s = Spider::spawn(SEED.to_string()).unwrap();
    s.enqueue("https://example.com/a".to_string()).unwrap();
    s.enqueue("https://example.com/b".to_string()).unwrap();
    s.enqueue("https://example.com/c".to_string()).unwrap();
    assert_eq!(s.mark_harvested("https://example.com/b").ok(), Some(true));
    assert_eq!(*s.queued(), strings(&["https://example.com/a", "https://example.com/c"]));
    assert_eq!(*s.harvested(), strings(&["/b"]));
    assert_eq!(s.found(), 3);
    assert_eq!(s.done(), 1);
}

#[test]
fn mark_harvested_fails_on_what_is_no_url() {
    let mut s = Spider::spawn(SEED.to_string()).unwrap();
    assert_eq!(s.mark_harvested("???").err().unwrap().url, "???");
    assert_eq!(s.done(), 0);
}

#[test]
fn next_url_takes_the_oldest() {
    let mut s = Spider::spawn(SEED.to_string()).unwrap();
    assert_eq!(s.next_url(), None);
    s.enqueue("https://example.com/a".to_string()).unwrap();
    s.enqueue("https://example.com/b".to_string()).unwrap();
    assert_eq!(s.next_url().as_deref(), Some("https://example.com/a"));
    assert_eq!(s.next_url().as_deref(), Some("https://example.com/b"));
    assert_eq!(s.next_url(), None);
    assert_eq!(s.found(), 2);
}

#[test]
fn absorb_stops_at_a_link_that_is_no_url() {
    let s = Spider::spawn("https://example.com/start".to_string()).unwrap();
    let e = s
        .absorb(&strings(&["/a", "https://example.com:port/x", "/b"]))
        .err()
        .unwrap();
    assert_eq!(e.url, "https://example.com:port/x");
    assert_eq!(e.cause, url::ParseError::InvalidPort);
}

#[test]
fn step_stops_at_a_link_that_is_no_url() {
    let s = Spider::spawn(SEED.to_string()).unwrap();
    let e = s.step(&strings(&["/a", "/b", "https://example.com:x/", "#"])).err().unwrap();
    assert_eq!(e.url, "https://example.com:x/");
}

#[test]
fn the_scope_is_the_origin_of_the_seed() {
    let s = Spider::spawn("https://example.com/dir/page.html?x=1#top".to_string()).unwrap();
    assert_eq!(s.scope(), "https://example.com");
    assert_eq!(s.domain(), "https://example.com/dir/page.html?x=1#top");
    let s = s.step(&strings(&["/a", "https://example.com/dir/other.html", "other.html"])).unwrap();
    assert_eq!(*s.harvested(), strings(&["/dir/page.html"]));
    assert_eq!(s.domain(), "https://example.com/a");
    assert_eq!(*s.queued(), strings(&["https://example.com/dir/other.html"]));
}

#[test]
fn harvested_and_queued_share_no_key() {
    let pages: Vec<Vec<&str>> = vec![
        vec!["/a", "/b", "/a/../b", "/start"],
        vec!["/b", "/c", "/start#top"],
        vec!["/a", "/d?x=1", "/c"],
        vec![],
        vec!["/e", "/a"],
    ];
    let mut s = Spider::spawn(SEED.to_string()).unwrap();
    for links in pages {
        s = s.step(&strings(&links)).unwrap();
        let harvested = s.harvested().clone();
        for key in keys_of(s.queued()) {
            assert!(!harvested.contains(&key));
        }
        assert_eq!(s.done(), harvested.len());
    }
}

fn page(path: &str) -> Vec<&'static str> {
    match path {
        "/start" => vec!["/a", "/b", "https://elsewhere.org/z", "mailto:x@example.com"],
        "/a" => vec!["/start", "/b", "/c#sec"],
        "/b" => vec!["/a?from=b", "b.html"],
        "/c" => vec!["https://example.com/d", "/a"],
        "/d" => vec![],
        _ => panic!("fetched a page that is not on the site"),
    }
}

#[test]
fn a_finite_site_is_crawled_to_the_end() {
    let mut s = Spider::spawn(SEED.to_string()).unwrap();
    let mut cycles = 0;
    while !s.finished() {
        let key = spider::urls::harvest(s.domain()).unwrap();
        let links = strings(&page(&key));
        s = s.step(&links).unwrap();
        cycles += 1;
        assert!(cycles <= 5);
    }
    assert_eq!(cycles, 5);
    let mut harvested = s.harvested().clone();
    harvested.sort();
    assert_eq!(harvested, strings(&["/a", "/b", "/c", "/d", "/start"]));
    assert!(s.queued().is_empty());
    assert_eq!(s.done(), 5);
    assert_eq!(s.found(), 4);
}
