use spider::frontier::Frontier;

fn s(text: &str) -> String {
    text.to_string()
}

fn strings(items: &[&str]) -> Vec<String> {
    items.iter().map(|s| s.to_string()).collect()
}

#[test]
fn a_new_frontier_is_empty() {
    let f = Frontier::new();
    assert!(f.harvested().is_empty());
    assert!(f.queued().is_empty());
    assert!(f.queued_keys().is_empty());
    assert!(f.discovered().is_empty());
    assert_eq!(f.done(), 0);
    assert_eq!(f.found(), 0);
    assert!(!f.is_known(&s("u"), &s("/")));
}

#[test]
fn frontier_queues_in_order_of_discovery() {
    let mut f = Frontier::new();
    assert!(f.enqueue(s("u1"), s("k1")));
    assert!(f.enqueue(s("u2"), s("k2")));
    assert!(f.enqueue(s("u3"), s("k3")));
    assert_eq!(*f.queued(), strings(&["u1", "u2", "u3"]));
    assert_eq!(*f.queued_keys(), strings(&["k1", "k2", "k3"]));
    assert_eq!(*f.discovered(), strings(&["u1", "u2", "u3"]));
    assert_eq!(f.found(), 3);
    assert_eq!(f.done(), 0);
}

#[test]
fn frontier_enqueue_twice_queues_once() {
    let mut f = Frontier::new();
    assert!(f.enqueue(s("u"), s("k")));
    assert!(!f.enqueue(s("u"), s("k")));
    assert_eq!(*f.queued(), strings(&["u"]));
    assert_eq!(f.found(), 1);
}

#[test]
fn frontier_knows_a_queued_url_by_the_url() {
    let mut f = Frontier::new();
    assert!(f.enqueue(s("u"), s("k")));
    assert!(f.is_known(&s("u"), &s("k")));
    assert!(f.is_known(&s("u"), &s("other")));
    assert!(!f.is_known(&s("v"), &s("k")));
    assert!(f.enqueue(s("v"), s("k")));
    assert_eq!(*f.queued(), strings(&["u", "v"]));
    assert_eq!(*f.queued_keys(), strings(&["k", "k"]));
    assert_eq!(*f.discovered(), strings(&["u", "v"]));
    assert_eq!(f.found(), 2);
}

#[test]
fn frontier_knows_a_harvested_page_by_its_key() {
    let mut f = Frontier::new();
    assert!(f.mark_harvested(s("k")));
    assert!(f.is_known(&s("u"), &s("k")));
    assert!(f.is_known(&s("v"), &s("k")));
    assert!(!f.is_known(&s("k"), &s("u")));
}

#[test]
fn frontier_takes_every_url_of_a_harvested_key_out_of_the_queue() {
    let mut f = Frontier::new();
    f.enqueue(s("u1"), s("k"));
    f.enqueue(s("u2"), s("other"));
    f.enqueue(s("u3"), s("k"));
    f.enqueue(s("u4"), s("k"));
    f.enqueue(s("u5"), s("last"));
    assert!(f.mark_harvested(s("k")));
    assert_eq!(*f.queued(), strings(&["u2", "u5"]));
    assert_eq!(*f.queued_keys(), strings(&["other", "last"]));
    assert_eq!(*f.harvested(), strings(&["k"]));
    assert_eq!(f.found(), 5);
    assert!(f.mark_harvested(s("last")));
    assert_eq!(*f.queued(), strings(&["u2"]));
    assert!(!f.mark_harvested(s("k")));
    assert_eq!(*f.queued(), strings(&["u2"]));
}

#[test]
fn frontier_does_not_queue_what_is_harvested() {
    let mut f = Frontier::new();
    assert!(f.mark_harvested(s("k")));
    assert!(f.is_known(&s("u"), &s("k")));
    assert!(!f.enqueue(s("u"), s("k")));
    assert!(f.queued().is_empty());
    assert_eq!(f.found(), 0);
    assert_eq!(f.done(), 1);
}

#[test]
fn frontier_harvests_a_key_once() {
    let mut f = Frontier::new();
    assert!(f.mark_harvested(s("k1")));
    assert!(f.mark_harvested(s("k2")));
    assert!(!f.mark_harvested(s("k1")));
    assert_eq!(*f.harvested(), strings(&["k1", "k2"]));
    assert_eq!(f.done(), 2);
}

#[test]
fn frontier_moves_a_queued_page_into_harvested() {
    let mut f = Frontier::new();
    f.enqueue(s("u1"), s("k1"));
    f.enqueue(s("u2"), s("k2"));
    f.enqueue(s("u3"), s("k3"));
    assert!(f.mark_harvested(s("k2")));
    assert_eq!(*f.queued(), strings(&["u1", "u3"]));
    assert_eq!(*f.queued_keys(), strings(&["k1", "k3"]));
    assert_eq!(*f.harvested(), strings(&["k2"]));
    assert_eq!(*f.discovered(), strings(&["u1", "u2", "u3"]));
    assert_eq!(f.found(), 3);
    assert!(f.is_known(&s("u2"), &s("k2")));
    assert!(!f.enqueue(s("u2"), s("k2")));
}

#[test]
fn frontier_hands_out_the_oldest_first() {
    let mut f = Frontier::new();
    assert_eq!(f.next_url(), None);
    f.enqueue(s("u1"), s("k1"));
    f.enqueue(s("u2"), s("k2"));
    assert_eq!(f.next_url(), Some(s("u1")));
    assert_eq!(*f.queued(), strings(&["u2"]));
    assert_eq!(*f.queued_keys(), strings(&["k2"]));
    assert!(!f.is_known(&s("u1"), &s("k1")));
    assert_eq!(f.next_url(), Some(s("u2")));
    assert_eq!(f.next_url(), None);
    assert_eq!(f.found(), 2);
}

#[test]
fn frontier_keeps_harvested_and_queued_apart() {
    let mut f = Frontier::new();
    let keys = ["a", "b", "c", "a", "d", "b", "e"];
    for (n, key) in keys.iter().enumerate() {
        f.enqueue(format!("u{}", n), key.to_string());
        if n % 2 == 1 {
            f.mark_harvested(keys[n / 2].to_string());
        }
        if n % 3 == 2 {
            if let Some(url) = f.next_url() {
                let at: usize = url[1..].parse().unwrap();
                f.mark_harvested(keys[at].to_string());
            }
        }
        for key in f.queued_keys() {
            assert!(!f.harvested().contains(key));
        }
        assert_eq!(f.done(), f.harvested().len());
    }
}
