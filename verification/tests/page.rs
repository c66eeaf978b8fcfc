use spider::page::{collect_present, parse_a, parse_img, MAX_BODY};

const BODY: &str = r#"<html><body>
<a href="/a">one</a>
<a href="/a">again</a>
<a name="here">no target</a>
<a href="https://external.com/x">out</a>
<p><img src="/img1.png"><img alt="none"></p>
</body></html>"#;

#[test]
fn parse_a_gives_the_targets_in_order() {
    assert_eq!(parse_a(BODY), vec!["/a", "/a", "https://external.com/x"]);
}

#[test]
fn parse_img_gives_the_sources() {
    assert_eq!(parse_img(BODY), vec!["/img1.png"]);
}

#[test]
fn a_page_without_links_gives_nothing() {
    assert!(parse_a("").is_empty());
    assert!(parse_img("plain text").is_empty());
    assert!(parse_a("<p>no anchors</p>").is_empty());
}

#[test]
fn malformed_markup_is_read_as_far_as_it_goes() {
    assert_eq!(parse_a("<a href='/x'><b><a href=/y <<<"), vec!["/x"]);
    assert_eq!(parse_a("<div><a href=\"/z\">unclosed"), vec!["/z"]);
}

#[test]
fn an_empty_target_is_a_target() {
    assert_eq!(parse_a("<a href=\"\">x</a>"), vec![""]);
}

#[test]
fn collect_present_drops_what_is_absent() {
    let items = vec![None, Some("a".to_string()), None, Some("b".to_string()), Some("a".to_string())];
    assert_eq!(collect_present(items), vec!["a", "b", "a"]);
    assert!(collect_present(vec![None, None]).is_empty());
    assert!(collect_present(Vec::new()).is_empty());
}

#[test]
fn the_longest_page_is_half_a_gibibyte() {
    assert_eq!(MAX_BODY, 512 * 1024 * 1024);
}
