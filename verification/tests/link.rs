use spider::link::format_link;

const SCOPE: &str = "https://example.com";

#[test]
fn truncates_query_and_fragment() {
    assert_eq!(
        format_link("https://example.com/a?x=1#frag", SCOPE),
        "https://example.com/a"
    );
}

#[test]
fn truncates_at_whichever_delimiter_comes_first() {
    assert_eq!(format_link("/a#top?x=1", SCOPE), "https://example.com/a");
    assert_eq!(format_link("/a?x=1#top", SCOPE), "https://example.com/a");
    assert_eq!(format_link("/a#", SCOPE), "https://example.com/a");
    assert_eq!(format_link("/a?", SCOPE), "https://example.com/a");
}

#[test]
fn expands_a_path_from_the_root() {
    assert_eq!(format_link("/a/b", SCOPE), "https://example.com/a/b");
    assert_eq!(format_link("/", SCOPE), "https://example.com/");
}

#[test]
fn keeps_a_link_that_lies_in_scope() {
    assert_eq!(format_link("https://example.com", SCOPE), "https://example.com");
    assert_eq!(
        format_link("https://example.com/x/y.html", SCOPE),
        "https://example.com/x/y.html"
    );
}

#[test]
fn rejects_a_relative_link_without_slash() {
    assert_eq!(format_link("contact.html", SCOPE), "");
}

#[test]
fn rejects_another_origin() {
    assert_eq!(format_link("https://other.com/x", SCOPE), "");
    assert_eq!(format_link("http://example.com/x", SCOPE), "");
}

#[test]
fn rejects_mailto_and_empty_links() {
    assert_eq!(format_link("mailto:someone@example.com", SCOPE), "");
    assert_eq!(format_link("", SCOPE), "");
}

#[test]
fn rejects_a_link_that_is_only_a_fragment_or_a_query() {
    assert_eq!(format_link("#top", SCOPE), "");
    assert_eq!(format_link("?page=2", SCOPE), "");
}

#[test]
fn rejects_a_link_whose_scope_is_cut_by_the_query() {
    assert_eq!(format_link("https://exam?ple.com/a", SCOPE), "");
}

#[test]
fn rejects_a_link_that_names_a_host() {
    assert_eq!(format_link("//cdn.example.net/lib.js", SCOPE), "");
    assert_eq!(format_link("//example.com/a", SCOPE), "");
    assert_eq!(format_link("//", SCOPE), "");
    assert_eq!(format_link("//?x", SCOPE), "");
}

#[test]
fn a_double_slash_behind_the_first_character_is_kept() {
    assert_eq!(format_link("/a//b", SCOPE), "https://example.com/a//b");
    assert_eq!(format_link("/?//", SCOPE), "https://example.com/");
}

#[test]
fn handles_characters_outside_ascii() {
    assert_eq!(
        format_link("/caf\u{e9}/\u{4e2d}\u{6587}?q=\u{e9}", SCOPE),
        "https://example.com/caf\u{e9}/\u{4e2d}\u{6587}"
    );
    assert_eq!(format_link("\u{e9}/x", SCOPE), "");
}

#[test]
fn with_an_empty_scope_every_link_is_kept() {
    assert_eq!(format_link("contact.html#x", ""), "contact.html");
    assert_eq!(format_link("", ""), "");
}

#[test]
fn normalizing_twice_changes_nothing() {
    let links = [
        "https://example.com/a?x=1#frag",
        "/a/b",
        "/",
        "https://example.com",
        "/a//b",
        "/a#b",
    ];
    for link in links {
        let once = format_link(link, SCOPE);
        assert!(!once.is_empty());
        assert_eq!(format_link(&once, SCOPE), once);
    }
}

#[test]
fn normalizing_twice_differs_behind_a_scope_with_a_query() {
    let scope = "https://example.com/?lang=en";
    let once = format_link("/a", scope);
    assert_eq!(once, "https://example.com/?lang=en/a");
    assert_eq!(format_link(&once, scope), "");
}

#[test]
fn accepted_links_start_with_the_scope() {
    let links = [
        "https://example.com/a?x=1#frag",
        "/a/b",
        "contact.html",
        "https://other.com/x",
        "//cdn.example.net/lib.js",
        "",
        "#",
    ];
    for link in links {
        let out = format_link(link, SCOPE);
        assert!(out.is_empty() || out.starts_with(SCOPE));
        assert!(!out.contains('#') && !out.contains('?'));
    }
}
