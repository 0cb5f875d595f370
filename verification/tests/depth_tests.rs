use fast5ever::{closes_same, is_void, DepthCap, MAX_DEPTH};

#[test]
fn void_elements() {
    for name in ["area", "base", "basefont", "bgsound", "br", "col", "embed", "frame", "hr", "img", "input",
        "keygen", "link", "meta", "param", "source", "track", "wbr"] {
        assert!(is_void(name), "{name}");
    }
    for name in ["div", "p", "BR", "template", "", "brr"] {
        assert!(!is_void(name), "{name}");
    }
}

#[test]
fn elements_that_close_a_same_named_sibling() {
    for name in ["p", "li", "dt", "dd", "tr", "td", "th", "option", "optgroup", "caption", "colgroup", "thead",
        "tbody", "tfoot", "h1", "h2", "h3", "h4", "h5", "h6"] {
        assert!(closes_same(name), "{name}");
    }
    for name in ["div", "ul", "table", "h7", "P", ""] {
        assert!(!closes_same(name), "{name}");
    }
}

#[test]
fn max_depth_matches_chromium() {
    assert_eq!(MAX_DEPTH, 512);
}

#[test]
fn start_tags_deepen_and_end_tags_close() {
    let mut cap = DepthCap::new(());
    assert!(cap.start_tag("div", false));
    assert!(cap.start_tag("span", false));
    assert_eq!(cap.open, vec!["div", "span"]);
    assert!(cap.end_tag("div"));
    assert_eq!(cap.open, Vec::<String>::new());
    assert!(cap.end_tag("b"));
    assert_eq!(cap.open, Vec::<String>::new());
}

#[test]
fn end_tag_closes_the_innermost_match() {
    let mut cap = DepthCap::new(());
    for name in ["a", "b", "a", "c"] {
        assert!(cap.start_tag(name, false));
    }
    assert!(cap.end_tag("a"));
    assert_eq!(cap.open, vec!["a", "b"]);
}

#[test]
fn voids_and_foreign_self_closing_tags_do_not_deepen() {
    let mut cap = DepthCap::new(());
    assert!(cap.start_tag("div", false));
    assert!(cap.start_tag("br", false));
    assert!(cap.start_tag("circle", true));
    assert_eq!(cap.open, vec!["div"]);
}

#[test]
fn sibling_runs_do_not_deepen() {
    let mut cap = DepthCap::new(());
    for _ in 0..5 {
        assert!(cap.start_tag("p", false));
    }
    assert_eq!(cap.open, vec!["p"]);
    assert!(cap.start_tag("div", false));
    assert!(cap.start_tag("p", false));
    assert_eq!(cap.open, vec!["p", "div", "p"]);
}

#[test]
fn tags_beyond_the_cap_are_swallowed_with_their_end_tags() {
    let mut cap = DepthCap::new(7u8);
    for _ in 0..MAX_DEPTH {
        assert!(cap.start_tag("div", false));
    }
    assert_eq!(cap.open.len(), MAX_DEPTH);
    assert!(!cap.start_tag("b", false));
    assert!(!cap.start_tag("div", false));
    assert!(cap.start_tag("br", false));
    assert_eq!(cap.open.len(), MAX_DEPTH);
    assert_eq!(cap.swallowed, vec!["b", "div"]);
    assert!(!cap.end_tag("div"));
    assert_eq!(cap.swallowed, vec!["b"]);
    assert!(!cap.end_tag("b"));
    assert_eq!(cap.swallowed, Vec::<String>::new());
    assert!(cap.end_tag("div"));
    assert_eq!(cap.open.len(), MAX_DEPTH - 1);
    assert_eq!(cap.into_inner(), 7u8);
}

#[test]
fn a_sibling_at_the_cap_still_replaces_its_sibling() {
    let mut cap = DepthCap::new(());
    for _ in 0..MAX_DEPTH - 1 {
        assert!(cap.start_tag("div", false));
    }
    assert!(cap.start_tag("li", false));
    assert!(cap.start_tag("li", false));
    assert_eq!(cap.open.len(), MAX_DEPTH);
    assert!(!cap.start_tag("ul", false));
}
