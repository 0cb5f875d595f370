use fast5ever::repr::preview;
use fast5ever::{Dom, DomError, NodeData, QName, QuirksMode, DOCUMENT};

fn sample() -> (Dom, usize, usize) {
    let mut dom = Dom::new();
    let p1 = dom.create_element("p", &[]);
    let t1 = dom.create_text("one");
    dom.append_child(p1, t1).unwrap();
    let p2 = dom.create_element("p", &[]);
    let t2 = dom.create_text("two");
    dom.append_child(p2, t2).unwrap();
    dom.append_child(DOCUMENT, p1).unwrap();
    dom.append_child(DOCUMENT, p2).unwrap();
    (dom, p1, p2)
}

#[test]
fn readme_example_serializes() {
    let (mut dom, p, _) = sample();
    dom.set_attr(p, "class", "lead").unwrap();
    let mut extra = Dom::new();
    let b = extra.create_element("b", &[]);
    let bang = extra.create_text("!");
    extra.append_child(b, bang).unwrap();
    extra.append_child(DOCUMENT, b).unwrap();
    let b2 = dom.create_element("b", &[]);
    let bang2 = dom.create_text("!");
    dom.append_child(b2, bang2).unwrap();
    dom.append_child(p, b2).unwrap();
    assert_eq!(dom.to_html(DOCUMENT), r#"<p class="lead">one<b>!</b></p><p>two</p>"#);
}

#[test]
fn text_is_escaped_and_void_elements_have_no_end_tag() {
    let mut dom = Dom::new();
    let div = dom.create_element("div", &[("title", "a\"b&c")]);
    let t = dom.create_text("1 < 2 & 3");
    let br = dom.create_element("br", &[]);
    dom.append_child(div, t).unwrap();
    dom.append_child(div, br).unwrap();
    dom.append_child(DOCUMENT, div).unwrap();
    assert_eq!(dom.to_html(DOCUMENT), "<div title=\"a&quot;b&amp;c\">1 &lt; 2 &amp; 3<br></div>");
    assert_eq!(dom.to_html(br), "<br>");
}

#[test]
fn would_cycle_is_refused() {
    let (mut dom, p, _) = sample();
    let q = dom.create_element("q", &[]);
    dom.append_child(p, q).unwrap();
    assert_eq!(dom.append_child(q, p), Err(DomError::WouldCycle));
    assert!(matches!(dom.get(0).data, NodeData::Document));
}

#[test]
fn new_dom_is_a_lone_document() {
    let dom = Dom::new();
    assert_eq!(dom.nodes.len(), 1);
    assert!(matches!(dom.get(DOCUMENT).data, NodeData::Document));
    assert_eq!(dom.parent(DOCUMENT), None);
    assert_eq!(dom.children(DOCUMENT), &[][..]);
    assert_eq!(dom.quirks_mode, QuirksMode::NoQuirks);
    let d = Dom::default();
    assert_eq!(d.nodes.len(), 1);
    assert!(matches!(d.get(DOCUMENT).data, NodeData::Document));
}

#[test]
fn created_nodes_are_detached_and_numbered_in_order() {
    let mut dom = Dom::new();
    let e = dom.create_element("p", &[]);
    let t = dom.create_text("t");
    let c = dom.create_comment("c");
    assert_eq!((e, t, c), (1, 2, 3));
    for id in [e, t, c] {
        assert_eq!(dom.parent(id), None);
        assert_eq!(dom.children(id), &[][..]);
    }
    assert!(matches!(&dom.get(t).data, NodeData::Text { contents } if contents == "t"));
    assert!(matches!(&dom.get(c).data, NodeData::Comment { contents } if contents == "c"));
}

#[test]
fn error_messages() {
    assert_eq!(DomError::NotAChild.message(), "reference node is not a child of this node");
    assert_eq!(DomError::WouldCycle.message(), "inserting a node inside itself would create a cycle");
    assert_eq!(DomError::NotAnElement.message(), "operation requires an element node");
    assert_eq!(DomError::NotTextual.message(), "operation requires a text or comment node");
}

#[test]
fn import_deep_copies_a_subtree() {
    let (src, p, _) = sample();
    let mut dom = Dom::new();
    let copy = dom.import(&src, p);
    assert_eq!(dom.parent(copy), None);
    assert_eq!(dom.to_html(copy), "<p>one</p>");
    dom.append_child(DOCUMENT, copy).unwrap();
    assert_eq!(dom.to_html(DOCUMENT), "<p>one</p>");
    assert_eq!(src.to_html(DOCUMENT), "<p>one</p><p>two</p>");
}

#[test]
fn import_copies_template_contents() {
    let mut src = Dom::new();
    let content = src.push(NodeData::Document);
    let tpl = src.push(NodeData::Element {
        name: QName::html("template"),
        attrs: vec![(QName::plain("id"), "t".to_string())],
        template_contents: Some(content),
    });
    let b = src.create_element("b", &[]);
    src.append_child(content, b).unwrap();
    let mut dom = Dom::new();
    let copy = dom.import(&src, tpl);
    let new_content = dom.template_content(copy).unwrap();
    assert_eq!((new_content, copy), (1, 3));
    assert!(matches!(dom.get(new_content).data, NodeData::Document));
    assert_eq!(dom.to_html(copy), "<template id=\"t\"><b></b></template>");
    assert_eq!(dom.children(new_content).len(), 1);
}

#[test]
fn import_of_a_whole_document_gives_a_detached_document() {
    let (src, _, _) = sample();
    let mut dom = Dom::new();
    let frag = dom.import(&src, DOCUMENT);
    assert!(matches!(dom.get(frag).data, NodeData::Document));
    assert_eq!(dom.to_html(frag), "<p>one</p><p>two</p>");
    assert_eq!(dom.to_text(frag), "onetwo");
}

#[test]
fn repr_of_each_kind() {
    let mut dom = Dom::new();
    let e = dom.create_element("p", &[]);
    let t = dom.create_text("hi\n");
    let c = dom.create_comment("note");
    let d = dom.push(NodeData::Doctype { name: "html".to_string(), public_id: String::new(), system_id: String::new() });
    let pi = dom.push(NodeData::ProcessingInstruction { target: "a".to_string(), contents: "b".to_string() });
    assert_eq!(dom.repr(DOCUMENT), "<Document>");
    assert_eq!(dom.repr(e), "<Element p>");
    assert_eq!(dom.repr(t), "<Text 'hi\\n'>");
    assert_eq!(dom.repr(c), "<Comment 'note'>");
    assert_eq!(dom.repr(d), "<Doctype html>");
    assert_eq!(dom.repr(pi), "<Node #pi>");
}

#[test]
fn preview_caps_at_thirty_characters() {
    assert_eq!(preview(""), "''");
    assert_eq!(preview("a\tb"), "'a\\tb'");
    let thirty = "abcdefghijklmnopqrstuvwxyz0123";
    assert_eq!(preview(thirty), format!("'{thirty}'"));
    assert_eq!(preview("abcdefghijklmnopqrstuvwxyz01234"), format!("'{thirty}\u{2026}'"));
    assert_eq!(preview("ééééééééééééééééééééééééééééééé"), format!("'{}\u{2026}'", "é".repeat(30)));
}
