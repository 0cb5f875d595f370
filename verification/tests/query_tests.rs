use fast5ever::names::contains_token;
use fast5ever::{Dom, DomError, NodeData, QName, DOCUMENT};

const SVG: &str = "http://www.w3.org/2000/svg";

fn svg_anchor(dom: &mut Dom) -> usize {
    dom.push(NodeData::Element {
        name: QName { prefix: None, ns: SVG.to_string(), local: "a".to_string() },
        attrs: Vec::new(),
        template_contents: None,
    })
}

#[test]
fn node_names_of_each_kind() {
    let mut dom = Dom::new();
    let e = dom.create_element("section", &[]);
    let t = dom.create_text("x");
    let c = dom.create_comment("y");
    let d = dom.push(NodeData::Doctype {
        name: "html".to_string(),
        public_id: String::new(),
        system_id: String::new(),
    });
    let pi = dom.push(NodeData::ProcessingInstruction { target: "xml".to_string(), contents: "v".to_string() });
    assert_eq!(dom.node_name(DOCUMENT), "#document");
    assert_eq!(dom.node_name(e), "section");
    assert_eq!(dom.node_name(t), "#text");
    assert_eq!(dom.node_name(c), "#comment");
    assert_eq!(dom.node_name(d), "#doctype");
    assert_eq!(dom.node_name(pi), "#pi");
}

#[test]
fn tag_is_the_local_name_of_elements_only() {
    let mut dom = Dom::new();
    let e = dom.create_element("p", &[]);
    let t = dom.create_text("p");
    let s = svg_anchor(&mut dom);
    assert_eq!(dom.tag(e), Some("p"));
    assert_eq!(dom.tag(s), Some("a"));
    assert_eq!(dom.tag(t), None);
    assert_eq!(dom.tag(DOCUMENT), None);
}

#[test]
fn is_tag_matches_html_unless_a_namespace_is_given() {
    let mut dom = Dom::new();
    let a = dom.create_element("a", &[]);
    let s = svg_anchor(&mut dom);
    let t = dom.create_text("a");
    assert!(dom.is_tag(a, "a", None));
    assert!(!dom.is_tag(a, "A", None));
    assert!(!dom.is_tag(s, "a", None));
    assert!(dom.is_tag(s, "a", Some(SVG)));
    assert!(!dom.is_tag(a, "a", Some(SVG)));
    assert!(!dom.is_tag(t, "a", None));
}

#[test]
fn namespace_is_reported_for_foreign_elements_only() {
    let mut dom = Dom::new();
    let a = dom.create_element("a", &[]);
    let s = svg_anchor(&mut dom);
    assert_eq!(dom.namespace(a), None);
    assert_eq!(dom.namespace(s), Some(SVG.to_string()));
    assert_eq!(dom.namespace(DOCUMENT), None);
}

#[test]
fn text_of_text_comment_and_other_nodes() {
    let mut dom = Dom::new();
    let t = dom.create_text("hello");
    let c = dom.create_comment("note");
    let e = dom.create_element("b", &[]);
    assert_eq!(dom.text(t), Some("hello".to_string()));
    assert_eq!(dom.text(c), Some("note".to_string()));
    assert_eq!(dom.text(e), None);
}

#[test]
fn rename_keeps_attributes_and_children() {
    let mut dom = Dom::new();
    let e = dom.create_element("div", &[("id", "x")]);
    let t = dom.create_text("body");
    dom.append_child(e, t).unwrap();
    dom.append_child(DOCUMENT, e).unwrap();
    assert_eq!(dom.rename(e, "details"), Ok(()));
    assert_eq!(dom.tag(e), Some("details"));
    assert_eq!(dom.attr(e, "id"), Some("x"));
    assert_eq!(dom.children(e), &[t][..]);
    assert_eq!(dom.to_html(DOCUMENT), r#"<details id="x">body</details>"#);
}

#[test]
fn rename_of_a_text_node_is_refused() {
    let mut dom = Dom::new();
    let t = dom.create_text("x");
    assert_eq!(dom.rename(t, "p"), Err(DomError::NotAnElement));
    assert_eq!(dom.node_name(t), "#text");
}

#[test]
fn element_children_skip_text_and_comments() {
    let mut dom = Dom::new();
    let div = dom.create_element("div", &[]);
    let t = dom.create_text("a");
    let p = dom.create_element("p", &[]);
    let c = dom.create_comment("c");
    let s = svg_anchor(&mut dom);
    for k in [t, p, c, s] {
        dom.append_child(div, k).unwrap();
    }
    assert_eq!(dom.element_children(div), vec![p, s]);
    assert_eq!(dom.element_children(p), Vec::<usize>::new());
}

#[test]
fn has_class_matches_whole_tokens() {
    let mut dom = Dom::new();
    let e = dom.create_element("p", &[("class", " lead\tbig\nX\x0Cend\r")]);
    assert!(dom.has_class(e, "lead"));
    assert!(dom.has_class(e, "big"));
    assert!(dom.has_class(e, "X"));
    assert!(dom.has_class(e, "end"));
    assert!(!dom.has_class(e, "x"));
    assert!(!dom.has_class(e, "lea"));
    assert!(!dom.has_class(e, "lead big"));
    assert!(!dom.has_class(e, ""));
}

#[test]
fn has_class_is_false_without_a_class_attribute() {
    let mut dom = Dom::new();
    let e = dom.create_element("p", &[("id", "lead")]);
    let t = dom.create_text("lead");
    assert!(!dom.has_class(e, "lead"));
    assert!(!dom.has_class(t, "lead"));
}

#[test]
fn contains_token_splits_on_ascii_whitespace_only() {
    assert!(contains_token("a b", "b"));
    assert!(contains_token("b", "b"));
    assert!(!contains_token("a\u{a0}b", "b"));
    assert!(contains_token("a\u{a0}b", "a\u{a0}b"));
    assert!(!contains_token("", "a"));
    assert!(!contains_token("   ", ""));
}

#[test]
fn template_content_of_template_and_other_elements() {
    let mut dom = Dom::new();
    let doc = dom.push(NodeData::Document);
    let tpl = dom.push(NodeData::Element {
        name: QName::html("template"),
        attrs: Vec::new(),
        template_contents: Some(doc),
    });
    let p = dom.create_element("p", &[]);
    assert_eq!(dom.template_content(tpl), Some(doc));
    assert_eq!(dom.template_content(p), None);
    assert_eq!(dom.template_content(DOCUMENT), None);
}
