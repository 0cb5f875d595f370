use fast5ever::{Dom, DomError, NodeData, QName, DOCUMENT};

fn nested() -> (Dom, usize, usize, usize) {
    let mut dom = Dom::new();
    let a = dom.create_element("div", &[]);
    let b = dom.create_element("p", &[]);
    let c = dom.create_text("x");
    dom.append_child(b, c).unwrap();
    dom.append_child(a, b).unwrap();
    dom.append_child(DOCUMENT, a).unwrap();
    (dom, a, b, c)
}

/// A template element, detached, whose contents hold a `b` element.
fn template(dom: &mut Dom) -> (usize, usize, usize) {
    let content = dom.push(NodeData::Document);
    let tpl = dom.push(NodeData::Element {
        name: QName::html("template"),
        attrs: Vec::new(),
        template_contents: Some(content),
    });
    let b = dom.create_element("b", &[]);
    dom.append_child(content, b).unwrap();
    (content, tpl, b)
}

#[test]
fn can_insert_an_unrelated_node() {
    let (mut dom, a, b, _) = nested();
    let e = dom.create_element("em", &[]);
    assert!(dom.can_insert(b, e));
    assert!(dom.can_insert(DOCUMENT, b));
    assert!(dom.can_insert(DOCUMENT, a));
}

#[test]
fn cannot_insert_a_node_into_itself_or_below_it() {
    let (dom, a, b, c) = nested();
    assert!(!dom.can_insert(a, a));
    assert!(!dom.can_insert(b, a));
    assert!(!dom.can_insert(c, a));
    assert!(dom.can_insert(a, c));
}

#[test]
fn cannot_splice_a_document_whose_children_hold_the_parent() {
    let (mut dom, a, b, _) = nested();
    // Splicing the whole document into its own descendant would loop.
    assert!(!dom.can_insert(b, DOCUMENT));
    let mut other = Dom::new();
    let x = other.create_element("x", &[]);
    other.append_child(DOCUMENT, x).unwrap();
    let frag = dom.import(&other, DOCUMENT);
    assert!(dom.can_insert(b, frag));
    assert!(dom.can_insert(a, frag));
}

#[test]
fn cannot_insert_a_template_into_its_own_contents() {
    let mut dom = Dom::new();
    let (content, tpl, b) = template(&mut dom);
    assert!(!dom.can_insert(content, tpl));
    assert!(!dom.can_insert(b, tpl));
    let e = dom.create_element("i", &[]);
    assert!(dom.can_insert(b, e));
    // Not an ancestor by parent links, but held through the template contents.
    assert_eq!(dom.is_ancestor(tpl, b), false);
    assert_eq!(dom.append_child(content, tpl), Err(DomError::WouldCycle));
    assert_eq!(dom.insert_before(b, tpl, None), Err(DomError::WouldCycle));
    assert_eq!(dom.parent(tpl), None);
    assert_eq!(dom.children(content), &[b][..]);
    assert!(dom.is_well_formed());
}

#[test]
fn fresh_and_edited_arenas_are_well_formed() {
    let (mut dom, a, b, c) = nested();
    assert!(Dom::new().is_well_formed());
    assert!(dom.is_well_formed());
    assert!(dom.links_agree());
    dom.detach(b);
    dom.append_child(DOCUMENT, c).unwrap();
    let (_, tpl, _) = template(&mut dom);
    dom.append_child(a, tpl).unwrap();
    assert!(dom.is_well_formed());
}

#[test]
fn a_parent_link_without_a_child_entry_is_caught() {
    let (mut dom, a, b, _) = nested();
    dom.nodes[a].children.clear();
    assert!(!dom.links_agree());
    assert!(!dom.is_well_formed());
    assert_eq!(dom.parent(b), Some(a));
}

#[test]
fn a_child_listed_twice_is_caught() {
    let (mut dom, a, b, _) = nested();
    dom.nodes[a].children.push(b);
    assert!(!dom.links_agree());
    assert!(!dom.is_well_formed());
}

#[test]
fn a_child_entry_without_a_parent_link_is_caught() {
    let (mut dom, _, b, c) = nested();
    dom.nodes[c].parent = None;
    assert!(!dom.links_agree());
    dom.nodes[c].parent = Some(DOCUMENT);
    assert!(!dom.links_agree());
    dom.nodes[c].parent = Some(b);
    assert!(dom.links_agree());
}

#[test]
fn a_document_with_a_parent_and_a_bad_first_node_are_caught() {
    let (mut dom, a, _, _) = nested();
    let d = dom.push(NodeData::Document);
    dom.nodes[d].parent = Some(a);
    dom.nodes[a].children.push(d);
    assert!(!dom.links_agree());
    let mut empty = Dom::new();
    empty.nodes.clear();
    assert!(!empty.links_agree());
    let mut not_doc = Dom::new();
    not_doc.nodes[0].data = NodeData::Text { contents: String::new() };
    assert!(!not_doc.links_agree());
}

#[test]
fn template_contents_must_be_a_document() {
    let (mut dom, a, _, c) = nested();
    if let NodeData::Element { template_contents, .. } = &mut dom.nodes[a].data {
        *template_contents = Some(c);
    }
    assert!(!dom.links_agree());
    if let NodeData::Element { template_contents, .. } = &mut dom.nodes[a].data {
        *template_contents = Some(99);
    }
    assert!(!dom.links_agree());
}

#[test]
fn a_loop_of_parent_links_is_caught() {
    let mut dom = Dom::new();
    let a = dom.create_element("a", &[]);
    let b = dom.create_element("b", &[]);
    dom.nodes[a].children.push(b);
    dom.nodes[b].parent = Some(a);
    dom.nodes[b].children.push(a);
    dom.nodes[a].parent = Some(b);
    assert!(dom.links_agree());
    assert!(!dom.is_well_formed());
}

#[test]
fn a_template_holding_itself_is_caught() {
    let mut dom = Dom::new();
    let (content, tpl, _) = template(&mut dom);
    dom.nodes[content].children.push(tpl);
    dom.nodes[tpl].parent = Some(content);
    assert!(dom.links_agree());
    assert!(!dom.is_well_formed());
}

#[test]
fn splicing_a_document_into_its_descendant_is_refused() {
    let (mut dom, a, b, c) = nested();
    assert!(!dom.can_insert(b, DOCUMENT));
    assert_eq!(dom.insert_before(b, DOCUMENT, Some(c)), Err(DomError::WouldCycle));
    assert_eq!(dom.append_child(a, DOCUMENT), Err(DomError::WouldCycle));
    assert_eq!(dom.replace_child(b, DOCUMENT, c), Err(DomError::WouldCycle));
    assert_eq!(dom.children(DOCUMENT), &[a][..]);
    assert_eq!(dom.to_html(DOCUMENT), "<div><p>x</p></div>");
    assert!(dom.is_well_formed());
}

#[test]
fn splicing_a_document_into_its_child_is_refused() {
    let mut dom = Dom::new();
    let p = dom.create_element("p", &[]);
    dom.append_child(DOCUMENT, p).unwrap();
    assert_eq!(dom.insert_before(p, DOCUMENT, None), Err(DomError::WouldCycle));
    assert_eq!(dom.parent(p), Some(DOCUMENT));
    assert_eq!(dom.children(p), &[][..]);
    assert!(dom.is_well_formed());
}
