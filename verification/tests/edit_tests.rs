use fast5ever::edit::position;
use fast5ever::{Dom, DomError, NodeData, DOCUMENT};

/// `<ul><li>a</li><li>b</li><li>c</li></ul>` under the document.
fn list() -> (Dom, usize, Vec<usize>) {
    let mut dom = Dom::new();
    let ul = dom.create_element("ul", &[]);
    let mut items = Vec::new();
    for s in ["a", "b", "c"] {
        let li = dom.create_element("li", &[]);
        let t = dom.create_text(s);
        dom.append_child(li, t).unwrap();
        dom.append_child(ul, li).unwrap();
        items.push(li);
    }
    dom.append_child(DOCUMENT, ul).unwrap();
    (dom, ul, items)
}

#[test]
fn append_child_adds_the_last_child() {
    let (mut dom, ul, items) = list();
    let li = dom.create_element("li", &[]);
    assert_eq!(dom.append_child(ul, li), Ok(()));
    assert_eq!(dom.children(ul), &[items[0], items[1], items[2], li][..]);
    assert_eq!(dom.parent(li), Some(ul));
}

#[test]
fn insert_before_a_reference() {
    let (mut dom, ul, items) = list();
    let li = dom.create_element("li", &[]);
    assert_eq!(dom.insert_before(ul, li, Some(items[1])), Ok(()));
    assert_eq!(dom.children(ul), &[items[0], li, items[1], items[2]][..]);
    assert_eq!(dom.to_html(ul), "<ul><li>a</li><li></li><li>b</li><li>c</li></ul>");
}

#[test]
fn insert_before_none_appends() {
    let (mut dom, ul, items) = list();
    let li = dom.create_element("li", &[]);
    assert_eq!(dom.insert_before(ul, li, None), Ok(()));
    assert_eq!(dom.children(ul), &[items[0], items[1], items[2], li][..]);
}

#[test]
fn insert_before_a_non_child_is_refused() {
    let (mut dom, ul, items) = list();
    let li = dom.create_element("li", &[]);
    assert_eq!(dom.insert_before(items[0], li, Some(items[1])), Err(DomError::NotAChild));
    assert_eq!(dom.children(ul), &items[..]);
    assert_eq!(dom.parent(li), None);
}

#[test]
fn moving_a_node_takes_it_from_its_old_parent() {
    let (mut dom, ul, items) = list();
    assert_eq!(dom.insert_before(ul, items[2], Some(items[0])), Ok(()));
    assert_eq!(dom.children(ul), &[items[2], items[0], items[1]][..]);
    assert_eq!(dom.to_text(ul), "cab");
}

#[test]
fn inserting_an_ancestor_is_refused() {
    let (mut dom, ul, items) = list();
    let text = dom.children(items[0])[0];
    assert_eq!(dom.append_child(text, ul), Err(DomError::WouldCycle));
    assert_eq!(dom.append_child(ul, ul), Err(DomError::WouldCycle));
    assert_eq!(dom.insert_before(items[1], ul, None), Err(DomError::WouldCycle));
    assert_eq!(dom.parent(ul), Some(DOCUMENT));
    assert_eq!(dom.children(ul), &items[..]);
}

#[test]
fn detach_removes_a_node_from_its_parent() {
    let (mut dom, ul, items) = list();
    dom.detach(items[1]);
    assert_eq!(dom.parent(items[1]), None);
    assert_eq!(dom.children(ul), &[items[0], items[2]][..]);
    assert_eq!(dom.to_html(DOCUMENT), "<ul><li>a</li><li>c</li></ul>");
    assert_eq!(dom.to_html(items[1]), "<li>b</li>");
}

#[test]
fn detach_twice_is_a_no_op() {
    let (mut dom, ul, items) = list();
    dom.detach(items[0]);
    dom.detach(items[0]);
    dom.detach(DOCUMENT);
    assert_eq!(dom.children(ul), &[items[1], items[2]][..]);
    assert_eq!(dom.parent(items[0]), None);
}

#[test]
fn replace_child_swaps_in_the_new_node() {
    let (mut dom, ul, items) = list();
    let li = dom.create_element("li", &[("class", "new")]);
    assert_eq!(dom.replace_child(ul, li, items[1]), Ok(()));
    assert_eq!(dom.children(ul), &[items[0], li, items[2]][..]);
    assert_eq!(dom.parent(items[1]), None);
    assert_eq!(dom.to_html(ul), r#"<ul><li>a</li><li class="new"></li><li>c</li></ul>"#);
}

#[test]
fn replace_child_with_itself_changes_nothing() {
    let (mut dom, ul, items) = list();
    assert_eq!(dom.replace_child(ul, items[1], items[1]), Ok(()));
    assert_eq!(dom.children(ul), &items[..]);
}

#[test]
fn replace_child_of_a_non_child_is_refused() {
    let (mut dom, ul, items) = list();
    let li = dom.create_element("li", &[]);
    assert_eq!(dom.replace_child(items[0], li, items[1]), Err(DomError::NotAChild));
    assert_eq!(dom.children(ul), &items[..]);
}

#[test]
fn replace_child_by_an_ancestor_is_refused() {
    let (mut dom, ul, items) = list();
    let text = dom.children(items[0])[0];
    assert_eq!(dom.replace_child(items[0], ul, text), Err(DomError::WouldCycle));
    assert_eq!(dom.parent(ul), Some(DOCUMENT));
}

#[test]
fn clear_children_detaches_every_child() {
    let (mut dom, ul, items) = list();
    dom.clear_children(ul);
    assert_eq!(dom.children(ul), &[][..]);
    for li in items {
        assert_eq!(dom.parent(li), None);
    }
    assert_eq!(dom.to_html(DOCUMENT), "<ul></ul>");
}

#[test]
fn inserting_a_document_splices_its_children() {
    let (mut dom, ul, items) = list();
    let mut other = Dom::new();
    let x = other.create_element("li", &[]);
    let y = other.create_comment("y");
    other.append_child(DOCUMENT, x).unwrap();
    other.append_child(DOCUMENT, y).unwrap();
    let frag = dom.import(&other, DOCUMENT);
    assert!(matches!(dom.get(frag).data, NodeData::Document));
    assert_eq!(dom.insert_before(ul, frag, Some(items[1])), Ok(()));
    assert_eq!(dom.children(frag), &[][..]);
    assert_eq!(dom.children(ul).len(), 5);
    assert_eq!(dom.to_html(ul), "<ul><li>a</li><li></li><!--y--><li>b</li><li>c</li></ul>");
    assert_eq!(dom.parent(frag), None);
}

#[test]
fn replacing_with_a_document_splices_its_children() {
    let (mut dom, ul, items) = list();
    let mut other = Dom::new();
    let b = other.create_element("b", &[]);
    let t = other.create_text("!");
    other.append_child(b, t).unwrap();
    other.append_child(DOCUMENT, b).unwrap();
    let frag = dom.import(&other, DOCUMENT);
    assert_eq!(dom.replace_child(ul, frag, items[0]), Ok(()));
    assert_eq!(dom.to_html(ul), "<ul><b>!</b><li>b</li><li>c</li></ul>");
    assert_eq!(dom.parent(items[0]), None);
}

#[test]
fn is_ancestor_follows_parent_links() {
    let (dom, ul, items) = list();
    let text = dom.children(items[2])[0];
    assert!(dom.is_ancestor(ul, text));
    assert!(dom.is_ancestor(DOCUMENT, text));
    assert!(dom.is_ancestor(text, text));
    assert!(!dom.is_ancestor(items[0], text));
    assert!(!dom.is_ancestor(text, ul));
}

#[test]
fn position_finds_the_first_occurrence() {
    let v = vec![4usize, 7, 9, 7];
    assert_eq!(position(&v, 7), Some(1));
    assert_eq!(position(&v, 4), Some(0));
    assert_eq!(position(&v, 5), None);
}

#[test]
fn node_ids_stay_valid_across_edits() {
    let (mut dom, ul, items) = list();
    let n = dom.nodes.len();
    dom.detach(ul);
    dom.clear_children(ul);
    dom.append_child(DOCUMENT, items[2]).unwrap();
    assert_eq!(dom.nodes.len(), n);
    assert_eq!(dom.to_html(items[2]), "<li>c</li>");
    assert_eq!(dom.to_html(DOCUMENT), "<li>c</li>");
}

#[test]
fn replace_child_of_an_unknown_id_is_refused() {
    let (mut dom, ul, items) = list();
    let li = dom.create_element("li", &[]);
    assert_eq!(dom.replace_child(ul, li, 999), Err(DomError::NotAChild));
    assert_eq!(dom.children(ul), &items[..]);
    assert_eq!(dom.parent(li), None);
}

#[test]
fn inserting_a_child_before_itself_leaves_it_in_place() {
    let (mut dom, ul, items) = list();
    assert_eq!(dom.insert_before(ul, items[1], Some(items[1])), Ok(()));
    assert_eq!(dom.children(ul), &items[..]);
    assert_eq!(dom.parent(items[1]), Some(ul));
}

#[test]
fn a_refused_insertion_leaves_the_child_where_it_was() {
    let (mut dom, ul, items) = list();
    let other = dom.create_element("ol", &[]);
    assert_eq!(dom.insert_before(other, items[0], Some(items[1])), Err(DomError::NotAChild));
    assert_eq!(dom.parent(items[0]), Some(ul));
    assert_eq!(dom.children(ul), &items[..]);
    assert_eq!(dom.children(other), &[][..]);
}

#[test]
fn a_refused_document_splice_leaves_its_children() {
    let (mut dom, ul, items) = list();
    let mut src = Dom::new();
    let x = src.create_element("li", &[]);
    src.append_child(DOCUMENT, x).unwrap();
    let frag = dom.import(&src, DOCUMENT);
    assert_eq!(dom.insert_before(ul, frag, Some(frag)), Err(DomError::NotAChild));
    assert_eq!(dom.children(frag).len(), 1);
    assert_eq!(dom.children(ul), &items[..]);
}

#[test]
fn a_refused_replacement_leaves_the_new_node_where_it_was() {
    let (mut dom, ul, items) = list();
    let other = dom.create_element("ol", &[]);
    let li = dom.create_element("li", &[]);
    dom.append_child(other, li).unwrap();
    assert_eq!(dom.replace_child(ul, li, other), Err(DomError::NotAChild));
    assert_eq!(dom.parent(li), Some(other));
    assert_eq!(dom.children(other), &[li][..]);
    assert_eq!(dom.children(ul), &items[..]);
}
