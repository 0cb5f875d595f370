use fast5ever::{Dom, DomError, NodeData, DOCUMENT};

fn element_with_attrs() -> (Dom, usize) {
    let mut dom = Dom::new();
    let a = dom.create_element("a", &[("href", "/x"), ("class", "lead big"), ("id", "top")]);
    dom.append_child(DOCUMENT, a).unwrap();
    (dom, a)
}

#[test]
fn attr_reads_the_named_attribute() {
    let (dom, a) = element_with_attrs();
    assert_eq!(dom.attr(a, "href"), Some("/x"));
    assert_eq!(dom.attr(a, "id"), Some("top"));
    assert_eq!(dom.attr(a, "title"), None);
    assert_eq!(dom.attr(DOCUMENT, "href"), None);
}

#[test]
fn set_attr_overwrites_in_place_and_keeps_order() {
    let (mut dom, a) = element_with_attrs();
    assert_eq!(dom.set_attr(a, "class", "small"), Ok(()));
    assert_eq!(dom.attr(a, "class"), Some("small"));
    assert_eq!(dom.attr_names(a), vec!["href", "class", "id"]);
    assert_eq!(dom.attr_values(a), vec!["/x", "small", "top"]);
}

#[test]
fn set_attr_appends_a_new_attribute() {
    let (mut dom, a) = element_with_attrs();
    assert_eq!(dom.set_attr(a, "title", "T"), Ok(()));
    assert_eq!(dom.attr_names(a), vec!["href", "class", "id", "title"]);
    assert_eq!(dom.attr_count(a), 4);
    assert_eq!(dom.to_html(a), r#"<a href="/x" class="lead big" id="top" title="T"></a>"#);
}

#[test]
fn set_attr_then_attr_reads_it_back() {
    let (mut dom, a) = element_with_attrs();
    dom.set_attr(a, "data-op", "sum").unwrap();
    assert_eq!(dom.attr(a, "data-op"), Some("sum"));
    assert_eq!(dom.attr(a, "href"), Some("/x"));
}

#[test]
fn set_attr_on_a_text_node_is_refused() {
    let mut dom = Dom::new();
    let t = dom.create_text("x");
    assert_eq!(dom.set_attr(t, "k", "v"), Err(DomError::NotAnElement));
    assert_eq!(dom.text(t), Some("x".to_string()));
}

#[test]
fn remove_attr_returns_the_old_value() {
    let (mut dom, a) = element_with_attrs();
    assert_eq!(dom.remove_attr(a, "class"), Ok(Some("lead big".to_string())));
    assert_eq!(dom.attr(a, "class"), None);
    assert_eq!(dom.attr_names(a), vec!["href", "id"]);
    assert_eq!(dom.remove_attr(a, "class"), Ok(None));
    assert_eq!(dom.attr_count(a), 2);
}

#[test]
fn remove_attr_on_a_comment_is_refused() {
    let mut dom = Dom::new();
    let c = dom.create_comment("c");
    assert_eq!(dom.remove_attr(c, "k"), Err(DomError::NotAnElement));
}

#[test]
fn set_text_changes_text_and_comment_nodes() {
    let mut dom = Dom::new();
    let t = dom.create_text("old");
    let c = dom.create_comment("note");
    assert_eq!(dom.set_text(t, "new"), Ok(()));
    assert_eq!(dom.set_text(c, "changed"), Ok(()));
    assert_eq!(dom.text(t), Some("new".to_string()));
    assert_eq!(dom.text(c), Some("changed".to_string()));
    assert_eq!(dom.to_html(c), "<!--changed-->");
}

#[test]
fn set_text_on_an_element_is_refused() {
    let (mut dom, a) = element_with_attrs();
    assert_eq!(dom.set_text(a, "x"), Err(DomError::NotTextual));
    assert_eq!(dom.set_text(DOCUMENT, "x"), Err(DomError::NotTextual));
    assert!(matches!(dom.get(a).data, NodeData::Element { .. }));
}

#[test]
fn attribute_lists_of_non_elements_are_empty() {
    let mut dom = Dom::new();
    let t = dom.create_text("x");
    assert_eq!(dom.attr_names(t), Vec::<String>::new());
    assert_eq!(dom.attr_values(t), Vec::<String>::new());
    assert_eq!(dom.attr_count(t), 0);
}

#[test]
fn create_element_keeps_attributes_in_order() {
    let mut dom = Dom::new();
    let e = dom.create_element("div", &[("b", "2"), ("a", "1")]);
    assert_eq!(dom.attr_names(e), vec!["b", "a"]);
    match &dom.get(e).data {
        NodeData::Element { name, attrs, template_contents } => {
            assert_eq!(name.local, "div");
            assert_eq!(name.ns, "http://www.w3.org/1999/xhtml");
            assert_eq!(name.prefix, None);
            assert_eq!(attrs[0].0.ns, "");
            assert_eq!(attrs[0].1, "2");
            assert_eq!(*template_contents, None);
        }
        _ => panic!("not an element"),
    }
    assert_eq!(dom.parent(e), None);
}
