use fast5ever::sink::{into_fragment, qname_eq, NodeOrText, Sink};
use fast5ever::{NodeData, QName, QuirksMode, DOCUMENT};

fn element(sink: &mut Sink, name: &str) -> usize {
    sink.create_element(QName::html(name), Vec::new(), false)
}

#[test]
fn new_sink_holds_just_a_document() {
    let sink = Sink::new();
    let dom = sink.finish();
    assert_eq!(dom.nodes.len(), 1);
    assert!(matches!(dom.get(DOCUMENT).data, NodeData::Document));
    assert_eq!(dom.quirks_mode, QuirksMode::NoQuirks);
}

#[test]
fn append_text_merges_with_a_trailing_text_node() {
    let mut sink = Sink::new();
    let p = element(&mut sink, "p");
    sink.append(DOCUMENT, NodeOrText::AppendNode(p));
    sink.append(p, NodeOrText::AppendText("a".to_string()));
    sink.append(p, NodeOrText::AppendText("b".to_string()));
    let b = element(&mut sink, "b");
    sink.append(p, NodeOrText::AppendNode(b));
    sink.append_text(p, "c");
    let dom = sink.finish();
    assert_eq!(dom.children(p).len(), 3);
    assert_eq!(dom.text(dom.children(p)[0]), Some("ab".to_string()));
    assert_eq!(dom.to_html(DOCUMENT), "<p>ab<b></b>c</p>");
}

#[test]
fn template_elements_get_a_contents_document() {
    let mut sink = Sink::new();
    let tpl = sink.create_element(QName::html("template"), Vec::new(), true);
    let content = sink.get_template_contents(tpl);
    assert_eq!(content, tpl - 1);
    let i = element(&mut sink, "i");
    sink.append(content, NodeOrText::AppendNode(i));
    sink.append(DOCUMENT, NodeOrText::AppendNode(tpl));
    let dom = sink.finish();
    assert!(matches!(dom.get(content).data, NodeData::Document));
    assert_eq!(dom.template_content(tpl), Some(content));
    assert_eq!(dom.to_html(DOCUMENT), "<template><i></i></template>");
}

#[test]
fn comments_pis_and_doctypes() {
    let mut sink = Sink::new();
    sink.append_doctype_to_document("html".to_string(), String::new(), String::new());
    let c = sink.create_comment("c".to_string());
    sink.append(DOCUMENT, NodeOrText::AppendNode(c));
    let pi = sink.create_pi("t".to_string(), "d".to_string());
    sink.append(DOCUMENT, NodeOrText::AppendNode(pi));
    let dom = sink.finish();
    assert_eq!(dom.to_html(DOCUMENT), "<!DOCTYPE html><!--c--><?t d>");
}

#[test]
fn append_before_sibling_merges_text_with_the_previous_sibling() {
    let mut sink = Sink::new();
    let div = element(&mut sink, "div");
    sink.append(DOCUMENT, NodeOrText::AppendNode(div));
    sink.append_text(div, "x");
    let table = element(&mut sink, "table");
    sink.append(div, NodeOrText::AppendNode(table));
    sink.append_before_sibling(table, NodeOrText::AppendText("y".to_string()));
    let dom = sink.finish();
    assert_eq!(dom.children(div).len(), 2);
    assert_eq!(dom.to_html(DOCUMENT), "<div>xy<table></table></div>");
}

#[test]
fn append_before_sibling_inserts_new_text_and_moves_nodes() {
    let mut sink = Sink::new();
    let div = element(&mut sink, "div");
    sink.append(DOCUMENT, NodeOrText::AppendNode(div));
    let table = element(&mut sink, "table");
    sink.append(div, NodeOrText::AppendNode(table));
    sink.append_before_sibling(table, NodeOrText::AppendText("y".to_string()));
    let b = element(&mut sink, "b");
    sink.append(table, NodeOrText::AppendNode(b));
    sink.append_before_sibling(table, NodeOrText::AppendNode(b));
    assert_eq!(sink.parent_and_index(table), (div, 2));
    let dom = sink.finish();
    assert_eq!(dom.to_html(DOCUMENT), "<div>y<b></b><table></table></div>");
}

#[test]
fn append_based_on_parent_node_picks_where_to_insert() {
    let mut sink = Sink::new();
    let div = element(&mut sink, "div");
    sink.append(DOCUMENT, NodeOrText::AppendNode(div));
    let table = element(&mut sink, "table");
    sink.append(div, NodeOrText::AppendNode(table));
    let other = element(&mut sink, "span");
    sink.append_based_on_parent_node(table, other, NodeOrText::AppendText("a".to_string()));
    let lone = element(&mut sink, "em");
    sink.append_based_on_parent_node(lone, other, NodeOrText::AppendText("b".to_string()));
    let dom = sink.finish();
    assert_eq!(dom.to_html(div), "<div>a<table></table></div>");
    assert_eq!(dom.to_html(other), "<span>b</span>");
}

#[test]
fn add_attrs_if_missing_keeps_existing_values() {
    let mut sink = Sink::new();
    let body = sink.create_element(QName::html("body"), vec![(QName::plain("id"), "a".to_string())], false);
    sink.add_attrs_if_missing(
        body,
        vec![(QName::plain("id"), "b".to_string()), (QName::plain("class"), "c".to_string())],
    );
    let dom = sink.finish();
    assert_eq!(dom.attr_names(body), vec!["id", "class"]);
    assert_eq!(dom.attr(body, "id"), Some("a"));
    assert_eq!(dom.attr(body, "class"), Some("c"));
}

#[test]
fn reparent_children_moves_them_to_the_end() {
    let mut sink = Sink::new();
    let a = element(&mut sink, "a");
    let b = element(&mut sink, "b");
    sink.append(DOCUMENT, NodeOrText::AppendNode(a));
    sink.append(DOCUMENT, NodeOrText::AppendNode(b));
    sink.append_text(a, "1");
    let i = element(&mut sink, "i");
    sink.append(a, NodeOrText::AppendNode(i));
    sink.append_text(b, "0");
    sink.reparent_children(a, b);
    let dom = sink.finish();
    assert_eq!(dom.children(a).len(), 0);
    assert_eq!(dom.to_html(DOCUMENT), "<a></a><b>01<i></i></b>");
    assert_eq!(dom.parent(i), Some(b));
}

#[test]
fn remove_from_parent_and_detach() {
    let mut sink = Sink::new();
    let a = element(&mut sink, "a");
    let b = element(&mut sink, "b");
    sink.append(DOCUMENT, NodeOrText::AppendNode(a));
    sink.append(DOCUMENT, NodeOrText::AppendNode(b));
    sink.remove_from_parent(a);
    sink.detach(a);
    let dom = sink.finish();
    assert_eq!(dom.children(DOCUMENT), &[b][..]);
    assert_eq!(dom.parent(a), None);
}

#[test]
fn insert_at_places_a_node_at_an_index() {
    let mut sink = Sink::new();
    let a = element(&mut sink, "a");
    let b = element(&mut sink, "b");
    sink.append_node(DOCUMENT, a);
    sink.insert_at(DOCUMENT, 0, b);
    let dom = sink.finish();
    assert_eq!(dom.children(DOCUMENT), &[b, a][..]);
}

#[test]
fn quirks_mode_is_recorded() {
    let mut sink = Sink::new();
    sink.set_quirks_mode(QuirksMode::LimitedQuirks);
    let dom = sink.finish();
    assert_eq!(dom.quirks_mode, QuirksMode::LimitedQuirks);
}

#[test]
fn elem_name_and_qname_eq() {
    let mut sink = Sink::new();
    let p = element(&mut sink, "p");
    assert!(qname_eq(sink.elem_name(p), &QName::html("p")));
    assert!(!qname_eq(sink.elem_name(p), &QName::html("q")));
    assert!(!qname_eq(sink.elem_name(p), &QName::plain("p")));
    let prefixed = QName { prefix: Some("x".to_string()), ns: String::new(), local: "p".to_string() };
    assert!(!qname_eq(&prefixed, &QName::plain("p")));
    assert!(qname_eq(&prefixed, &prefixed.duplicate()));
}

#[test]
fn into_fragment_lifts_the_wrapper_children() {
    let mut sink = Sink::new();
    let html = element(&mut sink, "html");
    sink.append(DOCUMENT, NodeOrText::AppendNode(html));
    let p = element(&mut sink, "p");
    sink.append(html, NodeOrText::AppendNode(p));
    sink.append_text(html, "t");
    let dom = into_fragment(sink.finish());
    assert_eq!(dom.children(DOCUMENT).len(), 2);
    assert_eq!(dom.children(DOCUMENT)[0], p);
    assert_eq!(dom.parent(p), Some(DOCUMENT));
    assert_eq!(dom.children(html).len(), 0);
    assert_eq!(dom.parent(html), None);
    assert_eq!(dom.to_html(DOCUMENT), "<p></p>t");
}

#[test]
fn into_fragment_without_an_element_changes_nothing() {
    let mut sink = Sink::new();
    let c = sink.create_comment("c".to_string());
    sink.append(DOCUMENT, NodeOrText::AppendNode(c));
    let dom = into_fragment(sink.finish());
    assert_eq!(dom.children(DOCUMENT), &[c][..]);
}

#[test]
fn into_fragment_keeps_nodes_around_the_wrapper() {
    let mut sink = Sink::new();
    let c = sink.create_comment("c".to_string());
    sink.append(DOCUMENT, NodeOrText::AppendNode(c));
    let html = element(&mut sink, "html");
    sink.append(DOCUMENT, NodeOrText::AppendNode(html));
    let d = sink.create_comment("d".to_string());
    sink.append(DOCUMENT, NodeOrText::AppendNode(d));
    let x = element(&mut sink, "x");
    let y = element(&mut sink, "y");
    sink.append(html, NodeOrText::AppendNode(x));
    sink.append(html, NodeOrText::AppendNode(y));
    let dom = into_fragment(sink.finish());
    assert_eq!(dom.children(DOCUMENT), &[c, x, y, d][..]);
}
