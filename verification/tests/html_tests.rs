use fast5ever::{Dom, NodeData, QName, DOCUMENT};

fn under_document(dom: &mut Dom, id: usize) {
    dom.append_child(DOCUMENT, id).unwrap();
}

#[test]
fn comment_doctype_and_processing_instruction() {
    let mut dom = Dom::new();
    let d = dom.push(NodeData::Doctype {
        name: "html".to_string(),
        public_id: "p".to_string(),
        system_id: "s".to_string(),
    });
    let c = dom.create_comment(" a < b ");
    let pi = dom.push(NodeData::ProcessingInstruction { target: "xml".to_string(), contents: "v=1".to_string() });
    for id in [d, c, pi] {
        under_document(&mut dom, id);
    }
    assert_eq!(dom.to_html(DOCUMENT), "<!DOCTYPE html><!-- a < b --><?xml v=1>");
    assert_eq!(dom.to_html(d), "<!DOCTYPE html>");
}

#[test]
fn text_escapes_ampersand_angle_brackets_and_nbsp() {
    let mut dom = Dom::new();
    let p = dom.create_element("p", &[]);
    let t = dom.create_text("a&b <c> \"d\" '\u{a0}'");
    dom.append_child(p, t).unwrap();
    assert_eq!(dom.to_html(p), "<p>a&amp;b &lt;c&gt; \"d\" '&nbsp;'</p>");
    assert_eq!(dom.to_html(t), "a&amp;b &lt;c&gt; \"d\" '&nbsp;'");
}

#[test]
fn attribute_values_escape_quotes() {
    let mut dom = Dom::new();
    let p = dom.create_element("p", &[("title", "\"x\" & 'y'\u{a0}"), ("open", "")]);
    assert_eq!(dom.to_html(p), "<p title=\"&quot;x&quot; &amp; 'y'&nbsp;\" open=\"\"></p>");
}

#[test]
fn raw_text_elements_keep_their_text() {
    let mut dom = Dom::new();
    for name in ["script", "style", "xmp", "iframe", "noembed", "noframes", "plaintext", "noscript"] {
        let e = dom.create_element(name, &[]);
        let t = dom.create_text("a < b && c");
        dom.append_child(e, t).unwrap();
        assert_eq!(dom.to_html(e), format!("<{name}>a < b && c</{name}>"));
    }
    let e = dom.create_element("textarea", &[]);
    let t = dom.create_text("a < b");
    dom.append_child(e, t).unwrap();
    assert_eq!(dom.to_html(e), "<textarea>a &lt; b</textarea>");
}

#[test]
fn void_elements_have_no_end_tag_and_hide_child_elements() {
    let mut dom = Dom::new();
    let img = dom.create_element("img", &[("src", "a.png")]);
    let t = dom.create_text("shown");
    dom.append_child(img, t).unwrap();
    let b = dom.create_element("b", &[]);
    dom.append_child(img, b).unwrap();
    let div = dom.create_element("div", &[]);
    dom.append_child(div, img).unwrap();
    let hr = dom.create_element("hr", &[]);
    dom.append_child(div, hr).unwrap();
    assert_eq!(dom.to_html(div), "<div><img src=\"a.png\">shown<hr></div>");
}

#[test]
fn foreign_elements_always_get_end_tags() {
    let mut dom = Dom::new();
    let svg = dom.push(NodeData::Element {
        name: QName { prefix: None, ns: "http://www.w3.org/2000/svg".to_string(), local: "br".to_string() },
        attrs: vec![(QName::plain("x"), "1".to_string())],
        template_contents: None,
    });
    assert_eq!(dom.to_html(svg), "<br x=\"1\"></br>");
}

#[test]
fn template_contents_serialize_inside_the_template() {
    let mut dom = Dom::new();
    let content = dom.push(NodeData::Document);
    let tpl = dom.push(NodeData::Element {
        name: QName::html("template"),
        attrs: Vec::new(),
        template_contents: Some(content),
    });
    let b = dom.create_element("b", &[]);
    let t = dom.create_text("x");
    dom.append_child(b, t).unwrap();
    dom.append_child(content, b).unwrap();
    under_document(&mut dom, tpl);
    assert_eq!(dom.to_html(DOCUMENT), "<template><b>x</b></template>");
    assert_eq!(dom.to_html(content), "<b>x</b>");
    assert_eq!(dom.serial_children(tpl), &[b][..]);
    assert_eq!(dom.children(tpl), &[][..]);
    assert_eq!(dom.to_text(DOCUMENT), "x");
    assert_eq!(dom.descendants(DOCUMENT), vec![tpl, b]);
    assert_eq!(dom.descendants(tpl), vec![tpl, b]);
    assert_eq!(dom.descendants(t), Vec::<usize>::new());
}

#[test]
fn empty_document_serializes_to_nothing() {
    let dom = Dom::new();
    assert_eq!(dom.to_html(DOCUMENT), "");
    assert_eq!(dom.to_text(DOCUMENT), "");
    assert_eq!(dom.descendants(DOCUMENT), Vec::<usize>::new());
}

#[test]
fn descendants_are_the_elements_in_document_order() {
    let mut dom = Dom::new();
    let div = dom.create_element("div", &[]);
    let p = dom.create_element("p", &[]);
    let a = dom.create_text("a");
    let c = dom.create_comment("c");
    let b = dom.create_text("b");
    dom.append_child(p, a).unwrap();
    dom.append_child(div, p).unwrap();
    dom.append_child(div, c).unwrap();
    dom.append_child(div, b).unwrap();
    under_document(&mut dom, div);
    assert_eq!(dom.descendants(DOCUMENT), vec![div, p]);
    assert_eq!(dom.descendants(div), vec![div, p]);
    assert_eq!(dom.descendants(p), vec![p]);
    assert_eq!(dom.descendants(b), Vec::<usize>::new());
}

#[test]
fn to_text_concatenates_text_nodes_only() {
    let mut dom = Dom::new();
    let div = dom.create_element("div", &[]);
    let s = dom.create_element("script", &[]);
    let a = dom.create_text("one ");
    let c = dom.create_comment("not text");
    let b = dom.create_text("x<y");
    dom.append_child(div, a).unwrap();
    dom.append_child(div, c).unwrap();
    dom.append_child(s, b).unwrap();
    dom.append_child(div, s).unwrap();
    assert_eq!(dom.to_text(div), "one x<y");
    assert_eq!(dom.to_text(a), "one ");
    assert_eq!(dom.to_text(c), "");
}

#[test]
fn a_document_serializes_as_its_children_one_by_one() {
    let mut dom = Dom::new();
    let script = dom.create_element("script", &[]);
    let code = dom.create_text("a<b");
    dom.append_child(script, code).unwrap();
    let t = dom.create_text("x<y");
    let c = dom.create_comment("c");
    let br = dom.create_element("br", &[]);
    for id in [script, t, c, br] {
        under_document(&mut dom, id);
    }
    let joined: String = dom.children(DOCUMENT).iter().map(|&k| dom.to_html(k)).collect();
    assert_eq!(dom.to_html(DOCUMENT), joined);
    assert_eq!(joined, "<script>a<b</script>x&lt;y<!--c--><br>");
}
