//! Serialization. The walk over the tree is this library's; what each step
//! writes is html5ever's `HtmlSerializer`, which spells the output as the
//! WHATWG serialization algorithm (and a browser's `innerHTML`) does.

use vstd::prelude::*;

use html5ever::serialize::{HtmlSerializer, SerializeOpts, Serializer, TraversalScope};
use html5ever::{LocalName, Namespace, Prefix, QualName};

use crate::depth::is_void_name;
use crate::dom::{html_ns, DataView, Dom, NodeData, NodeId, NodeView, QName, QNameView, attrs_view};
use crate::copy::{copy_of, with_template};
use crate::tree::{children_ok, down_ranked, links_ok, parent_ok, serial_ok, some_height, template_of, template_ok, tree_wf, valid};
use crate::walk::{lemma_copy_serial_kids, lemma_forest_bound, lemma_serial_kids, serial_kids};

verus! {

/// An html5ever `HtmlSerializer` writing into a byte buffer. Verus does not
/// accept that type's declaration (its `std::io::Write` bound), so it is held
/// here, out of Verus's sight; what the library knows of it are the two names
/// below and the contracts of the functions that call its methods.
#[verifier::external_body]
pub struct HtmlWriter {
    ser: HtmlSerializer<Vec<u8>>,
}

/// The text an `HtmlSerializer` has written to its buffer so far (its
/// `writer` holds the UTF-8 encoding of it).
pub uninterp spec fn serializer_text(s: HtmlWriter) -> Seq<char>;

/// The serializer's stack of open elements, bottom first: for each, its local
/// name if it is an HTML element, and whether its children are left out (a
/// void element, or anything inside one).
pub uninterp spec fn serializer_stack(s: HtmlWriter) -> Seq<(Option<Seq<char>>, bool)>;

/// How the serializer escapes one character: `&`, `<`, `>` and the no-break
/// space always, and `"` in attribute values.
pub open spec fn escape_char(c: char, attr_mode: bool) -> Seq<char> {
    if c == '&' {
        "&amp;"@
    } else if c == '<' {
        "&lt;"@
    } else if c == '>' {
        "&gt;"@
    } else if c == '\u{a0}' {
        "&nbsp;"@
    } else if attr_mode && c == '"' {
        "&quot;"@
    } else {
        seq![c]
    }
}

/// `s` escaped character by character, as text (`attr_mode` false) or as an
/// attribute value.
pub open spec fn escape(s: Seq<char>, attr_mode: bool) -> Seq<char>
    decreases s.len(),
{
    if s.len() == 0 {
        Seq::empty()
    } else {
        escape(s.drop_last(), attr_mode) + escape_char(s.last(), attr_mode)
    }
}

/// What the serializer writes before an attribute's local name, by the
/// attribute's namespace.
pub open spec fn attr_prefix(name: QNameView) -> Seq<char> {
    if name.ns == ""@ {
        ""@
    } else if name.ns == "http://www.w3.org/XML/1998/namespace"@ {
        "xml:"@
    } else if name.ns == "http://www.w3.org/2000/xmlns/"@ {
        if name.local == "xmlns"@ {
            ""@
        } else {
            "xmlns:"@
        }
    } else if name.ns == "http://www.w3.org/1999/xlink"@ {
        "xlink:"@
    } else {
        "unknown_namespace:"@
    }
}

/// The attributes of a start tag, each as ` name="value"`, in order.
pub open spec fn attrs_text(attrs: Seq<(QNameView, Seq<char>)>) -> Seq<char>
    decreases attrs.len(),
{
    if attrs.len() == 0 {
        Seq::empty()
    } else {
        let a = attrs.last();
        attrs_text(attrs.drop_last()) + " "@ + attr_prefix(a.0) + a.0.local + "=\""@ + escape(a.1, true) + "\""@
    }
}

/// An element's start tag: its local name and its attributes.
pub open spec fn start_tag_text(name: QNameView, attrs: Seq<(QNameView, Seq<char>)>) -> Seq<char> {
    "<"@ + name.local + attrs_text(attrs) + ">"@
}

/// The serializer's observable state: what it wrote, and its open elements.
pub struct SerState {
    pub text: Seq<char>,
    pub stack: Seq<(Option<Seq<char>>, bool)>,
}

pub open spec fn state_of(s: HtmlWriter) -> SerState {
    SerState { text: serializer_text(s), stack: serializer_stack(s) }
}

/// A fresh serializer: nothing written, one (non-HTML, open) root on the stack.
pub open spec fn ser_initial() -> SerState {
    SerState { text: Seq::empty(), stack: seq![(None, false)] }
}

/// After `start_elem`: inside an element whose children are left out, nothing
/// is written and the new element's children are left out too; otherwise the
/// start tag is written, and the children of an HTML void element are left out.
pub open spec fn ser_start(st: SerState, name: QNameView, attrs: Seq<(QNameView, Seq<char>)>) -> SerState {
    let html_name = if name.ns == html_ns() { Some(name.local) } else { None };
    if st.stack.last().1 {
        SerState { text: st.text, stack: st.stack.push((html_name, true)) }
    } else {
        SerState {
            text: st.text + start_tag_text(name, attrs),
            stack: st.stack.push((html_name, name.ns == html_ns() && is_void_name(name.local))),
        }
    }
}

/// After `end_elem`: the element is popped; its end tag is written unless its
/// children were left out.
pub open spec fn ser_end(st: SerState, name: QNameView) -> SerState {
    if st.stack.last().1 {
        SerState { text: st.text, stack: st.stack.drop_last() }
    } else {
        SerState { text: st.text + "</"@ + name.local + ">"@, stack: st.stack.drop_last() }
    }
}

/// Elements whose text children `write_text` writes unescaped (scripting is
/// enabled, so `noscript` is one of them).
pub open spec fn raw_text_parent(name: Option<Seq<char>>) -> bool {
    match name {
        Some(n) => n == "style"@ || n == "script"@ || n == "xmp"@ || n == "iframe"@ || n == "noembed"@
            || n == "noframes"@ || n == "plaintext"@ || n == "noscript"@,
        None => false,
    }
}

/// After `write_text`.
pub open spec fn ser_text(st: SerState, text: Seq<char>) -> SerState {
    SerState {
        text: st.text + if raw_text_parent(st.stack.last().0) { text } else { escape(text, false) },
        stack: st.stack,
    }
}

/// After `write_comment`.
pub open spec fn ser_comment(st: SerState, text: Seq<char>) -> SerState {
    SerState { text: st.text + "<!--"@ + text + "-->"@, stack: st.stack }
}

/// After `write_doctype`.
pub open spec fn ser_doctype(st: SerState, name: Seq<char>) -> SerState {
    SerState { text: st.text + "<!DOCTYPE "@ + name + ">"@, stack: st.stack }
}

/// After `write_processing_instruction`.
pub open spec fn ser_pi(st: SerState, target: Seq<char>, data: Seq<char>) -> SerState {
    SerState { text: st.text + "<?"@ + target + " "@ + data + ">"@, stack: st.stack }
}

/// A serializer whose traversal scope includes the node (`include_node`) or
/// only its children.
/// Trusted: `HtmlSerializer::new` starts with an empty writer and one stack
/// entry with no HTML name whose children are not left out (the scopes used
/// here name no parent element).
#[verifier::external_body]
fn new_serializer(include_node: bool) -> (r: HtmlWriter)
    ensures
        serializer_text(r) == Seq::<char>::empty(),
        serializer_stack(r) == seq![(None::<Seq<char>>, false)],
{
    let traversal_scope = if include_node {
        TraversalScope::IncludeNode
    } else {
        TraversalScope::ChildrenOnly(None)
    };
    HtmlWriter { ser: HtmlSerializer::new(Vec::new(), SerializeOpts { traversal_scope, ..Default::default() }) }
}

/// Calls `Serializer::start_elem` of `HtmlSerializer`. Trusted: per its source,
/// with a non-empty stack it pushes the element and, unless the element on top
/// leaves its children out, writes `<`, the local name, each attribute as a
/// space, its namespace prefix (`attr_prefix`), its local name, `="`, its value
/// escaped in attribute mode and `"`, then `>`; writing to a `Vec` does not fail.
#[verifier::external_body]
fn ser_start_elem(s: &mut HtmlWriter, name: &QName, attrs: &Vec<(QName, String)>)
    requires
        serializer_stack(*old(s)).len() > 0,
    ensures
        serializer_stack(*final(s)) == ser_start(state_of(*old(s)), name@, attrs_view(attrs@)).stack,
        serializer_text(*final(s)) == if serializer_stack(*old(s)).last().1 {
            serializer_text(*old(s))
        } else {
            serializer_text(*old(s)) + start_tag_text(name@, attrs_view(attrs@))
        },
{
    let q = |n: &QName| QualName::new(n.prefix.as_deref().map(Prefix::from), Namespace::from(n.ns.as_str()), LocalName::from(n.local.as_str()));
    let names: Vec<QualName> = attrs.iter().map(|a| q(&a.0)).collect();
    let list = names.iter().zip(attrs.iter()).map(|(n, a)| (n, a.1.as_str()));
    s.ser.start_elem(q(name), list).expect("writing to a Vec cannot fail")
}

/// Calls `Serializer::end_elem` of `HtmlSerializer`. Trusted: per its source,
/// with a non-empty stack it pops it and writes the end tag as `ser_end` says.
#[verifier::external_body]
fn ser_end_elem(s: &mut HtmlWriter, name: &QName)
    requires
        serializer_stack(*old(s)).len() > 0,
    ensures
        serializer_stack(*final(s)) == serializer_stack(*old(s)).drop_last(),
        serializer_text(*final(s)) == ser_end(state_of(*old(s)), name@).text,
{
    let q = QualName::new(name.prefix.as_deref().map(Prefix::from), Namespace::from(name.ns.as_str()), LocalName::from(name.local.as_str()));
    s.ser.end_elem(q).expect("writing to a Vec cannot fail")
}

/// Calls `Serializer::write_text` of `HtmlSerializer`. Trusted: per its source,
/// it writes the text raw inside the elements `raw_text_parent` lists, and
/// elsewhere with `&`, `<`, `>` and the no-break space escaped (its byte-wise
/// search finds exactly those characters); its stack stays as it is.
#[verifier::external_body]
fn ser_write_text(s: &mut HtmlWriter, text: &str)
    requires
        serializer_stack(*old(s)).len() > 0,
    ensures
        serializer_stack(*final(s)) == serializer_stack(*old(s)),
        serializer_text(*final(s)) == serializer_text(*old(s)) + if raw_text_parent(serializer_stack(*old(s)).last().0) {
            text@
        } else {
            escape(text@, false)
        },
{
    s.ser.write_text(text).expect("writing to a Vec cannot fail")
}

/// Calls `Serializer::write_comment` of `HtmlSerializer`. Trusted: per its
/// source, it writes `<!--`, the text and `-->`.
#[verifier::external_body]
fn ser_write_comment(s: &mut HtmlWriter, text: &str)
    ensures
        serializer_stack(*final(s)) == serializer_stack(*old(s)),
        serializer_text(*final(s)) == ser_comment(state_of(*old(s)), text@).text,
{
    s.ser.write_comment(text).expect("writing to a Vec cannot fail")
}

/// Calls `Serializer::write_doctype` of `HtmlSerializer`. Trusted: per its
/// source, it writes `<!DOCTYPE `, the name and `>`.
#[verifier::external_body]
fn ser_write_doctype(s: &mut HtmlWriter, name: &str)
    ensures
        serializer_stack(*final(s)) == serializer_stack(*old(s)),
        serializer_text(*final(s)) == ser_doctype(state_of(*old(s)), name@).text,
{
    s.ser.write_doctype(name).expect("writing to a Vec cannot fail")
}

/// Calls `Serializer::write_processing_instruction` of `HtmlSerializer`.
/// Trusted: per its source, it writes `<?`, the target, a space, the data and `>`.
#[verifier::external_body]
fn ser_write_pi(s: &mut HtmlWriter, target: &str, data: &str)
    ensures
        serializer_stack(*final(s)) == serializer_stack(*old(s)),
        serializer_text(*final(s)) == ser_pi(state_of(*old(s)), target@, data@).text,
{
    s.ser.write_processing_instruction(target, data).expect("writing to a Vec cannot fail")
}

/// The text a serializer wrote, taken out of its `writer`.
/// Trusted: the serializer writes only `str` data, so the bytes are valid
/// UTF-8 and `String::from_utf8` gives back exactly that text.
#[verifier::external_body]
fn serializer_output(s: HtmlWriter) -> (r: String)
    ensures
        r@ == serializer_text(s),
{
    String::from_utf8(s.ser.writer).expect("serializer output is UTF-8")
}

/// The serializer's state after writing node `x` and everything under it.
pub open spec fn ser_node(t: Seq<NodeView>, h: spec_fn(int) -> nat, st: SerState, x: int) -> SerState
    decreases (h(x) + 1) as int, 1int, 0int,
{
    match t[x].data {
        DataView::Element { name, attrs, .. } => ser_end(
            ser_forest(t, h, ser_start(st, name, attrs), serial_kids(t, x), (h(x) + 1) as int),
            name,
        ),
        DataView::Text { contents } => ser_text(st, contents),
        DataView::Comment { contents } => ser_comment(st, contents),
        DataView::Doctype { name, .. } => ser_doctype(st, name),
        DataView::ProcessingInstruction { target, contents } => ser_pi(st, target, contents),
        DataView::Document => st,
    }
}

/// The serializer's state after writing the nodes of `s` (and what is under
/// them) one after the other.
pub open spec fn ser_forest(t: Seq<NodeView>, h: spec_fn(int) -> nat, st: SerState, s: Seq<NodeId>, b: int) -> SerState
    decreases b, 0int, s.len(),
    when forall|k: int| 0 <= k < s.len() ==> h(#[trigger] s[k] as int) + 1 < b
{
    if s.len() == 0 {
        st
    } else {
        ser_node(t, h, ser_forest(t, h, st, s.drop_last(), b), s.last() as int)
    }
}

/// The serialization of node `id`: an element includes itself, a document
/// node gives its children's markup.
pub open spec fn html_of(t: Seq<NodeView>, id: int) -> Seq<char> {
    let h = some_height(t);
    if t[id].data is Document {
        ser_forest(t, h, ser_initial(), serial_kids(t, id), (h(id) + 1) as int).text
    } else {
        ser_node(t, h, ser_initial(), id).text
    }
}

impl Dom {
    /// Writes node `id` (not a document) and everything under it.
    fn ser_rec(&self, s: &mut HtmlWriter, id: NodeId, Ghost(h): Ghost<spec_fn(int) -> nat>)
        requires
            self.wf(),
            down_ranked(self@, h),
            id < self@.len(),
            !(self@[id as int].data is Document),
            serializer_stack(*old(s)).len() > 0,
        ensures
            state_of(*final(s)) == ser_node(self@, h, state_of(*old(s)), id as int),
            serializer_stack(*final(s)) == serializer_stack(*old(s)),
        decreases h(id as int),
    {
        let ghost t = self@;
        match &self.nodes[id].data {
            NodeData::Element { name, attrs, .. } => {
                let ghost st0 = state_of(*s);
                ser_start_elem(s, name, attrs);
                let ghost st1 = state_of(*s);
                assert(st1 == ser_start(st0, name@, attrs_view(attrs@)));
                let kids = self.serial_children(id);
                proof {
                    lemma_serial_kids(t, h, id as int);
                }
                let n = kids.len();
                for k in 0..n
                    invariant
                        self.wf(),
                        t == self@,
                        down_ranked(t, h),
                        valid(t, id as int),
                        n == kids@.len(),
                        kids@ == serial_kids(t, id as int),
                        forall|j: int| 0 <= j < kids@.len() ==> valid(t, #[trigger] kids@[j] as int) && h(kids@[j] as int) < h(id as int),
                        st1.stack.len() > 0,
                        serializer_stack(*s) == st1.stack,
                        state_of(*s) == ser_forest(t, h, st1, kids@.subrange(0, k as int), (h(id as int) + 1) as int),
                {
                    let c = kids[k];
                    proof {
                        assert(kids@[k as int] == c);
                        lemma_serial_not_document(t, id as int, k as int);
                        let pre = kids@.subrange(0, k + 1);
                        assert(pre.drop_last() =~= kids@.subrange(0, k as int));
                        assert forall|j: int| 0 <= j < pre.len() implies h(#[trigger] pre[j] as int) + 1 < (h(id as int) + 1) as int by {
                            assert(pre[j] == kids@[j]);
                        }
                    }
                    self.ser_rec(s, c, Ghost(h));
                }
                proof {
                    assert(kids@.subrange(0, n as int) =~= kids@);
                }
                let ghost st2 = state_of(*s);
                ser_end_elem(s, name);
                assert(state_of(*s) == ser_end(st2, name@));
            },
            NodeData::Text { contents } => {
                let ghost st0 = state_of(*s);
                ser_write_text(s, contents.as_str());
                assert(state_of(*s) == ser_text(st0, contents@));
            },
            NodeData::Comment { contents } => {
                let ghost st0 = state_of(*s);
                ser_write_comment(s, contents.as_str());
                assert(state_of(*s) == ser_comment(st0, contents@));
            },
            NodeData::Doctype { name, .. } => {
                let ghost st0 = state_of(*s);
                ser_write_doctype(s, name.as_str());
                assert(state_of(*s) == ser_doctype(st0, name@));
            },
            NodeData::ProcessingInstruction { target, contents } => {
                let ghost st0 = state_of(*s);
                ser_write_pi(s, target.as_str(), contents.as_str());
                assert(state_of(*s) == ser_pi(st0, target@, contents@));
            },
            NodeData::Document => {},
        }
    }

    /// Serializes `id`: an element includes itself; a document node gives its
    /// children (the fragment or document markup).
    pub fn to_html(&self, id: NodeId) -> (r: String)
        requires
            self.wf(),
            id < self@.len(),
        ensures
            r@ == html_of(self@, id as int),
    {
        let ghost t = self@;
        let ghost h = some_height(t);
        let is_doc = match self.nodes[id].data {
            NodeData::Document => true,
            _ => false,
        };
        let mut s = new_serializer(!is_doc);
        assert(state_of(s) == ser_initial());
        if is_doc {
            let kids = self.serial_children(id);
            proof {
                lemma_serial_kids(t, h, id as int);
            }
            let ghost st0 = state_of(s);
            let n = kids.len();
            for k in 0..n
                invariant
                    self.wf(),
                    t == self@,
                    h == some_height(t),
                    down_ranked(t, h),
                    valid(t, id as int),
                    n == kids@.len(),
                    kids@ == serial_kids(t, id as int),
                    forall|j: int| 0 <= j < kids@.len() ==> valid(t, #[trigger] kids@[j] as int) && h(kids@[j] as int) < h(id as int),
                    st0 == ser_initial(),
                    serializer_stack(s) == st0.stack,
                    state_of(s) == ser_forest(t, h, st0, kids@.subrange(0, k as int), (h(id as int) + 1) as int),
            {
                let c = kids[k];
                proof {
                    assert(kids@[k as int] == c);
                    lemma_serial_not_document(t, id as int, k as int);
                    let pre = kids@.subrange(0, k + 1);
                    assert(pre.drop_last() =~= kids@.subrange(0, k as int));
                    assert forall|j: int| 0 <= j < pre.len() implies h(#[trigger] pre[j] as int) + 1 < (h(id as int) + 1) as int by {
                        assert(pre[j] == kids@[j]);
                    }
                }
                self.ser_rec(&mut s, c, Ghost(h));
            }
            proof {
                assert(kids@.subrange(0, n as int) =~= kids@);
            }
        } else {
            self.ser_rec(&mut s, id, Ghost(h));
        }
        serializer_output(s)
    }
}

/// What a document-order walk visits below a node is never a document.
pub proof fn lemma_serial_not_document(t: Seq<NodeView>, x: int, k: int)
    requires
        tree_wf(t),
        valid(t, x),
        0 <= k < serial_kids(t, x).len(),
    ensures
        !(t[serial_kids(t, x)[k] as int].data is Document),
{
    assert(links_ok(t));
    assert(template_ok(t, x));
    let c = serial_kids(t, x)[k] as int;
    match t[x].data {
        DataView::Element { template_contents: Some(d), .. } => {
            assert(children_ok(t, d as int));
            assert(t[d as int].children[k] == serial_kids(t, x)[k]);
        },
        _ => {
            assert(children_ok(t, x));
            assert(t[x].children[k] == serial_kids(t, x)[k]);
        },
    }
    assert(parent_ok(t, c));
}

/// A copy writes what the original writes: node by node, the serializer sees
/// the same payloads, in the same order.
pub proof fn lemma_copy_ser_node(
    o: Seq<NodeView>,
    ho: spec_fn(int) -> nat,
    x: int,
    t: Seq<NodeView>,
    ht: spec_fn(int) -> nat,
    y: int,
    lo: int,
    hi: int,
    st: SerState,
)
    requires
        tree_wf(o),
        tree_wf(t),
        down_ranked(o, ho),
        down_ranked(t, ht),
        valid(o, x),
        valid(t, y),
        copy_of(o, ho, x, t, y, lo, hi),
    ensures
        ser_node(o, ho, st, x) == ser_node(t, ht, st, y),
    decreases (ho(x) + 1) as int, 1int, 0int,
{
    assert(links_ok(o));
    assert(links_ok(t));
    assert(template_ok(o, x));
    assert(template_ok(t, y));
    assert(t[y].data == with_template(o[x].data, template_of(t, y)));
    if let DataView::Element { name, attrs, .. } = o[x].data {
        let xs = serial_kids(o, x);
        let ys = serial_kids(t, y);
        lemma_serial_kids(o, ho, x);
        lemma_serial_kids(t, ht, y);
        let bo = (ho(x) + 1) as int;
        let bt = (ht(y) + 1) as int;
        lemma_copy_serial_kids(o, ho, x, t, y, lo, hi);
        assert(ys.len() == xs.len());
        lemma_copy_ser_forest(o, ho, xs, t, ht, ys, lo, hi, ser_start(st, name, attrs), bo, bt);
    }
}

/// A forest of copies writes what the original forest writes.
pub proof fn lemma_copy_ser_forest(
    o: Seq<NodeView>,
    ho: spec_fn(int) -> nat,
    xs: Seq<NodeId>,
    t: Seq<NodeView>,
    ht: spec_fn(int) -> nat,
    ys: Seq<NodeId>,
    lo: int,
    hi: int,
    st: SerState,
    bo: int,
    bt: int,
)
    requires
        tree_wf(o),
        tree_wf(t),
        down_ranked(o, ho),
        down_ranked(t, ht),
        ys.len() == xs.len(),
        forall|k: int| 0 <= k < xs.len() ==> valid(o, #[trigger] xs[k] as int) && ho(xs[k] as int) + 1 < bo,
        forall|k: int| 0 <= k < ys.len() ==> valid(t, #[trigger] ys[k] as int) && ht(ys[k] as int) + 1 < bt,
        forall|k: int| 0 <= k < xs.len() ==> #[trigger] copy_of(o, ho, xs[k] as int, t, ys[k] as int, lo, hi),
    ensures
        ser_forest(o, ho, st, xs, bo) == ser_forest(t, ht, st, ys, bt),
    decreases bo, 0int, xs.len(),
{
    if xs.len() > 0 {
        let xd = xs.drop_last();
        let yd = ys.drop_last();
        assert forall|k: int| 0 <= k < xd.len() implies valid(o, #[trigger] xd[k] as int) && ho(xd[k] as int) + 1 < bo by {
            assert(xd[k] == xs[k]);
        }
        assert forall|k: int| 0 <= k < yd.len() implies valid(t, #[trigger] yd[k] as int) && ht(yd[k] as int) + 1 < bt by {
            assert(yd[k] == ys[k]);
        }
        assert forall|k: int| 0 <= k < xd.len() implies #[trigger] copy_of(o, ho, xd[k] as int, t, yd[k] as int, lo, hi) by {
            assert(xd[k] == xs[k]);
            assert(yd[k] == ys[k]);
        }
        lemma_copy_ser_forest(o, ho, xd, t, ht, yd, lo, hi, st, bo, bt);
        let n = xs.len() - 1;
        assert(copy_of(o, ho, xs[n] as int, t, ys[n] as int, lo, hi));
        assert(valid(o, xs[n] as int) && ho(xs[n] as int) + 1 < bo);
        assert(valid(t, ys[n] as int));
        lemma_copy_ser_node(o, ho, xs.last() as int, t, ht, ys.last() as int, lo, hi, ser_forest(o, ho, st, xd, bo));
    }
}

/// `st` with `prefix` written before what it wrote.
pub open spec fn shifted(st: SerState, prefix: Seq<char>) -> SerState {
    SerState { text: prefix + st.text, stack: st.stack }
}

/// What a node writes does not depend on what was written before it, and the
/// node leaves the serializer's stack as it found it.
pub proof fn lemma_ser_node_shift(t: Seq<NodeView>, h: spec_fn(int) -> nat, st: SerState, x: int, prefix: Seq<char>)
    requires
        tree_wf(t),
        down_ranked(t, h),
        valid(t, x),
    ensures
        ser_node(t, h, shifted(st, prefix), x) == shifted(ser_node(t, h, st, x), prefix),
        ser_node(t, h, st, x).stack == st.stack,
    decreases (h(x) + 1) as int, 1int, 0int,
{
    let sp = shifted(st, prefix);
    match t[x].data {
        DataView::Element { name, attrs, .. } => {
            let s1 = ser_start(st, name, attrs);
            assert(ser_start(sp, name, attrs) == shifted(s1, prefix)) by {
                if !st.stack.last().1 {
                    assert(prefix + st.text + start_tag_text(name, attrs) =~= prefix + (st.text + start_tag_text(name, attrs)));
                }
            }
            let kids = serial_kids(t, x);
            let b = (h(x) + 1) as int;
            lemma_serial_kids(t, h, x);
            lemma_ser_forest_shift(t, h, s1, kids, b, prefix);
            let f = ser_forest(t, h, s1, kids, b);
            assert(f.stack == st.stack.push(s1.stack.last()));
            assert(ser_end(shifted(f, prefix), name) == shifted(ser_end(f, name), prefix)) by {
                if !f.stack.last().1 {
                    assert(prefix + f.text + "</"@ + name.local + ">"@ =~= prefix + (f.text + "</"@ + name.local + ">"@));
                }
            }
            assert(f.stack.drop_last() =~= st.stack);
        },
        DataView::Text { contents } => {
            let w = if raw_text_parent(st.stack.last().0) { contents } else { escape(contents, false) };
            assert(prefix + st.text + w =~= prefix + (st.text + w));
        },
        DataView::Comment { contents } => {
            assert(prefix + st.text + "<!--"@ + contents + "-->"@ =~= prefix + (st.text + "<!--"@ + contents + "-->"@));
        },
        DataView::Doctype { name, .. } => {
            assert(prefix + st.text + "<!DOCTYPE "@ + name + ">"@ =~= prefix + (st.text + "<!DOCTYPE "@ + name + ">"@));
        },
        DataView::ProcessingInstruction { target, contents } => {
            assert(prefix + st.text + "<?"@ + target + " "@ + contents + ">"@ =~= prefix + (st.text + "<?"@ + target + " "@ + contents + ">"@));
        },
        DataView::Document => {},
    }
}

/// What a forest writes does not depend on what was written before it, and
/// it leaves the serializer's stack as it found it.
pub proof fn lemma_ser_forest_shift(
    t: Seq<NodeView>,
    h: spec_fn(int) -> nat,
    st: SerState,
    s: Seq<NodeId>,
    b: int,
    prefix: Seq<char>,
)
    requires
        tree_wf(t),
        down_ranked(t, h),
        forall|k: int| 0 <= k < s.len() ==> valid(t, #[trigger] s[k] as int) && h(s[k] as int) + 1 < b,
    ensures
        ser_forest(t, h, shifted(st, prefix), s, b) == shifted(ser_forest(t, h, st, s, b), prefix),
        ser_forest(t, h, st, s, b).stack == st.stack,
    decreases b, 0int, s.len(),
{
    if s.len() > 0 {
        let d = s.drop_last();
        assert forall|k: int| 0 <= k < d.len() implies valid(t, #[trigger] d[k] as int) && h(d[k] as int) + 1 < b by {
            assert(d[k] == s[k]);
        }
        lemma_ser_forest_shift(t, h, st, d, b, prefix);
        let n = s.len() - 1;
        assert(valid(t, s[n] as int) && h(s[n] as int) + 1 < b);
        lemma_ser_node_shift(t, h, ser_forest(t, h, st, d, b), s.last() as int, prefix);
    }
}

/// The markup of the nodes `ids`, each serialized on its own, one after the
/// other.
pub open spec fn html_of_all(t: Seq<NodeView>, ids: Seq<NodeId>) -> Seq<char>
    decreases ids.len(),
{
    if ids.len() == 0 {
        Seq::empty()
    } else {
        html_of_all(t, ids.drop_last()) + html_of(t, ids.last() as int)
    }
}

/// A fresh serializer walking nodes that are not documents writes each one's
/// own markup, one after the other, and ends with its stack as it began.
pub proof fn lemma_ser_forest_initial(t: Seq<NodeView>, s: Seq<NodeId>, b: int)
    requires
        tree_wf(t),
        serial_ok(t),
        forall|k: int| 0 <= k < s.len() ==> valid(t, #[trigger] s[k] as int) && some_height(t)(s[k] as int) + 1 < b
            && !(t[s[k] as int].data is Document),
    ensures
        ser_forest(t, some_height(t), ser_initial(), s, b) == (SerState { text: html_of_all(t, s), stack: ser_initial().stack }),
    decreases s.len(),
{
    let h = some_height(t);
    assert(down_ranked(t, h));
    if s.len() == 0 {
        assert(html_of_all(t, s) =~= Seq::<char>::empty());
    } else {
        let d = s.drop_last();
        assert forall|k: int| 0 <= k < d.len() implies valid(t, #[trigger] d[k] as int) && h(d[k] as int) + 1 < b
            && !(t[d[k] as int].data is Document) by {
            assert(d[k] == s[k]);
        }
        lemma_ser_forest_initial(t, d, b);
        let n = s.len() - 1;
        assert(valid(t, s[n] as int) && h(s[n] as int) + 1 < b && !(t[s[n] as int].data is Document));
        let p = html_of_all(t, d);
        assert(shifted(ser_initial(), p) == ser_forest(t, h, ser_initial(), d, b)) by {
            assert(p + Seq::<char>::empty() =~= p);
        }
        lemma_ser_node_shift(t, h, ser_initial(), s.last() as int, p);
    }
}

} // verus!
