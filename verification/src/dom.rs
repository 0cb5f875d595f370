//! The arena DOM: node ids index into a `Vec` of nodes; id 0 is the document
//! (for fragments, the fragment root). Ids stay valid for the life of the
//! `Dom`: detached nodes remain in the arena as orphans.

use vstd::prelude::*;

use crate::tree::{dom_wf, down_ranked, lemma_push_detached_wf, links_wf, ranked, template_of, template_ok, tree_wf};

verus! {

/// A node's index in its `Dom`'s arena.
pub type NodeId = usize;

/// The id of the document node.
pub const DOCUMENT: NodeId = 0;

/// The XHTML namespace URL: the namespace of HTML elements.
pub open spec fn html_ns() -> Seq<char> {
    "http://www.w3.org/1999/xhtml"@
}

/// A qualified name: an optional prefix, a namespace URL (empty for none) and a
/// local name.
#[derive(Debug, Clone)]
pub struct QName {
    pub prefix: Option<String>,
    pub ns: String,
    pub local: String,
}

/// The mathematical value of a qualified name.
pub struct QNameView {
    pub prefix: Option<Seq<char>>,
    pub ns: Seq<char>,
    pub local: Seq<char>,
}

impl View for QName {
    type V = QNameView;

    open spec fn view(&self) -> QNameView {
        QNameView { prefix: self.prefix.deep_view(), ns: self.ns@, local: self.local@ }
    }
}

/// One DOM node's payload. Elements hold their attributes in source order.
#[derive(Debug, Clone)]
pub enum NodeData {
    Document,
    Doctype { name: String, public_id: String, system_id: String },
    Text { contents: String },
    Comment { contents: String },
    Element { name: QName, attrs: Vec<(QName, String)>, template_contents: Option<NodeId> },
    ProcessingInstruction { target: String, contents: String },
}

/// The mathematical value of a node's payload.
pub enum DataView {
    Document,
    Doctype { name: Seq<char>, public_id: Seq<char>, system_id: Seq<char> },
    Text { contents: Seq<char> },
    Comment { contents: Seq<char> },
    Element {
        name: QNameView,
        attrs: Seq<(QNameView, Seq<char>)>,
        template_contents: Option<NodeId>,
    },
    ProcessingInstruction { target: Seq<char>, contents: Seq<char> },
}

/// The value of an attribute list.
pub open spec fn attrs_view(attrs: Seq<(QName, String)>) -> Seq<(QNameView, Seq<char>)> {
    attrs.map_values(|a: (QName, String)| (a.0@, a.1@))
}

impl View for NodeData {
    type V = DataView;

    open spec fn view(&self) -> DataView {
        match self {
            NodeData::Document => DataView::Document,
            NodeData::Doctype { name, public_id, system_id } => DataView::Doctype {
                name: name@,
                public_id: public_id@,
                system_id: system_id@,
            },
            NodeData::Text { contents } => DataView::Text { contents: contents@ },
            NodeData::Comment { contents } => DataView::Comment { contents: contents@ },
            NodeData::Element { name, attrs, template_contents } => DataView::Element {
                name: name@,
                attrs: attrs_view(attrs@),
                template_contents: *template_contents,
            },
            NodeData::ProcessingInstruction { target, contents } =>
                DataView::ProcessingInstruction { target: target@, contents: contents@ },
        }
    }
}

/// A node: its parent, its children in order, and its payload.
#[derive(Debug, Clone)]
pub struct Node {
    pub parent: Option<NodeId>,
    pub children: Vec<NodeId>,
    pub data: NodeData,
}

/// The mathematical value of a node.
pub struct NodeView {
    pub parent: Option<NodeId>,
    pub children: Seq<NodeId>,
    pub data: DataView,
}

impl View for Node {
    type V = NodeView;

    open spec fn view(&self) -> NodeView {
        NodeView { parent: self.parent, children: self.children@, data: self.data@ }
    }
}

/// A structural mutation that cannot be applied.
#[derive(Debug, Clone, PartialEq, Eq, Structural)]
pub enum DomError {
    NotAChild,
    WouldCycle,
    NotAnElement,
    NotTextual,
}

impl DomError {
    /// The error's message.
    pub fn message(&self) -> (r: String)
        ensures
            r@ == self.message_spec(),
    {
        proof {
            reveal_strlit("reference node is not a child of this node");
            reveal_strlit("inserting a node inside itself would create a cycle");
            reveal_strlit("operation requires an element node");
            reveal_strlit("operation requires a text or comment node");
        }
        match self {
            DomError::NotAChild => "reference node is not a child of this node".to_owned(),
            DomError::WouldCycle => "inserting a node inside itself would create a cycle".to_owned(),
            DomError::NotAnElement => "operation requires an element node".to_owned(),
            DomError::NotTextual => "operation requires a text or comment node".to_owned(),
        }
    }

    pub open spec fn message_spec(&self) -> Seq<char> {
        match self {
            DomError::NotAChild => "reference node is not a child of this node"@,
            DomError::WouldCycle => "inserting a node inside itself would create a cycle"@,
            DomError::NotAnElement => "operation requires an element node"@,
            DomError::NotTextual => "operation requires a text or comment node"@,
        }
    }
}

/// The document's quirks mode, as the parser determined it.
#[derive(Debug, Clone, Copy, PartialEq, Eq, Structural)]
pub enum QuirksMode {
    Quirks,
    LimitedQuirks,
    NoQuirks,
}

/// A parsed HTML tree. Node ids index into `nodes`; id 0 is the document.
#[derive(Debug, Clone)]
pub struct Dom {
    pub nodes: Vec<Node>,
    pub quirks_mode: QuirksMode,
}

impl View for Dom {
    type V = Seq<NodeView>;

    open spec fn view(&self) -> Seq<NodeView> {
        self.nodes@.map_values(|n: Node| n@)
    }
}

impl Dom {
    /// The arena is a well-formed forest whose node 0 is the document.
    pub open spec fn wf(&self) -> bool {
        dom_wf(self@)
    }

    /// An empty tree: just a document node.
    pub fn new() -> (r: Dom)
        ensures
            r@ == seq![NodeView { parent: None, children: Seq::empty(), data: DataView::Document }],
            r.quirks_mode == QuirksMode::NoQuirks,
            r.wf(),
    {
        let r = Dom {
            nodes: vec![Node { parent: None, children: Vec::new(), data: NodeData::Document }],
            quirks_mode: QuirksMode::NoQuirks,
        };
        assert(r@ =~= seq![NodeView { parent: None, children: Seq::empty(), data: DataView::Document }]);
        proof {
            let rk = |i: int| 0nat;
            assert(ranked(r@, rk));
            assert(down_ranked(r@, rk));
        }
        r
    }

    /// The node `id`.
    pub fn get(&self, id: NodeId) -> (r: &Node)
        requires
            id < self@.len(),
        ensures
            *r == self.nodes@[id as int],
            r@ == self@[id as int],
    {
        &self.nodes[id]
    }

    /// The children of `id`, in order.
    pub fn children(&self, id: NodeId) -> (r: &[NodeId])
        requires
            id < self@.len(),
        ensures
            r@ == self@[id as int].children,
    {
        self.nodes[id].children.as_slice()
    }

    /// The parent of `id`, if it has one.
    pub fn parent(&self, id: NodeId) -> (r: Option<NodeId>)
        requires
            id < self@.len(),
        ensures
            r == self@[id as int].parent,
    {
        self.nodes[id].parent
    }

    /// Appends a detached, childless node holding `data`; returns its id.
    pub fn push(&mut self, data: NodeData) -> (r: NodeId)
        ensures
            r == old(self)@.len(),
            final(self)@ == old(self)@.push(
                NodeView { parent: None, children: Seq::empty(), data: data@ },
            ),
            final(self).quirks_mode == old(self).quirks_mode,
            links_wf(old(self)@) && template_ok(final(self)@, r as int) && match template_of(final(self)@, r as int) {
                Some(c) => c < r,
                None => true,
            } ==> links_wf(final(self)@) && (old(self).wf() ==> final(self).wf()),
    {
        let node = Node { parent: None, children: Vec::new(), data };
        self.nodes.push(node);
        let r = self.nodes.len() - 1;
        assert(self@ =~= old(self)@.push(
            NodeView { parent: None, children: Seq::empty(), data: data@ },
        ));
        proof {
            if links_wf(old(self)@) && template_ok(self@, r as int) && match template_of(self@, r as int) {
                Some(c) => c < r,
                None => true,
            } {
                lemma_push_detached_wf(old(self)@, self@);
            }
        }
        r
    }
}

impl Default for Dom {
    /// An empty tree: just a document node.
    fn default() -> (r: Dom)
        ensures
            r@ == seq![NodeView { parent: None, children: Seq::empty(), data: DataView::Document }],
            r.quirks_mode == QuirksMode::NoQuirks,
            r.wf(),
    {
        Dom::new()
    }
}

/// The name an attribute written without a namespace gets.
pub open spec fn plain_attr_name(local: Seq<char>) -> QNameView {
    QNameView { prefix: None, ns: Seq::empty(), local }
}

/// The name of an HTML element.
pub open spec fn html_name(local: Seq<char>) -> QNameView {
    QNameView { prefix: None, ns: html_ns(), local }
}

/// The attribute list that `create_element` builds from name/value pairs.
pub open spec fn plain_attrs(attrs: Seq<(&str, &str)>) -> Seq<(QNameView, Seq<char>)> {
    attrs.map_values(|a: (&str, &str)| (plain_attr_name(a.0@), a.1@))
}

/// A detached, childless node holding `data`.
pub open spec fn fresh(data: DataView) -> NodeView {
    NodeView { parent: None, children: Seq::empty(), data }
}

impl QName {
    /// A name without prefix or namespace, as attributes written in HTML get.
    pub fn plain(local: &str) -> (r: QName)
        ensures
            r@ == plain_attr_name(local@),
    {
        let r = QName { prefix: None, ns: String::new(), local: local.to_owned() };
        assert(r@ =~= plain_attr_name(local@));
        r
    }

    /// An HTML-namespace name.
    pub fn html(local: &str) -> (r: QName)
        ensures
            r@ == html_name(local@),
    {
        QName { prefix: None, ns: "http://www.w3.org/1999/xhtml".to_owned(), local: local.to_owned() }
    }

    /// A copy of this name.
    pub fn duplicate(&self) -> (r: QName)
        ensures
            r@ == self@,
    {
        let prefix = match &self.prefix {
            Some(p) => Some(p.clone()),
            None => None,
        };
        QName { prefix, ns: self.ns.clone(), local: self.local.clone() }
    }
}

impl Dom {
    /// Creates a detached html-namespace element named `name` with the given
    /// attributes (no namespace, in the given order); returns its id.
    pub fn create_element(&mut self, name: &str, attrs: &[(&str, &str)]) -> (r: NodeId)
        ensures
            r == old(self)@.len(),
            final(self)@ == old(self)@.push(
                fresh(
                    DataView::Element {
                        name: html_name(name@),
                        attrs: plain_attrs(attrs@),
                        template_contents: None,
                    },
                ),
            ),
            final(self).quirks_mode == old(self).quirks_mode,
            old(self).wf() ==> final(self).wf(),
            links_wf(old(self)@) ==> links_wf(final(self)@),
    {
        let mut list: Vec<(QName, String)> = Vec::new();
        let n = attrs.len();
        for i in 0..n
            invariant
                n == attrs@.len(),
                attrs_view(list@) =~= plain_attrs(attrs@).subrange(0, i as int),
        {
            let (k, v) = attrs[i];
            let ghost before = list@;
            list.push((QName::plain(k), v.to_owned()));
            assert(list@ == before.push(list@.last()));
            assert(attrs_view(list@) =~= attrs_view(before).push((plain_attr_name(k@), v@)));
        }
        assert(attrs_view(list@) =~= plain_attrs(attrs@));
        self.push(NodeData::Element { name: QName::html(name), attrs: list, template_contents: None })
    }

    /// Creates a detached text node; returns its id.
    pub fn create_text(&mut self, text: &str) -> (r: NodeId)
        ensures
            r == old(self)@.len(),
            final(self)@ == old(self)@.push(fresh(DataView::Text { contents: text@ })),
            final(self).quirks_mode == old(self).quirks_mode,
            old(self).wf() ==> final(self).wf(),
            links_wf(old(self)@) ==> links_wf(final(self)@),
    {
        self.push(NodeData::Text { contents: text.to_owned() })
    }

    /// Creates a detached comment node; returns its id.
    pub fn create_comment(&mut self, text: &str) -> (r: NodeId)
        ensures
            r == old(self)@.len(),
            final(self)@ == old(self)@.push(fresh(DataView::Comment { contents: text@ })),
            final(self).quirks_mode == old(self).quirks_mode,
            old(self).wf() ==> final(self).wf(),
            links_wf(old(self)@) ==> links_wf(final(self)@),
    {
        self.push(NodeData::Comment { contents: text.to_owned() })
    }
}

} // verus!
