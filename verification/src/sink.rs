//! The tree-building side of parsing: the operations html5ever's tree builder
//! asks of the arena while it parses, and the fragment clean-up after it.
//! The parser driver hands html5ever's calls to a `Sink`.

use vstd::prelude::*;

use crate::attrs::{lemma_with_data_wf, with_data};
use crate::dom::{fresh, DataView, Dom, NodeData, NodeId, NodeView, QName, QNameView, QuirksMode, attrs_view};
use crate::edit::{detach_spec, insert_spec, lemma_detach_wf, lemma_insert_dom_wf, lemma_insert_links, lemma_pos_unique, lemma_take_children_wf, pos, position, take_children_spec};
use crate::text::str_eq;
use crate::guard::lemma_sreaches_rank;
use crate::tree::{children_ok, dom_wf, down_ranked, lemma_sreaches_fewer_links, links_ok, links_wf, parent_ok, some_height, sreaches, template_of, template_ok, valid};

verus! {

/// What the tree builder appends: a node, or text.
pub enum NodeOrText {
    AppendNode(NodeId),
    AppendText(String),
}

/// The arena while the parser builds it.
pub struct Sink {
    pub dom: Dom,
}

/// `text` appended as the last child of `parent`: merged into the last child
/// when that is a text node, else as a new text node.
pub open spec fn append_text_spec(t: Seq<NodeView>, parent: int, text: Seq<char>) -> Seq<NodeView> {
    let kids = t[parent].children;
    if kids.len() > 0 && t[kids.last() as int].data is Text {
        with_data(t, kids.last() as int, DataView::Text { contents: t[kids.last() as int].data->Text_contents + text })
    } else {
        insert_spec(t.push(fresh(DataView::Text { contents: text })), parent, kids.len() as int, seq![t.len() as NodeId])
    }
}

/// `text` inserted right before `sibling`: merged into the previous sibling
/// when that is a text node, else as a new text node.
pub open spec fn text_before_spec(t: Seq<NodeView>, sibling: int, text: Seq<char>) -> Seq<NodeView> {
    let p = t[sibling].parent->0 as int;
    let kids = t[p].children;
    let i = pos(kids, sibling as NodeId);
    if i > 0 && t[kids[i - 1] as int].data is Text {
        with_data(t, kids[i - 1] as int, DataView::Text { contents: t[kids[i - 1] as int].data->Text_contents + text })
    } else {
        insert_spec(t.push(fresh(DataView::Text { contents: text })), p, i, seq![t.len() as NodeId])
    }
}

/// `id` detached, then inserted right before `sibling`.
pub open spec fn node_before_spec(t: Seq<NodeView>, sibling: int, id: int) -> Seq<NodeView> {
    let s = detach_spec(t, id);
    let p = s[sibling].parent->0 as int;
    insert_spec(s, p, pos(s[p].children, sibling as NodeId), seq![id as NodeId])
}

/// `attrs` added to `existing`, in order, each unless an attribute of the same
/// qualified name is already there.
pub open spec fn add_missing(existing: Seq<(QNameView, Seq<char>)>, attrs: Seq<(QNameView, Seq<char>)>) -> Seq<(QNameView, Seq<char>)>
    decreases attrs.len(),
{
    if attrs.len() == 0 {
        existing
    } else {
        let e = add_missing(existing, attrs.drop_last());
        if exists|j: int| 0 <= j < e.len() && (#[trigger] e[j]).0 == attrs.last().0 {
            e
        } else {
            e.push(attrs.last())
        }
    }
}

/// What `append_before_sibling` does with `child`.
pub open spec fn before_sibling_spec(t: Seq<NodeView>, sibling: int, child: NodeOrText) -> Seq<NodeView> {
    match child {
        NodeOrText::AppendNode(c) => node_before_spec(t, sibling, c as int),
        NodeOrText::AppendText(text) => text_before_spec(t, sibling, text@),
    }
}

/// What `append_before_sibling` needs: `sibling` has a parent (once a node to
/// insert is detached), and a node to insert is a node of the arena but no
/// document.
pub open spec fn before_sibling_ok(t: Seq<NodeView>, sibling: int, child: NodeOrText) -> bool {
    &&& valid(t, sibling)
    &&& match child {
        NodeOrText::AppendNode(c) => valid(t, c as int) && !(t[c as int].data is Document)
            && detach_spec(t, c as int)[sibling].parent is Some,
        NodeOrText::AppendText(_) => t[sibling].parent is Some,
    }
}

/// The position of the first element among `kids`, if any.
pub open spec fn first_element_pos(t: Seq<NodeView>, kids: Seq<NodeId>) -> Option<int> {
    if exists|k: int| 0 <= k < kids.len() && t[#[trigger] kids[k] as int].data is Element {
        Some(choose|k: int| 0 <= k < kids.len() && t[kids[k] as int].data is Element
            && forall|j: int| 0 <= j < k ==> !(t[#[trigger] kids[j] as int].data is Element))
    } else {
        None
    }
}

/// A fragment parse leaves the fragment's nodes under a wrapper element, the
/// document's first element child: its children take its place in the
/// document's child list, and the wrapper is left detached and empty.
pub open spec fn fragment_spec(t: Seq<NodeView>) -> Seq<NodeView> {
    match first_element_pos(t, t[0].children) {
        Some(k) => {
            let w = t[0].children[k] as int;
            insert_spec(detach_spec(take_children_spec(t, w), w), 0, k, t[w].children)
        },
        None => t,
    }
}

/// All children of `node` moved, in order, to the end of `new_parent`'s children.
pub open spec fn reparent_spec(t: Seq<NodeView>, node: int, new_parent: int) -> Seq<NodeView> {
    let s = take_children_spec(t, node);
    insert_spec(s, new_parent, s[new_parent].children.len() as int, t[node].children)
}

/// Whether two names are the same qualified name.
pub fn qname_eq(a: &QName, b: &QName) -> (r: bool)
    ensures
        r == (a@ == b@),
{
    let prefix_eq = match (&a.prefix, &b.prefix) {
        (Some(x), Some(y)) => str_eq(x.as_str(), y.as_str()),
        (None, None) => true,
        _ => false,
    };
    prefix_eq && str_eq(a.ns.as_str(), b.ns.as_str()) && str_eq(a.local.as_str(), b.local.as_str())
}

impl Sink {
    /// An arena holding just the document node.
    pub fn new() -> (r: Sink)
        ensures
            r.dom@ == seq![fresh(DataView::Document)],
            r.dom.quirks_mode == QuirksMode::NoQuirks,
            links_wf(r.dom@),
    {
        let dom = Dom::new();
        assert(dom@ =~= seq![fresh(DataView::Document)]);
        Sink { dom }
    }

    /// The arena, once the parser is done.
    pub fn finish(self) -> (r: Dom)
        ensures
            r == self.dom,
    {
        self.dom
    }

    /// Appends a detached node holding `data` (no template contents); returns its id.
    pub fn push(&mut self, data: NodeData) -> (r: NodeId)
        requires
            links_wf(old(self).dom@),
            !(data@ is Element) || data@->Element_template_contents is None,
        ensures
            r == old(self).dom@.len(),
            final(self).dom@ == old(self).dom@.push(fresh(data@)),
            final(self).dom.quirks_mode == old(self).dom.quirks_mode,
            links_wf(final(self).dom@),
    {
        self.dom.push(data)
    }

    /// Makes the detached node `child` the last child of `parent`.
    pub fn append_node(&mut self, parent: NodeId, child: NodeId)
        requires
            links_wf(old(self).dom@),
            parent < old(self).dom@.len(),
            child < old(self).dom@.len(),
            old(self).dom@[child as int].parent is None,
            !(old(self).dom@[child as int].data is Document),
        ensures
            final(self).dom@ == insert_spec(old(self).dom@, parent as int, old(self).dom@[parent as int].children.len() as int, seq![child]),
            final(self).dom.quirks_mode == old(self).dom.quirks_mode,
            links_wf(final(self).dom@),
    {
        let n = self.dom.nodes[parent].children.len();
        let ids = vec![child];
        assert(ids@ =~= seq![child]);
        proof {
            lemma_insert_links(self.dom@, parent as int, n as int, ids@);
        }
        self.dom.insert_ids(parent, n, &ids);
    }

    /// Makes the detached node `child` the child of `parent` at `index`.
    pub fn insert_at(&mut self, parent: NodeId, index: usize, child: NodeId)
        requires
            links_wf(old(self).dom@),
            parent < old(self).dom@.len(),
            child < old(self).dom@.len(),
            index <= old(self).dom@[parent as int].children.len(),
            old(self).dom@[child as int].parent is None,
            !(old(self).dom@[child as int].data is Document),
        ensures
            final(self).dom@ == insert_spec(old(self).dom@, parent as int, index as int, seq![child]),
            final(self).dom.quirks_mode == old(self).dom.quirks_mode,
            links_wf(final(self).dom@),
    {
        let ids = vec![child];
        assert(ids@ =~= seq![child]);
        proof {
            lemma_insert_links(self.dom@, parent as int, index as int, ids@);
        }
        self.dom.insert_ids(parent, index, &ids);
    }

    /// Appends `text` under `parent`, merging it into a trailing text node.
    pub fn append_text(&mut self, parent: NodeId, text: &str)
        requires
            links_wf(old(self).dom@),
            parent < old(self).dom@.len(),
        ensures
            final(self).dom@ == append_text_spec(old(self).dom@, parent as int, text@),
            final(self).dom.quirks_mode == old(self).dom.quirks_mode,
            links_wf(final(self).dom@),
    {
        let ghost t = self.dom@;
        proof {
            assert(links_ok(t));
            assert(children_ok(t, parent as int));
        }
        let n = self.dom.nodes[parent].children.len();
        if n > 0 {
            let last = self.dom.nodes[parent].children[n - 1];
            assert(valid(t, last as int));
            match &mut self.dom.nodes[last].data {
                NodeData::Text { contents } => {
                    contents.append(text);
                    proof {
                        let d = self.dom@[last as int].data;
                        assert(self.dom@ =~= with_data(t, last as int, d));
                        lemma_with_data_wf(t, last as int, d);
                    }
                    return;
                },
                _ => {},
            }
            assert(self.dom@ =~= t);
        }
        let id = self.push(NodeData::Text { contents: text.to_owned() });
        self.append_node(parent, id);
    }

    /// Detaches `id` from its parent, if it has one.
    pub fn detach(&mut self, id: NodeId)
        requires
            links_wf(old(self).dom@),
            id < old(self).dom@.len(),
        ensures
            final(self).dom@ == detach_spec(old(self).dom@, id as int),
            final(self).dom.quirks_mode == old(self).dom.quirks_mode,
            links_wf(final(self).dom@),
    {
        self.dom.detach(id);
    }

    /// The parent of `sibling` and its position there.
    pub fn parent_and_index(&self, sibling: NodeId) -> (r: (NodeId, usize))
        requires
            links_wf(self.dom@),
            sibling < self.dom@.len(),
            self.dom@[sibling as int].parent is Some,
        ensures
            Some(r.0) == self.dom@[sibling as int].parent,
            r.1 as int == pos(self.dom@[r.0 as int].children, sibling),
            r.1 < self.dom@[r.0 as int].children.len(),
            self.dom@[r.0 as int].children[r.1 as int] == sibling,
    {
        let ghost t = self.dom@;
        let parent = self.dom.nodes[sibling].parent.unwrap();
        proof {
            assert(links_ok(t));
            assert(parent_ok(t, sibling as int));
            assert(children_ok(t, parent as int));
        }
        let i = position(&self.dom.nodes[parent].children, sibling).unwrap();
        proof {
            lemma_pos_unique(t[parent as int].children, sibling, i as int);
        }
        (parent, i)
    }

    /// The name of element `target`.
    pub fn elem_name(&self, target: NodeId) -> (r: &QName)
        requires
            target < self.dom@.len(),
            self.dom@[target as int].data is Element,
        ensures
            r@ == self.dom@[target as int].data->Element_name,
    {
        match &self.dom.nodes[target].data {
            NodeData::Element { name, .. } => name,
            _ => vstd::pervasive::unreached(),
        }
    }

    /// Creates a detached element; a template element gets a fresh, empty
    /// document node (created first) as its contents. Returns the element's id.
    pub fn create_element(&mut self, name: QName, attrs: Vec<(QName, String)>, template: bool) -> (r: NodeId)
        requires
            links_wf(old(self).dom@),
        ensures
            template ==> final(self).dom@ == old(self).dom@.push(fresh(DataView::Document)).push(
                fresh(DataView::Element { name: name@, attrs: attrs_view(attrs@), template_contents: Some(old(self).dom@.len() as NodeId) }),
            ) && r == old(self).dom@.len() + 1,
            !template ==> final(self).dom@ == old(self).dom@.push(
                fresh(DataView::Element { name: name@, attrs: attrs_view(attrs@), template_contents: None }),
            ) && r == old(self).dom@.len(),
            final(self).dom.quirks_mode == old(self).dom.quirks_mode,
            links_wf(final(self).dom@),
    {
        let template_contents = if template {
            Some(self.push(NodeData::Document))
        } else {
            None
        };
        let ghost t1 = self.dom@;
        let r = self.dom.push(NodeData::Element { name, attrs, template_contents });
        proof {
            if template {
                assert(template_ok(self.dom@, r as int)) by {
                    assert(self.dom@[r as int - 1] == t1[r as int - 1]);
                }
            }
        }
        r
    }

    /// Creates a detached comment node; returns its id.
    pub fn create_comment(&mut self, text: String) -> (r: NodeId)
        requires
            links_wf(old(self).dom@),
        ensures
            r == old(self).dom@.len(),
            final(self).dom@ == old(self).dom@.push(fresh(DataView::Comment { contents: text@ })),
            final(self).dom.quirks_mode == old(self).dom.quirks_mode,
            links_wf(final(self).dom@),
    {
        self.push(NodeData::Comment { contents: text })
    }

    /// Creates a detached processing-instruction node; returns its id.
    pub fn create_pi(&mut self, target: String, data: String) -> (r: NodeId)
        requires
            links_wf(old(self).dom@),
        ensures
            r == old(self).dom@.len(),
            final(self).dom@ == old(self).dom@.push(fresh(DataView::ProcessingInstruction { target: target@, contents: data@ })),
            final(self).dom.quirks_mode == old(self).dom.quirks_mode,
            links_wf(final(self).dom@),
    {
        self.push(NodeData::ProcessingInstruction { target, contents: data })
    }

    /// Appends a detached node, or text (merged into a trailing text node), as
    /// the last child of `parent`.
    pub fn append(&mut self, parent: NodeId, child: NodeOrText)
        requires
            links_wf(old(self).dom@),
            parent < old(self).dom@.len(),
            child matches NodeOrText::AppendNode(c) ==> c < old(self).dom@.len() && old(self).dom@[c as int].parent is None
                && !(old(self).dom@[c as int].data is Document),
        ensures
            final(self).dom@ == match child {
                NodeOrText::AppendNode(c) => insert_spec(old(self).dom@, parent as int, old(self).dom@[parent as int].children.len() as int, seq![c]),
                NodeOrText::AppendText(s) => append_text_spec(old(self).dom@, parent as int, s@),
            },
            final(self).dom.quirks_mode == old(self).dom.quirks_mode,
            links_wf(final(self).dom@),
    {
        match child {
            NodeOrText::AppendNode(id) => self.append_node(parent, id),
            NodeOrText::AppendText(text) => self.append_text(parent, text.as_str()),
        }
    }

    /// Appends a doctype node as the last child of the document.
    pub fn append_doctype_to_document(&mut self, name: String, public_id: String, system_id: String)
        requires
            links_wf(old(self).dom@),
        ensures
            final(self).dom@ == insert_spec(
                old(self).dom@.push(fresh(DataView::Doctype { name: name@, public_id: public_id@, system_id: system_id@ })),
                0,
                old(self).dom@[0].children.len() as int,
                seq![old(self).dom@.len() as NodeId],
            ),
            final(self).dom.quirks_mode == old(self).dom.quirks_mode,
            links_wf(final(self).dom@),
    {
        let id = self.push(NodeData::Doctype { name, public_id, system_id });
        self.append_node(0, id);
    }

    /// The contents of template element `target`.
    pub fn get_template_contents(&self, target: NodeId) -> (r: NodeId)
        requires
            target < self.dom@.len(),
            template_of(self.dom@, target as int) is Some,
        ensures
            Some(r) == template_of(self.dom@, target as int),
    {
        match &self.dom.nodes[target].data {
            NodeData::Element { template_contents: Some(t), .. } => *t,
            _ => vstd::pervasive::unreached(),
        }
    }

    /// Records the document's quirks mode.
    pub fn set_quirks_mode(&mut self, mode: QuirksMode)
        ensures
            final(self).dom@ == old(self).dom@,
            final(self).dom.quirks_mode == mode,
    {
        self.dom.quirks_mode = mode;
    }

    /// Detaches `target` from its parent, if it has one.
    pub fn remove_from_parent(&mut self, target: NodeId)
        requires
            links_wf(old(self).dom@),
            target < old(self).dom@.len(),
        ensures
            final(self).dom@ == detach_spec(old(self).dom@, target as int),
            final(self).dom.quirks_mode == old(self).dom.quirks_mode,
            links_wf(final(self).dom@),
    {
        self.detach(target);
    }

    /// Inserts text, or a node (detached first), right before `sibling`.
    pub fn append_before_sibling(&mut self, sibling: NodeId, new_node: NodeOrText)
        requires
            links_wf(old(self).dom@),
            before_sibling_ok(old(self).dom@, sibling as int, new_node),
        ensures
            final(self).dom@ == before_sibling_spec(old(self).dom@, sibling as int, new_node),
            final(self).dom.quirks_mode == old(self).dom.quirks_mode,
            links_wf(final(self).dom@),
    {
        let ghost t = self.dom@;
        match new_node {
            NodeOrText::AppendText(text) => {
                let (parent, index) = self.parent_and_index(sibling);
                proof {
                    assert(links_ok(t));
                    assert(children_ok(t, parent as int));
                }
                if index > 0 {
                    let prev = self.dom.nodes[parent].children[index - 1];
                    assert(valid(t, prev as int));
                    match &mut self.dom.nodes[prev].data {
                        NodeData::Text { contents } => {
                            contents.append(text.as_str());
                            proof {
                                let d = self.dom@[prev as int].data;
                                assert(self.dom@ =~= with_data(t, prev as int, d));
                                lemma_with_data_wf(t, prev as int, d);
                            }
                            return;
                        },
                        _ => {},
                    }
                    assert(self.dom@ =~= t);
                }
                let id = self.push(NodeData::Text { contents: text });
                self.insert_at(parent, index, id);
            },
            NodeOrText::AppendNode(id) => {
                self.detach(id);
                let (parent, index) = self.parent_and_index(sibling);
                self.insert_at(parent, index, id);
            },
        }
    }

    /// Appends `child` before `element` when `element` has a parent, and as the
    /// last child of `prev_element` otherwise.
    pub fn append_based_on_parent_node(&mut self, element: NodeId, prev_element: NodeId, child: NodeOrText)
        requires
            links_wf(old(self).dom@),
            element < old(self).dom@.len(),
            prev_element < old(self).dom@.len(),
            old(self).dom@[element as int].parent is Some ==> before_sibling_ok(old(self).dom@, element as int, child),
            old(self).dom@[element as int].parent is None ==> (child matches NodeOrText::AppendNode(c) ==> c
                < old(self).dom@.len() && old(self).dom@[c as int].parent is None && !(old(self).dom@[c as int].data is Document)),
        ensures
            final(self).dom@ == if old(self).dom@[element as int].parent is Some {
                before_sibling_spec(old(self).dom@, element as int, child)
            } else {
                match child {
                    NodeOrText::AppendNode(c) => insert_spec(old(self).dom@, prev_element as int, old(self).dom@[prev_element as int].children.len() as int, seq![c]),
                    NodeOrText::AppendText(s) => append_text_spec(old(self).dom@, prev_element as int, s@),
                }
            },
            final(self).dom.quirks_mode == old(self).dom.quirks_mode,
            links_wf(final(self).dom@),
    {
        let has_parent = self.dom.nodes[element].parent.is_some();
        if has_parent {
            self.append_before_sibling(element, child);
        } else {
            self.append(prev_element, child);
        }
    }

    /// Adds to element `target` each of `attrs` whose qualified name it lacks
    /// (in order, so the first of equal names wins); other nodes stay as they are.
    pub fn add_attrs_if_missing(&mut self, target: NodeId, attrs: Vec<(QName, String)>)
        requires
            links_wf(old(self).dom@),
            target < old(self).dom@.len(),
        ensures
            final(self).dom@ == match old(self).dom@[target as int].data {
                DataView::Element { name, attrs: existing, template_contents } => with_data(
                    old(self).dom@,
                    target as int,
                    DataView::Element { name, attrs: add_missing(existing, attrs_view(attrs@)), template_contents },
                ),
                _ => old(self).dom@,
            },
            final(self).dom.quirks_mode == old(self).dom.quirks_mode,
            links_wf(final(self).dom@),
    {
        let ghost t = self.dom@;
        let ghost new = attrs_view(attrs@);
        match &mut self.dom.nodes[target].data {
            NodeData::Element { attrs: existing, .. } => {
                let ghost e0 = attrs_view(existing@);
                let n = attrs.len();
                for k in 0..n
                    invariant
                        n == attrs@.len(),
                        new == attrs_view(attrs@),
                        attrs_view(existing@) == add_missing(e0, new.subrange(0, k as int)),
                {
                    let ghost cur = attrs_view(existing@);
                    let m = existing.len();
                    let mut found = false;
                    let mut j: usize = 0;
                    while j < m
                        invariant
                            m == existing@.len(),
                            cur == attrs_view(existing@),
                            j <= m,
                            k < n,
                            n == attrs@.len(),
                            new == attrs_view(attrs@),
                            found == exists|i: int| 0 <= i < j && (#[trigger] cur[i]).0 == new[k as int].0,
                        decreases m - j,
                    {
                        if qname_eq(&existing[j].0, &attrs[k].0) {
                            assert(cur[j as int].0 == new[k as int].0);
                            found = true;
                        }
                        j = j + 1;
                    }
                    assert(new.subrange(0, k + 1).drop_last() =~= new.subrange(0, k as int));
                    assert(new.subrange(0, k + 1).last() == new[k as int]);
                    if !found {
                        existing.push((attrs[k].0.duplicate(), attrs[k].1.clone()));
                        assert(attrs_view(existing@) =~= cur.push(new[k as int]));
                    }
                }
                assert(new.subrange(0, n as int) =~= new);
            },
            _ => {
                assert(self.dom@ =~= t);
                return;
            },
        }
        proof {
            let d = self.dom@[target as int].data;
            assert(self.dom@ =~= with_data(t, target as int, d));
            lemma_with_data_wf(t, target as int, d);
        }
    }

    /// Moves all children of `node`, in order, to the end of `new_parent`'s children.
    pub fn reparent_children(&mut self, node: NodeId, new_parent: NodeId)
        requires
            links_wf(old(self).dom@),
            node < old(self).dom@.len(),
            new_parent < old(self).dom@.len(),
        ensures
            final(self).dom@ == reparent_spec(old(self).dom@, node as int, new_parent as int),
            final(self).dom.quirks_mode == old(self).dom.quirks_mode,
            links_wf(final(self).dom@),
    {
        let ghost t = self.dom@;
        let kids = self.dom.take_children(node);
        let ghost s = self.dom@;
        let n = self.dom.nodes[new_parent].children.len();
        proof {
            assert(links_ok(t));
            assert(children_ok(t, node as int));
            assert forall|k: int| #![trigger kids@[k]] 0 <= k < kids@.len() implies valid(s, kids@[k] as int) && s[kids@[k] as int].parent is None
                && !(s[kids@[k] as int].data is Document) by {
                let x = kids@[k] as int;
                assert(t[node as int].children[k] == kids@[k]);
                assert(kids@.contains(x as NodeId));
                assert(parent_ok(t, x));
            }
            lemma_insert_links(s, new_parent as int, n as int, kids@);
        }
        self.dom.insert_ids(new_parent, n, &kids);
    }
}

/// A fragment parse leaves the fragment's nodes under a wrapper element (the
/// document's first element child): splice that wrapper's children up into
/// the document node, in its place. The wrapper stays in the arena, detached
/// and empty.
pub fn into_fragment(dom: Dom) -> (r: Dom)
    requires
        links_wf(dom@),
    ensures
        r@ == fragment_spec(dom@),
        r.quirks_mode == dom.quirks_mode,
        links_wf(r@),
        dom.wf() ==> r.wf(),
{
    let mut d = dom;
    let ghost t = d@;
    proof {
        assert(links_ok(t));
        assert(children_ok(t, 0));
    }
    let n = d.nodes[0].children.len();
    let mut k: usize = 0;
    while k < n
        invariant
            n == t[0].children.len(),
            t == d@,
            t == dom@,
            d.quirks_mode == dom.quirks_mode,
            links_wf(t),
            k <= n,
            forall|j: int| 0 <= j < k ==> !(t[#[trigger] t[0].children[j] as int].data is Element),
            forall|j: int| 0 <= j < n ==> valid(t, #[trigger] t[0].children[j] as int),
        decreases n - k,
    {
        let c = d.nodes[0].children[k];
        let is_elem = match d.nodes[c].data {
            NodeData::Element { .. } => true,
            _ => false,
        };
        if is_elem {
            let ghost kids0 = t[0].children;
            assert(first_element_pos(t, kids0) == Some(k as int)) by {
                assert(t[kids0[k as int] as int].data is Element);
                let q = choose|q: int| 0 <= q < kids0.len() && t[kids0[q] as int].data is Element
                    && forall|j: int| 0 <= j < q ==> !(t[#[trigger] kids0[j] as int].data is Element);
                if q < k {
                } else if q > k {
                    assert(!(t[kids0[k as int] as int].data is Element));
                }
            }
            let w = c;
            proof {
                assert(parent_ok(t, w as int));
                assert(t[w as int].parent == Some(0usize));
                assert(children_ok(t, w as int));
            }
            let kids = d.take_children(w);
            let ghost t1 = d@;
            proof {
                assert(t1[w as int].parent == Some(0usize)) by {
                    if t[w as int].children.contains(w) {
                        let m = choose|m: int| 0 <= m < t[w as int].children.len() && t[w as int].children[m] == w;
                        assert(t[t[w as int].children[m] as int].parent == Some(w));
                    }
                }
                assert(t1[0].children == kids0);
                lemma_pos_unique(kids0, w, k as int);
            }
            d.detach(w);
            let ghost t2 = d@;
            proof {
                assert(t2[0].children == kids0.remove(k as int));
                assert forall|m: int| #![trigger kids@[m]] 0 <= m < kids@.len() implies valid(t2, kids@[m] as int) && t2[kids@[m] as int].parent is None
                    && !(t2[kids@[m] as int].data is Document) by {
                    let x = kids@[m] as int;
                    assert(t[w as int].children[m] == kids@[m]);
                    assert(kids@.contains(x as NodeId));
                    assert(parent_ok(t, x));
                    assert(x != w as int) by {
                        assert(t[x].parent == Some(w));
                    }
                }
                lemma_insert_links(t2, 0, k as int, kids@);
                if dom_wf(t) {
                    // The wrapper's children do not hold the document: they
                    // rank below it.
                    let h = some_height(t);
                    assert(down_ranked(t, h));
                    assert(parent_ok(t, w as int));
                    assert(h(w as int) < h(0));
                    assert forall|i: int| #![trigger t2[i]] valid(t, i) && t2[i].parent is Some implies t2[i].parent == t[i].parent by {}
                    assert forall|i: int| #![trigger t2[i]] valid(t, i) implies template_of(t2, i) == template_of(t, i) by {}
                    assert forall|m: int| #![trigger kids@[m]] 0 <= m < kids@.len() implies valid(t2, kids@[m] as int) && t2[kids@[m] as int].parent is None
                        && !(t2[kids@[m] as int].data is Document) && !sreaches(t2, 0, kids@[m] as int) by {
                        let x = kids@[m] as int;
                        assert(t[w as int].children[m] == kids@[m]);
                        assert(t[x].parent == Some(w));
                        assert(h(x) < h(w as int));
                        if sreaches(t2, 0, x) {
                            lemma_sreaches_fewer_links(t, t2, 0, x);
                            lemma_sreaches_rank(t, h, 0, x);
                        }
                    }
                    assert(t[w as int].children.no_duplicates());
                    lemma_insert_dom_wf(t2, 0, k as int, kids@);
                }
            }
            d.insert_ids(0, k, &kids);
            assert(fragment_spec(t) == insert_spec(detach_spec(take_children_spec(t, w as int), w as int), 0, k as int, t[w as int].children));
            return d;
        }
        k = k + 1;
    }
    assert(!exists|j: int| 0 <= j < t[0].children.len() && t[#[trigger] t[0].children[j] as int].data is Element);
    d
}

} // verus!
