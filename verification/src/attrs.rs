//! Payload reads and edits: attributes, text, names.

use vstd::prelude::*;

use crate::dom::{attrs_view, plain_attr_name, DataView, Dom, DomError, NodeData, NodeId, NodeView, QName, QNameView};
use crate::text::str_eq;
use crate::tree::{
    children_ok, lemma_down_ranked_fewer_links, links_ok, parent_ok, ranked, serial_ok, some_height,
    template_of, template_ok, tree_wf, valid, links_wf,
};

verus! {

/// The same node with its payload replaced by `d`.
pub open spec fn with_data(t: Seq<NodeView>, i: int, d: DataView) -> Seq<NodeView> {
    t.update(i, NodeView { data: d, ..t[i] })
}

/// Replacing a payload by one of the same kind, with the same template
/// contents, keeps the arena well formed.
pub proof fn lemma_with_data_wf(t: Seq<NodeView>, i: int, d: DataView)
    requires
        links_wf(t),
        valid(t, i),
        (d is Document) == (t[i].data is Document),
        template_of(with_data(t, i, d), i) == template_of(t, i),
    ensures
        links_wf(with_data(t, i, d)),
        tree_wf(t) ==> tree_wf(with_data(t, i, d)),
        serial_ok(t) ==> serial_ok(with_data(t, i, d)),
{
    let t2 = with_data(t, i, d);
    if serial_ok(t) {
        let h = some_height(t);
        lemma_down_ranked_fewer_links(t, t2, h);
    }
    assert(links_ok(t));
    assert forall|j: int| #![trigger t2[j]] valid(t2, j) implies parent_ok(t2, j) && children_ok(t2, j) && template_ok(t2, j) by {
        assert(parent_ok(t, j) && children_ok(t, j) && template_ok(t, j));
        if let Some(q) = t2[j].parent {
            assert(t2[q as int].children == t[q as int].children);
        }
        assert forall|k: int| #![trigger t2[j].children[k]] 0 <= k < t2[j].children.len() implies valid(t2, t2[j].children[k] as int) && t2[t2[j].children[k] as int].parent == Some(j as NodeId) by {
            let x = t[j].children[k] as int;
            assert(t[x].parent == Some(j as NodeId));
        }
        match t2[j].data {
            DataView::Element { template_contents: Some(c), .. } => {
                assert((t2[c as int].data is Document) == (t[c as int].data is Document));
            },
            _ => {},
        }
    }
    if tree_wf(t) {
        let r = choose|r: spec_fn(int) -> nat| ranked(t, r);
        assert(ranked(t2, r)) by {
            assert forall|j: int| #![trigger t2[j]] valid(t2, j) && t2[j].parent is Some implies r(t2[j].parent->0 as int) < r(j) by {
                assert(t[j].parent == t2[j].parent);
            }
        }
    }
    assert((t2[0].data is Document) == (t[0].data is Document));
}

/// The value of `t`'s text or comment payload, replaced.
pub open spec fn set_text_spec(d: DataView, text: Seq<char>) -> Option<DataView> {
    match d {
        DataView::Text { .. } => Some(DataView::Text { contents: text }),
        DataView::Comment { .. } => Some(DataView::Comment { contents: text }),
        _ => None,
    }
}

impl Dom {
    /// Replaces the contents of a text or comment node; any other node gives
    /// `NotTextual` and stays as it is.
    pub fn set_text(&mut self, id: NodeId, text: &str) -> (r: Result<(), DomError>)
        requires
            id < old(self)@.len(),
        ensures
            match set_text_spec(old(self)@[id as int].data, text@) {
                Some(d) => r == Ok::<(), DomError>(()) && final(self)@ == with_data(old(self)@, id as int, d),
                None => r == Err::<(), DomError>(DomError::NotTextual) && final(self)@ == old(self)@,
            },
            old(self).wf() ==> final(self).wf(),
            links_wf(old(self)@) ==> links_wf(final(self)@),
            final(self).quirks_mode == old(self).quirks_mode,
    {
        let ghost t = self@;
        match &mut self.nodes[id].data {
            NodeData::Text { contents } => {
                *contents = text.to_owned();
            },
            NodeData::Comment { contents } => {
                *contents = text.to_owned();
            },
            _ => {
                assert(self@ =~= t);
                return Err(DomError::NotTextual);
            },
        }
        proof {
            let d = set_text_spec(t[id as int].data, text@)->0;
            assert(self@ =~= with_data(t, id as int, d));
            if links_wf(t) {
                lemma_with_data_wf(t, id as int, d);
            }
        }
        Ok(())
    }
}

/// `i` is the first position whose attribute has local name `name`.
pub open spec fn is_attr_at(attrs: Seq<(QNameView, Seq<char>)>, name: Seq<char>, i: int) -> bool {
    &&& 0 <= i < attrs.len()
    &&& attrs[i].0.local == name
    &&& forall|j: int| 0 <= j < i ==> (#[trigger] attrs[j]).0.local != name
}

/// The position of the first attribute with local name `name`, if any.
pub open spec fn attr_index(attrs: Seq<(QNameView, Seq<char>)>, name: Seq<char>) -> Option<int> {
    if exists|i: int| 0 <= i < attrs.len() && (#[trigger] attrs[i]).0.local == name {
        Some(choose|i: int| is_attr_at(attrs, name, i))
    } else {
        None
    }
}

pub proof fn lemma_attr_index(attrs: Seq<(QNameView, Seq<char>)>, name: Seq<char>, i: int)
    requires
        is_attr_at(attrs, name, i),
    ensures
        attr_index(attrs, name) == Some(i),
{
    assert(attrs[i].0.local == name);
    let j = choose|j: int| is_attr_at(attrs, name, j);
    assert(is_attr_at(attrs, name, j));
    if j < i {
        assert(attrs[j].0.local != name);
    }
    if i < j {
        assert(attrs[i].0.local != name);
    }
}

/// Where some attribute is named `name`, a first one is.
pub proof fn lemma_attr_first_exists(attrs: Seq<(QNameView, Seq<char>)>, name: Seq<char>, k: int)
    requires
        0 <= k < attrs.len(),
        attrs[k].0.local == name,
    ensures
        attr_index(attrs, name) is Some,
        is_attr_at(attrs, name, attr_index(attrs, name)->0),
    decreases k,
{
    if exists|j: int| 0 <= j < k && (#[trigger] attrs[j]).0.local == name {
        let j = choose|j: int| 0 <= j < k && (#[trigger] attrs[j]).0.local == name;
        lemma_attr_first_exists(attrs, name, j);
    } else {
        assert(is_attr_at(attrs, name, k));
        lemma_attr_index(attrs, name, k);
    }
}

/// The value of the attribute an element reads for `name` (the first one
/// with that local name); nothing for other nodes.
pub open spec fn attr_value(d: DataView, name: Seq<char>) -> Option<Seq<char>> {
    match d {
        DataView::Element { attrs, .. } => match attr_index(attrs, name) {
            Some(i) => Some(attrs[i].1),
            None => None,
        },
        _ => None,
    }
}

/// An attribute list with `name` set to `value`: an existing attribute keeps
/// its name and position; otherwise a new one (without namespace) goes last.
pub open spec fn set_attr_spec(attrs: Seq<(QNameView, Seq<char>)>, name: Seq<char>, value: Seq<char>) -> Seq<(QNameView, Seq<char>)> {
    match attr_index(attrs, name) {
        Some(i) => attrs.update(i, (attrs[i].0, value)),
        None => attrs.push((plain_attr_name(name), value)),
    }
}

/// An attribute list without its first attribute named `name`.
pub open spec fn remove_attr_spec(attrs: Seq<(QNameView, Seq<char>)>, name: Seq<char>) -> Seq<(QNameView, Seq<char>)> {
    match attr_index(attrs, name) {
        Some(i) => attrs.remove(i),
        None => attrs,
    }
}

/// The position of the first attribute with local name `name`.
fn find_attr(attrs: &Vec<(QName, String)>, name: &str) -> (r: Option<usize>)
    ensures
        r == match attr_index(attrs_view(attrs@), name@) {
            Some(i) => Some(i as usize),
            None => None::<usize>,
        },
        r matches Some(i) ==> is_attr_at(attrs_view(attrs@), name@, i as int),
{
    let ghost v = attrs_view(attrs@);
    let n = attrs.len();
    let mut i: usize = 0;
    while i < n
        invariant
            n == attrs@.len(),
            v == attrs_view(attrs@),
            i <= n,
            forall|j: int| 0 <= j < i ==> (#[trigger] v[j]).0.local != name@,
        decreases n - i,
    {
        if str_eq(attrs[i].0.local.as_str(), name) {
            assert(v[i as int].0.local == name@);
            proof { lemma_attr_index(v, name@, i as int); }
            return Some(i);
        }
        i = i + 1;
    }
    assert(!exists|j: int| 0 <= j < v.len() && (#[trigger] v[j]).0.local == name@);
    None
}

impl Dom {
    /// The value of `id`'s attribute `name` (matched by local name); `None` for
    /// an absent attribute or a node that is not an element.
    pub fn attr(&self, id: NodeId, name: &str) -> (r: Option<&str>)
        requires
            id < self@.len(),
        ensures
            match r {
                Some(v) => attr_value(self@[id as int].data, name@) == Some(v@),
                None => attr_value(self@[id as int].data, name@) is None,
            },
    {
        match &self.nodes[id].data {
            NodeData::Element { attrs, .. } => match find_attr(attrs, name) {
                Some(i) => Some(attrs[i].1.as_str()),
                None => None,
            },
            _ => None,
        }
    }

    /// Sets (or adds, at the end) attribute `name` of element `id`; an
    /// existing attribute keeps its position. Any other node gives
    /// `NotAnElement` and stays as it is.
    pub fn set_attr(&mut self, id: NodeId, name: &str, value: &str) -> (r: Result<(), DomError>)
        requires
            id < old(self)@.len(),
        ensures
            match old(self)@[id as int].data {
                DataView::Element { name: n, attrs, template_contents } => r == Ok::<(), DomError>(())
                    && final(self)@ == with_data(
                    old(self)@,
                    id as int,
                    DataView::Element { name: n, attrs: set_attr_spec(attrs, name@, value@), template_contents },
                ),
                _ => r == Err::<(), DomError>(DomError::NotAnElement) && final(self)@ == old(self)@,
            },
            old(self).wf() ==> final(self).wf(),
            links_wf(old(self)@) ==> links_wf(final(self)@),
            final(self).quirks_mode == old(self).quirks_mode,
    {
        let ghost t = self@;
        match &mut self.nodes[id].data {
            NodeData::Element { attrs, .. } => {
                let ghost a0 = attrs_view(attrs@);
                match find_attr(attrs, name) {
                    Some(i) => {
                        attrs[i].1 = value.to_owned();
                        assert(attrs_view(attrs@) =~= set_attr_spec(a0, name@, value@));
                    },
                    None => {
                        attrs.push((QName::plain(name), value.to_owned()));
                        assert(attrs_view(attrs@) =~= set_attr_spec(a0, name@, value@));
                    },
                }
            },
            _ => {
                assert(self@ =~= t);
                return Err(DomError::NotAnElement);
            },
        }
        proof {
            let d = self@[id as int].data;
            assert(self@ =~= with_data(t, id as int, d));
            if links_wf(t) {
                lemma_with_data_wf(t, id as int, d);
            }
        }
        Ok(())
    }

    /// Removes attribute `name` of element `id`; returns its value if it was
    /// there. Any other node gives `NotAnElement` and stays as it is.
    pub fn remove_attr(&mut self, id: NodeId, name: &str) -> (r: Result<Option<String>, DomError>)
        requires
            id < old(self)@.len(),
        ensures
            match old(self)@[id as int].data {
                DataView::Element { name: n, attrs, template_contents } => {
                    &&& r is Ok
                    &&& match r->Ok_0 {
                        Some(v) => attr_value(old(self)@[id as int].data, name@) == Some(v@),
                        None => attr_value(old(self)@[id as int].data, name@) is None,
                    }
                    &&& final(self)@ == with_data(
                        old(self)@,
                        id as int,
                        DataView::Element { name: n, attrs: remove_attr_spec(attrs, name@), template_contents },
                    )
                },
                _ => r == Err::<Option<String>, DomError>(DomError::NotAnElement) && final(self)@ == old(self)@,
            },
            old(self).wf() ==> final(self).wf(),
            links_wf(old(self)@) ==> links_wf(final(self)@),
            final(self).quirks_mode == old(self).quirks_mode,
    {
        let ghost t = self@;
        let out;
        match &mut self.nodes[id].data {
            NodeData::Element { attrs, .. } => {
                let ghost a0 = attrs_view(attrs@);
                match find_attr(attrs, name) {
                    Some(i) => {
                        let (_, v) = attrs.remove(i);
                        assert(attrs_view(attrs@) =~= remove_attr_spec(a0, name@));
                        out = Some(v);
                    },
                    None => {
                        out = None;
                    },
                }
            },
            _ => {
                assert(self@ =~= t);
                return Err(DomError::NotAnElement);
            },
        }
        proof {
            let d = self@[id as int].data;
            assert(self@ =~= with_data(t, id as int, d));
            if links_wf(t) {
                lemma_with_data_wf(t, id as int, d);
            }
        }
        Ok(out)
    }
}

} // verus!
