//! Element queries and node names.

use vstd::prelude::*;

use crate::attrs::{attr_value, lemma_with_data_wf, with_data};
use crate::dom::{attrs_view, html_ns, DataView, Dom, DomError, NodeData, NodeId, NodeView, QNameView};
use crate::text::str_eq;
use crate::tree::{children_ok, links_ok, links_wf, tree_wf, valid};

verus! {

/// The name a node shows: an element's local name, `#document`, `#doctype`,
/// `#text`, `#comment`, or `#pi`.
pub open spec fn node_name_spec(d: DataView) -> Seq<char> {
    match d {
        DataView::Document => "#document"@,
        DataView::Doctype { .. } => "#doctype"@,
        DataView::Text { .. } => "#text"@,
        DataView::Comment { .. } => "#comment"@,
        DataView::ProcessingInstruction { .. } => "#pi"@,
        DataView::Element { name, .. } => name.local,
    }
}

/// The children of `kids` that are elements, in order.
pub open spec fn element_ids(t: Seq<NodeView>, kids: Seq<NodeId>) -> Seq<NodeId>
    decreases kids.len(),
{
    if kids.len() == 0 {
        Seq::empty()
    } else {
        let rest = element_ids(t, kids.drop_last());
        if t[kids.last() as int].data is Element {
            rest.push(kids.last())
        } else {
            rest
        }
    }
}

impl Dom {
    /// The name `id` shows: an element's local name, or `#document`,
    /// `#doctype`, `#text`, `#comment`, `#pi` for other nodes.
    pub fn node_name(&self, id: NodeId) -> (r: String)
        requires
            id < self@.len(),
        ensures
            r@ == node_name_spec(self@[id as int].data),
    {
        match &self.nodes[id].data {
            NodeData::Document => "#document".to_owned(),
            NodeData::Doctype { .. } => "#doctype".to_owned(),
            NodeData::Text { .. } => "#text".to_owned(),
            NodeData::Comment { .. } => "#comment".to_owned(),
            NodeData::ProcessingInstruction { .. } => "#pi".to_owned(),
            NodeData::Element { name, .. } => name.local.clone(),
        }
    }

    /// An element's local name; `None` for other nodes.
    pub fn tag(&self, id: NodeId) -> (r: Option<&str>)
        requires
            id < self@.len(),
        ensures
            match self@[id as int].data {
                DataView::Element { name, .. } => r is Some && r->0@ == name.local,
                _ => r is None,
            },
    {
        match &self.nodes[id].data {
            NodeData::Element { name, .. } => Some(name.local.as_str()),
            _ => None,
        }
    }

    /// Whether `id` is an element with local name `name` in `namespace`
    /// (`None` selects HTML). Names are case-sensitive.
    pub fn is_tag(&self, id: NodeId, name: &str, namespace: Option<&str>) -> (r: bool)
        requires
            id < self@.len(),
        ensures
            r == match self@[id as int].data {
                DataView::Element { name: n, .. } => n.local == name@ && n.ns == match namespace {
                    Some(u) => u@,
                    None => html_ns(),
                },
                _ => false,
            },
    {
        match &self.nodes[id].data {
            NodeData::Element { name: n, .. } => {
                let ns_ok = match namespace {
                    Some(u) => str_eq(n.ns.as_str(), u),
                    None => str_eq(n.ns.as_str(), "http://www.w3.org/1999/xhtml"),
                };
                str_eq(n.local.as_str(), name) && ns_ok
            },
            _ => false,
        }
    }

    /// The namespace URL of a non-HTML element (SVG, MathML); `None` for HTML
    /// elements and non-elements.
    pub fn namespace(&self, id: NodeId) -> (r: Option<String>)
        requires
            id < self@.len(),
        ensures
            match self@[id as int].data {
                DataView::Element { name, .. } => if name.ns == html_ns() {
                    r is None
                } else {
                    r is Some && r->0@ == name.ns
                },
                _ => r is None,
            },
    {
        match &self.nodes[id].data {
            NodeData::Element { name, .. } => if str_eq(name.ns.as_str(), "http://www.w3.org/1999/xhtml") {
                None
            } else {
                Some(name.ns.clone())
            },
            _ => None,
        }
    }

    /// A text or comment node's own contents; `None` for other nodes.
    pub fn text(&self, id: NodeId) -> (r: Option<String>)
        requires
            id < self@.len(),
        ensures
            match self@[id as int].data {
                DataView::Text { contents } => r is Some && r->0@ == contents,
                DataView::Comment { contents } => r is Some && r->0@ == contents,
                _ => r is None,
            },
    {
        match &self.nodes[id].data {
            NodeData::Text { contents } => Some(contents.clone()),
            NodeData::Comment { contents } => Some(contents.clone()),
            _ => None,
        }
    }

    /// A `<template>` element's contents (a document node outside its child
    /// list); `None` for anything else.
    pub fn template_content(&self, id: NodeId) -> (r: Option<NodeId>)
        requires
            id < self@.len(),
        ensures
            r == match self@[id as int].data {
                DataView::Element { template_contents, .. } => template_contents,
                _ => None,
            },
    {
        match &self.nodes[id].data {
            NodeData::Element { template_contents, .. } => *template_contents,
            _ => None,
        }
    }

    /// Renames element `id` in place (local name only), keeping its
    /// namespace, attributes and children. Any other node gives `NotAnElement`
    /// and stays as it is.
    pub fn rename(&mut self, id: NodeId, name: &str) -> (r: Result<(), DomError>)
        requires
            id < old(self)@.len(),
        ensures
            match old(self)@[id as int].data {
                DataView::Element { name: n, attrs, template_contents } => r == Ok::<(), DomError>(())
                    && final(self)@ == with_data(
                    old(self)@,
                    id as int,
                    DataView::Element { name: QNameView { local: name@, ..n }, attrs, template_contents },
                ),
                _ => r == Err::<(), DomError>(DomError::NotAnElement) && final(self)@ == old(self)@,
            },
            old(self).wf() ==> final(self).wf(),
            links_wf(old(self)@) ==> links_wf(final(self)@),
            final(self).quirks_mode == old(self).quirks_mode,
    {
        let ghost t = self@;
        match &mut self.nodes[id].data {
            NodeData::Element { name: n, .. } => {
                n.local = name.to_owned();
            },
            _ => {
                assert(self@ =~= t);
                return Err(DomError::NotAnElement);
            },
        }
        proof {
            let d = self@[id as int].data;
            assert(self@ =~= with_data(t, id as int, d));
            if links_wf(t) {
                lemma_with_data_wf(t, id as int, d);
            }
        }
        Ok(())
    }

    /// The element children of `id`, in order (text and comments left out;
    /// template contents not entered).
    pub fn element_children(&self, id: NodeId) -> (r: Vec<NodeId>)
        requires
            links_wf(self@),
            id < self@.len(),
        ensures
            r@ == element_ids(self@, self@[id as int].children),
    {
        let ghost t = self@;
        let kids = &self.nodes[id].children;
        proof {
            assert(links_ok(t));
            assert(children_ok(t, id as int));
        }
        let mut out: Vec<NodeId> = Vec::new();
        let n = kids.len();
        for k in 0..n
            invariant
                n == kids@.len(),
                t == self@,
                kids@ == t[id as int].children,
                forall|j: int| 0 <= j < kids@.len() ==> valid(t, #[trigger] kids@[j] as int),
                out@ == element_ids(t, kids@.subrange(0, k as int)),
        {
            let c = kids[k];
            assert(kids@.subrange(0, k + 1).drop_last() =~= kids@.subrange(0, k as int));
            assert(valid(t, c as int));
            if let NodeData::Element { .. } = self.nodes[c].data {
                out.push(c);
            }
        }
        assert(kids@.subrange(0, n as int) =~= kids@);
        out
    }

    /// The local names of element `id`'s attributes, in order; empty for
    /// other nodes.
    pub fn attr_names(&self, id: NodeId) -> (r: Vec<String>)
        requires
            id < self@.len(),
        ensures
            r.deep_view() == match self@[id as int].data {
                DataView::Element { attrs, .. } => attrs.map_values(|a: (QNameView, Seq<char>)| a.0.local),
                _ => Seq::empty(),
            },
    {
        let mut out: Vec<String> = Vec::new();
        match &self.nodes[id].data {
            NodeData::Element { attrs, .. } => {
                let n = attrs.len();
                for k in 0..n
                    invariant
                        n == attrs@.len(),
                        out.deep_view() =~= attrs_view(attrs@).map_values(|a: (QNameView, Seq<char>)| a.0.local).subrange(0, k as int),
                {
                    let ghost before = out.deep_view();
                    out.push(attrs[k].0.local.clone());
                    assert(out.deep_view() =~= before.push(attrs_view(attrs@)[k as int].0.local));
                }
            },
            _ => {},
        }
        out
    }

    /// The values of element `id`'s attributes, in order; empty for other
    /// nodes.
    pub fn attr_values(&self, id: NodeId) -> (r: Vec<String>)
        requires
            id < self@.len(),
        ensures
            r.deep_view() == match self@[id as int].data {
                DataView::Element { attrs, .. } => attrs.map_values(|a: (QNameView, Seq<char>)| a.1),
                _ => Seq::empty(),
            },
    {
        let mut out: Vec<String> = Vec::new();
        match &self.nodes[id].data {
            NodeData::Element { attrs, .. } => {
                let n = attrs.len();
                for k in 0..n
                    invariant
                        n == attrs@.len(),
                        out.deep_view() =~= attrs_view(attrs@).map_values(|a: (QNameView, Seq<char>)| a.1).subrange(0, k as int),
                {
                    let ghost before = out.deep_view();
                    out.push(attrs[k].1.clone());
                    assert(out.deep_view() =~= before.push(attrs_view(attrs@)[k as int].1));
                }
            },
            _ => {},
        }
        out
    }

    /// The number of attributes of element `id`; 0 for other nodes.
    pub fn attr_count(&self, id: NodeId) -> (r: usize)
        requires
            id < self@.len(),
        ensures
            r == match self@[id as int].data {
                DataView::Element { attrs, .. } => attrs.len(),
                _ => 0,
            },
    {
        match &self.nodes[id].data {
            NodeData::Element { attrs, .. } => attrs.len(),
            _ => 0,
        }
    }
}

/// HTML's ASCII whitespace: tab, line feed, form feed, carriage return, space.
pub open spec fn is_ascii_ws(c: char) -> bool {
    c == ' ' || c == '\t' || c == '\n' || c == '\x0C' || c == '\r'
}

fn ascii_ws(c: char) -> (r: bool)
    ensures
        r == is_ascii_ws(c),
{
    c == ' ' || c == '\t' || c == '\n' || c == '\x0C' || c == '\r'
}

/// `s[i..j]` is a whole token of `s`: a maximal run of characters that are not
/// ASCII whitespace.
pub open spec fn is_token_at(s: Seq<char>, i: int, j: int) -> bool {
    &&& 0 <= i < j <= s.len()
    &&& (i == 0 || is_ascii_ws(s[i - 1]))
    &&& (j == s.len() || is_ascii_ws(s[j]))
    &&& forall|k: int| i <= k < j ==> !is_ascii_ws(#[trigger] s[k])
}

/// `tok` is one of the whitespace-separated tokens of `s`.
pub open spec fn has_token(s: Seq<char>, tok: Seq<char>) -> bool {
    exists|i: int, j: int| #[trigger] is_token_at(s, i, j) && s.subrange(i, j) == tok
}

/// The characters of `s`.
pub(crate) fn chars_of(s: &str) -> (r: Vec<char>)
    ensures
        r@ == s@,
{
    let n = s.unicode_len();
    let mut out: Vec<char> = Vec::new();
    for i in 0..n
        invariant
            n == s@.len(),
            out@ == s@.subrange(0, i as int),
    {
        out.push(s.get_char(i));
        assert(out@ =~= s@.subrange(0, i + 1));
    }
    assert(out@ =~= s@);
    out
}

/// Whether `s[start..end]` spells `t`.
fn same_chars(s: &Vec<char>, start: usize, end: usize, t: &Vec<char>) -> (r: bool)
    requires
        start <= end <= s@.len(),
    ensures
        r == (s@.subrange(start as int, end as int) == t@),
{
    if end - start != t.len() {
        return false;
    }
    let mut k: usize = 0;
    while k < t.len()
        invariant
            start <= end <= s@.len(),
            end - start == t@.len(),
            k <= t@.len(),
            forall|m: int| 0 <= m < k ==> s@[start + m] == t@[m],
        decreases t@.len() - k,
    {
        if s[start + k] != t[k] {
            assert(s@.subrange(start as int, end as int)[k as int] != t@[k as int]);
            return false;
        }
        k = k + 1;
    }
    assert(s@.subrange(start as int, end as int) =~= t@);
    true
}

/// Whether `tok` is one of the tokens of `s` separated by ASCII whitespace.
pub fn contains_token(s: &str, tok: &str) -> (r: bool)
    ensures
        r == has_token(s@, tok@),
{
    let cs = chars_of(s);
    let ts = chars_of(tok);
    let ghost sv = s@;
    let n = cs.len();
    let mut i: usize = 0;
    while i < n
        invariant
            cs@ == sv,
            ts@ == tok@,
            sv == s@,
            n == sv.len(),
            i <= n,
            i == 0 || i == n || is_ascii_ws(sv[i - 1]) || is_ascii_ws(sv[i as int]),
            forall|a: int, b: int| #[trigger] is_token_at(sv, a, b) && a < i ==> sv.subrange(a, b) != tok@,
        decreases n - i,
    {
        if ascii_ws(cs[i]) {
            assert forall|a: int, b: int| #[trigger] is_token_at(sv, a, b) && a < i + 1 implies sv.subrange(a, b) != tok@ by {
                if a == i as int {
                    assert(!is_ascii_ws(sv[a]));
                }
            }
            i = i + 1;
        } else {
            let start = i;
            let mut e = i;
            while e < n && !ascii_ws(cs[e])
                invariant
                    cs@ == sv,
                    ts@ == tok@,
                    sv == s@,
                    n == sv.len(),
                    start <= e <= n,
                    forall|k: int| start <= k < e ==> !is_ascii_ws(#[trigger] sv[k]),
                decreases n - e,
            {
                e = e + 1;
            }
            assert(is_token_at(sv, start as int, e as int));
            if same_chars(&cs, start, e, &ts) {
                assert(is_token_at(sv, start as int, e as int) && sv.subrange(start as int, e as int) == tok@);
                return true;
            }
            assert forall|a: int, b: int| #[trigger] is_token_at(sv, a, b) && a < e implies sv.subrange(a, b) != tok@ by {
                if a >= start {
                    if a > start {
                        assert(!is_ascii_ws(sv[a - 1]));
                    }
                    assert(a == start as int);
                    if b < e {
                        assert(!is_ascii_ws(sv[b]));
                    }
                    if b > e {
                        assert(!is_ascii_ws(sv[e as int]));
                    }
                    assert(b == e as int);
                }
            }
            i = e;
        }
    }
    assert(!has_token(sv, tok@));
    false
}

impl Dom {
    /// Whether `id` is an element whose `class` attribute holds `cls` as a
    /// whole, case-sensitive token separated by ASCII whitespace.
    pub fn has_class(&self, id: NodeId, cls: &str) -> (r: bool)
        requires
            id < self@.len(),
        ensures
            r == match attr_value(self@[id as int].data, "class"@) {
                Some(v) => has_token(v, cls@),
                None => false,
            },
    {
        match self.attr(id, "class") {
            Some(v) => contains_token(v, cls),
            None => false,
        }
    }
}

} // verus!
