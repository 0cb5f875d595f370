//! Short printable forms of nodes, as the Python bindings show them.

use vstd::prelude::*;

use crate::dom::{DataView, Dom, NodeData, NodeId};

verus! {

/// What `char::escape_debug` gives for `c`.
pub uninterp spec fn escaped_debug(c: char) -> Seq<char>;

/// Calls `char::escape_debug` and collects the result.
/// Trusted: the escape sequence is a function of the character alone.
#[verifier::external_body]
fn escape_debug(c: char) -> (r: String)
    ensures
        r@ == escaped_debug(c),
{
    c.escape_debug().collect()
}

/// The escapes of the characters of `cs`, concatenated.
pub open spec fn escaped_all(cs: Seq<char>) -> Seq<char>
    decreases cs.len(),
{
    if cs.len() == 0 {
        Seq::empty()
    } else {
        escaped_all(cs.drop_last()) + escaped_debug(cs.last())
    }
}

/// The preview of `s`: its first 30 characters escaped, an ellipsis when
/// there are more, in single quotes.
pub open spec fn preview_spec(s: Seq<char>) -> Seq<char> {
    if s.len() > 30 {
        "'"@ + escaped_all(s.subrange(0, 30)) + "\u{2026}"@ + "'"@
    } else {
        "'"@ + escaped_all(s) + "'"@
    }
}

/// A single-quoted, escaped, length-capped preview of text.
pub fn preview(s: &str) -> (r: String)
    ensures
        r@ == preview_spec(s@),
{
    let n = s.unicode_len();
    let m = if n > 30 { 30 } else { n };
    let mut out = "'".to_owned();
    let ghost q = "'"@;
    for i in 0..m
        invariant
            m <= n,
            n == s@.len(),
            m == if n > 30 { 30 } else { n },
            out@ == q + escaped_all(s@.subrange(0, i as int)),
            q == "'"@,
    {
        let e = escape_debug(s.get_char(i));
        out.append(e.as_str());
        assert(s@.subrange(0, i + 1).drop_last() =~= s@.subrange(0, i as int));
        assert(out@ =~= q + escaped_all(s@.subrange(0, i + 1)));
    }
    if n > 30 {
        out.append("\u{2026}");
    } else {
        assert(s@.subrange(0, n as int) =~= s@);
    }
    out.append("'");
    out
}

/// How the Python bindings print node `id`.
pub open spec fn repr_spec(d: DataView) -> Seq<char> {
    match d {
        DataView::Document => "<Document>"@,
        DataView::Element { name, .. } => "<Element "@ + name.local + ">"@,
        DataView::Text { contents } => "<Text "@ + preview_spec(contents) + ">"@,
        DataView::Comment { contents } => "<Comment "@ + preview_spec(contents) + ">"@,
        DataView::Doctype { name, .. } => "<Doctype "@ + name + ">"@,
        DataView::ProcessingInstruction { .. } => "<Node #pi>"@,
    }
}

impl Dom {
    /// A short printable form of node `id`: its kind, and its name or a
    /// preview of its text.
    pub fn repr(&self, id: NodeId) -> (r: String)
        requires
            id < self@.len(),
        ensures
            r@ == repr_spec(self@[id as int].data),
    {
        match &self.nodes[id].data {
            NodeData::Document => "<Document>".to_owned(),
            NodeData::Element { name, .. } => {
                let mut s = "<Element ".to_owned();
                s.append(name.local.as_str());
                s.append(">");
                s
            },
            NodeData::Text { contents } => {
                let mut s = "<Text ".to_owned();
                s.append(preview(contents.as_str()).as_str());
                s.append(">");
                s
            },
            NodeData::Comment { contents } => {
                let mut s = "<Comment ".to_owned();
                s.append(preview(contents.as_str()).as_str());
                s.append(">");
                s
            },
            NodeData::Doctype { name, .. } => {
                let mut s = "<Doctype ".to_owned();
                s.append(name.as_str());
                s.append(">");
                s
            },
            NodeData::ProcessingInstruction { .. } => "<Node #pi>".to_owned(),
        }
    }
}

} // verus!
