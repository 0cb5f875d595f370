//! Walking the tree in document order, as serialization does: a template
//! element's contents stand in for its (always empty) structural children.

use vstd::prelude::*;

use crate::dom::{DataView, Dom, NodeData, NodeId, NodeView};
use crate::copy::{copy_of, lemma_copies_index, with_template};
use crate::names::element_ids;
use crate::tree::{children_ok, down_ranked, links_ok, links_wf, parent_ok, serial_ok, some_height, template_of, template_ok, tree_wf, valid};

verus! {

/// The children a document-order walk visits under `x`: a template element's
/// contents' children, or `x`'s own children.
pub open spec fn serial_kids(t: Seq<NodeView>, x: int) -> Seq<NodeId> {
    match t[x].data {
        DataView::Element { template_contents: Some(c), .. } => t[c as int].children,
        _ => t[x].children,
    }
}

/// The nodes of the walk from `x`, in document order, `x` first.
pub open spec fn preorder(t: Seq<NodeView>, h: spec_fn(int) -> nat, x: int) -> Seq<NodeId>
    decreases (h(x) + 1) as int, 1int, 0int,
{
    seq![x as NodeId] + forest(t, h, serial_kids(t, x), (h(x) + 1) as int)
}

/// The walks from each node of `s`, one after the other.
pub open spec fn forest(t: Seq<NodeView>, h: spec_fn(int) -> nat, s: Seq<NodeId>, b: int) -> Seq<NodeId>
    decreases b, 0int, s.len(),
    when forall|k: int| 0 <= k < s.len() ==> h(#[trigger] s[k] as int) + 1 < b
{
    if s.len() == 0 {
        Seq::empty()
    } else {
        forest(t, h, s.drop_last(), b) + preorder(t, h, s.last() as int)
    }
}

/// Within a well-formed, serially ranked arena, what a walk visits under a
/// node ranks below it and is a node of the arena.
pub proof fn lemma_serial_kids(t: Seq<NodeView>, h: spec_fn(int) -> nat, x: int)
    requires
        tree_wf(t),
        down_ranked(t, h),
        valid(t, x),
    ensures
        forall|k: int| 0 <= k < serial_kids(t, x).len() ==> valid(t, #[trigger] serial_kids(t, x)[k] as int)
            && h(serial_kids(t, x)[k] as int) < h(x),
{
    assert(links_ok(t));
    assert(template_ok(t, x));
    let s = serial_kids(t, x);
    assert forall|k: int| 0 <= k < s.len() implies valid(t, #[trigger] s[k] as int) && h(s[k] as int) < h(x) by {
        match t[x].data {
            DataView::Element { template_contents: Some(c), .. } => {
                assert(children_ok(t, c as int));
                assert(t[c as int].children[k] == s[k]);
                assert(valid(t, s[k] as int));
                assert(t[s[k] as int].parent == Some(c));
            },
            _ => {
                assert(children_ok(t, x));
                assert(t[x].children[k] == s[k]);
                assert(valid(t, s[k] as int));
            },
        }
    }
}

/// The walk over a forest does not depend on the bound it is given.
pub proof fn lemma_forest_bound(t: Seq<NodeView>, h: spec_fn(int) -> nat, s: Seq<NodeId>, b1: int, b2: int)
    requires
        forall|k: int| 0 <= k < s.len() ==> h(#[trigger] s[k] as int) + 1 < b1,
        forall|k: int| 0 <= k < s.len() ==> h(#[trigger] s[k] as int) + 1 < b2,
    ensures
        forest(t, h, s, b1) == forest(t, h, s, b2),
    decreases s.len(),
{
    if s.len() > 0 {
        lemma_forest_bound(t, h, s.drop_last(), b1, b2);
    }
}

/// Walking a forest piece by piece.
pub proof fn lemma_forest_append(t: Seq<NodeView>, h: spec_fn(int) -> nat, a: Seq<NodeId>, c: Seq<NodeId>, b: int)
    requires
        forall|k: int| 0 <= k < a.len() ==> h(#[trigger] a[k] as int) + 1 < b,
        forall|k: int| 0 <= k < c.len() ==> h(#[trigger] c[k] as int) + 1 < b,
    ensures
        forest(t, h, a + c, b) == forest(t, h, a, b) + forest(t, h, c, b),
    decreases c.len(),
{
    let ac = a + c;
    assert forall|k: int| 0 <= k < ac.len() implies h(#[trigger] ac[k] as int) + 1 < b by {
        if k < a.len() {
            assert(ac[k] == a[k]);
        } else {
            assert(ac[k] == c[k - a.len()]);
        }
    }
    if c.len() == 0 {
        assert(ac =~= a);
        assert(forest(t, h, c, b) =~= Seq::empty());
    } else {
        assert(ac.drop_last() =~= a + c.drop_last());
        lemma_forest_append(t, h, a, c.drop_last(), b);
        assert(ac.last() == c.last());
    }
}

/// `s` read from its end to its start.
pub open spec fn backwards(s: Seq<NodeId>) -> Seq<NodeId> {
    Seq::new(s.len(), |i: int| s[s.len() - 1 - i])
}

/// The text of the text nodes among `ids`, concatenated in order.
pub open spec fn texts(t: Seq<NodeView>, ids: Seq<NodeId>) -> Seq<char>
    decreases ids.len(),
{
    if ids.len() == 0 {
        Seq::empty()
    } else {
        texts(t, ids.drop_last()) + match t[ids.last() as int].data {
            DataView::Text { contents } => contents,
            _ => Seq::empty(),
        }
    }
}

impl Dom {
    /// The children a document-order walk visits under `id`: a template
    /// element's contents stand in for its (always empty) structural children.
    pub fn serial_children(&self, id: NodeId) -> (r: &[NodeId])
        requires
            links_wf(self@),
            id < self@.len(),
        ensures
            r@ == serial_kids(self@, id as int),
    {
        proof {
            assert(links_ok(self@));
            assert(template_ok(self@, id as int));
        }
        match &self.nodes[id].data {
            NodeData::Element { template_contents: Some(t), .. } => self.nodes[*t].children.as_slice(),
            _ => self.nodes[id].children.as_slice(),
        }
    }

    /// The element ids from `id` down, in document order (`id` first when it
    /// is an element; template contents visited in place of a template's
    /// children).
    pub fn descendants(&self, id: NodeId) -> (r: Vec<NodeId>)
        requires
            self.wf(),
            id < self@.len(),
        ensures
            r@ == element_ids(self@, preorder(self@, some_height(self@), id as int)),
    {
        let ghost t = self@;
        let all = self.walk_ids(id);
        let mut out: Vec<NodeId> = Vec::new();
        let n = all.len();
        for k in 0..n
            invariant
                n == all@.len(),
                t == self@,
                forall|j: int| 0 <= j < all@.len() ==> #[trigger] all@[j] < t.len(),
                out@ == element_ids(t, all@.subrange(0, k as int)),
        {
            let c = all[k];
            assert(all@.subrange(0, k + 1).drop_last() =~= all@.subrange(0, k as int));
            assert(c < t.len());
            if let NodeData::Element { .. } = self.nodes[c].data {
                out.push(c);
            }
        }
        assert(all@.subrange(0, n as int) =~= all@);
        out
    }

    /// The ids of `id` and everything under it, in document order, `id` first
    /// (template contents visited in place of a template's children).
    fn walk_ids(&self, id: NodeId) -> (r: Vec<NodeId>)
        requires
            self.wf(),
            id < self@.len(),
        ensures
            r@ == preorder(self@, some_height(self@), id as int),
            forall|j: int| 0 <= j < r@.len() ==> #[trigger] r@[j] < self@.len(),
    {
        let ghost t = self@;
        let ghost h = some_height(t);
        let ghost b: int = (h(id as int) + 2) as int;
        let ghost p = preorder(t, h, id as int);
        let mut out: Vec<NodeId> = Vec::new();
        let mut stack: Vec<NodeId> = vec![id];
        proof {
            lemma_serial_kids(t, h, id as int);
            lemma_forest_bound(t, h, serial_kids(t, id as int), (h(id as int) + 1) as int, b);
            assert(backwards(stack@) =~= seq![id]);
            assert(seq![id].drop_last() =~= Seq::<NodeId>::empty());
            assert(forest(t, h, seq![id], b) == forest(t, h, Seq::<NodeId>::empty(), b) + preorder(t, h, id as int));
            assert(out@ + forest(t, h, backwards(stack@), b) =~= p);
        }
        while stack.len() > 0
            invariant
                self.wf(),
                t == self@,
                down_ranked(t, h),
                valid(t, id as int),
                b == h(id as int) + 2,
                forall|k: int| 0 <= k < stack@.len() ==> valid(t, #[trigger] stack@[k] as int) && h(stack@[k] as int) <= h(id as int),
                out@ + forest(t, h, backwards(stack@), b) == p,
                forall|k: int| 0 <= k < out@.len() ==> #[trigger] out@[k] < t.len(),
            decreases forest(t, h, backwards(stack@), b).len(),
        {
            let ghost before = stack@;
            let n = stack.pop().unwrap();
            let ghost rest = stack@;
            proof {
                assert(before =~= rest.push(n));
                assert(backwards(before) =~= seq![n] + backwards(rest));
                assert forall|k: int| 0 <= k < backwards(rest).len() implies h(#[trigger] backwards(rest)[k] as int) + 1 < b by {
                    assert(backwards(rest)[k] == rest[rest.len() - 1 - k]);
                    assert(rest[rest.len() - 1 - k] == before[rest.len() - 1 - k]);
                }
                assert(before[before.len() - 1] == n);
                lemma_forest_append(t, h, seq![n], backwards(rest), b);
                assert(seq![n].drop_last() =~= Seq::<NodeId>::empty());
                assert(forest(t, h, seq![n], b) == forest(t, h, Seq::<NodeId>::empty(), b) + preorder(t, h, n as int));
            }
            out.push(n);
            let kids = self.serial_children(n);
            let ghost kv = kids@;
            proof {
                lemma_serial_kids(t, h, n as int);
            }
            let m = kids.len();
            let mut j = m;
            while j > 0
                invariant
                    m == kv.len(),
                    kids@ == kv,
                    j <= m,
                    stack@ == rest + Seq::new((m - j) as nat, |i: int| kv[m - 1 - i]),
                decreases j,
            {
                stack.push(kids[j - 1]);
                j = j - 1;
                assert(stack@ =~= rest + Seq::new((m - j) as nat, |i: int| kv[m - 1 - i]));
            }
            proof {
                let pushed = Seq::new(m as nat, |i: int| kv[m - 1 - i]);
                assert(backwards(stack@) =~= kv + backwards(rest));
                assert forall|k: int| 0 <= k < kv.len() implies h(#[trigger] kv[k] as int) + 1 < b by {
                    assert(valid(t, kv[k] as int));
                }
                assert forall|k: int| 0 <= k < kv.len() implies h(#[trigger] kv[k] as int) + 1 < h(n as int) + 1 by {
                    assert(valid(t, kv[k] as int));
                }
                lemma_forest_append(t, h, kv, backwards(rest), b);
                lemma_forest_bound(t, h, kv, (h(n as int) + 1) as int, b);
                assert forall|k: int| 0 <= k < stack@.len() implies valid(t, #[trigger] stack@[k] as int) && h(stack@[k] as int) <= h(id as int) by {
                    if k < rest.len() {
                        assert(stack@[k] == before[k]);
                    } else {
                        assert(stack@[k] == kv[m - 1 - (k - rest.len())]);
                        assert(valid(t, kv[m - 1 - (k - rest.len())] as int));
                    }
                }
                assert(out@ + forest(t, h, backwards(stack@), b) =~= p);
            }
        }
        assert(backwards(stack@) =~= Seq::<NodeId>::empty());
        assert(out@ =~= p);
        out
    }

    /// The concatenated contents of all text nodes from `id` down, in
    /// document order (raw text included).
    pub fn to_text(&self, id: NodeId) -> (r: String)
        requires
            self.wf(),
            id < self@.len(),
        ensures
            r@ == texts(self@, preorder(self@, some_height(self@), id as int)),
    {
        let ds = self.walk_ids(id);
        let ghost t = self@;
        let mut out = String::new();
        let n = ds.len();
        for k in 0..n
            invariant
                n == ds@.len(),
                t == self@,
                ds@ == preorder(t, some_height(t), id as int),
                forall|j: int| 0 <= j < ds@.len() ==> valid(t, #[trigger] ds@[j] as int),
                out@ == texts(t, ds@.subrange(0, k as int)),
        {
            let d = ds[k];
            assert(ds@.subrange(0, k + 1).drop_last() =~= ds@.subrange(0, k as int));
            assert(valid(t, d as int));
            match &self.nodes[d].data {
                NodeData::Text { contents } => {
                    out.append(contents.as_str());
                },
                _ => {},
            }
        }
        assert(ds@.subrange(0, n as int) =~= ds@);
        out
    }
}

/// The text of a concatenation is the concatenation of the texts.
pub proof fn lemma_texts_append(t: Seq<NodeView>, a: Seq<NodeId>, b: Seq<NodeId>)
    ensures
        texts(t, a + b) == texts(t, a) + texts(t, b),
    decreases b.len(),
{
    if b.len() == 0 {
        assert(a + b =~= a);
        assert(texts(t, a) + texts(t, b) =~= texts(t, a));
    } else {
        assert((a + b).drop_last() =~= a + b.drop_last());
        assert((a + b).last() == b.last());
        lemma_texts_append(t, a, b.drop_last());
    }
}

/// The serial children of a copy are copies of the original's serial
/// children, place by place.
pub proof fn lemma_copy_serial_kids(
    o: Seq<NodeView>,
    ho: spec_fn(int) -> nat,
    x: int,
    t: Seq<NodeView>,
    y: int,
    lo: int,
    hi: int,
)
    requires
        down_ranked(o, ho),
        valid(o, x),
        copy_of(o, ho, x, t, y, lo, hi),
    ensures
        serial_kids(t, y).len() == serial_kids(o, x).len(),
        forall|k: int| 0 <= k < serial_kids(o, x).len() ==> #[trigger] copy_of(o, ho, serial_kids(o, x)[k] as int, t, serial_kids(t, y)[k] as int, lo, hi),
{
    assert(t[y].data == with_template(o[x].data, template_of(t, y)));
    match template_of(o, x) {
        Some(c) => {
            let d = template_of(t, y)->0 as int;
            assert(copy_of(o, ho, c as int, t, d, lo, hi));
            let b = (ho(c as int) + 1) as int;
            assert forall|k: int| 0 <= k < o[c as int].children.len() implies ho(#[trigger] o[c as int].children[k] as int) + 1 < b by {}
            lemma_copies_index(o, ho, o[c as int].children, t, t[d].children, lo, hi, b);
        },
        None => {
            let b = (ho(x) + 1) as int;
            assert forall|k: int| 0 <= k < o[x].children.len() implies ho(#[trigger] o[x].children[k] as int) + 1 < b by {}
            lemma_copies_index(o, ho, o[x].children, t, t[y].children, lo, hi, b);
            match o[x].data {
                DataView::Element { .. } => {},
                _ => {},
            }
        },
    }
}

/// A copy holds the same text as the original.
pub proof fn lemma_copy_texts_node(
    o: Seq<NodeView>,
    ho: spec_fn(int) -> nat,
    x: int,
    t: Seq<NodeView>,
    ht: spec_fn(int) -> nat,
    y: int,
    lo: int,
    hi: int,
)
    requires
        tree_wf(o),
        tree_wf(t),
        down_ranked(o, ho),
        down_ranked(t, ht),
        valid(o, x),
        valid(t, y),
        copy_of(o, ho, x, t, y, lo, hi),
    ensures
        texts(o, preorder(o, ho, x)) == texts(t, preorder(t, ht, y)),
    decreases (ho(x) + 1) as int, 1int, 0int,
{
    let xs = serial_kids(o, x);
    let ys = serial_kids(t, y);
    lemma_serial_kids(o, ho, x);
    lemma_serial_kids(t, ht, y);
    lemma_copy_serial_kids(o, ho, x, t, y, lo, hi);
    let bo = (ho(x) + 1) as int;
    let bt = (ht(y) + 1) as int;
    lemma_copy_texts_forest(o, ho, xs, t, ht, ys, lo, hi, bo, bt);
    lemma_texts_append(o, seq![x as NodeId], forest(o, ho, xs, bo));
    lemma_texts_append(t, seq![y as NodeId], forest(t, ht, ys, bt));
    assert(t[y].data == with_template(o[x].data, template_of(t, y)));
    assert(seq![x as NodeId].drop_last() =~= Seq::<NodeId>::empty());
    assert(seq![y as NodeId].drop_last() =~= Seq::<NodeId>::empty());
    assert(texts(o, seq![x as NodeId]) == texts(t, seq![y as NodeId])) by {
        assert(crate::tree::bounded(o) && crate::tree::bounded(t));
        assert(seq![x as NodeId].last() as int == x);
        assert(seq![y as NodeId].last() as int == y);
        assert(texts(o, Seq::<NodeId>::empty()) == Seq::<char>::empty());
        assert(texts(t, Seq::<NodeId>::empty()) == Seq::<char>::empty());
        match o[x].data {
            DataView::Text { .. } => {},
            _ => {},
        }
    }
}

/// A forest of copies holds the same text as the original forest.
pub proof fn lemma_copy_texts_forest(
    o: Seq<NodeView>,
    ho: spec_fn(int) -> nat,
    xs: Seq<NodeId>,
    t: Seq<NodeView>,
    ht: spec_fn(int) -> nat,
    ys: Seq<NodeId>,
    lo: int,
    hi: int,
    bo: int,
    bt: int,
)
    requires
        tree_wf(o),
        tree_wf(t),
        down_ranked(o, ho),
        down_ranked(t, ht),
        ys.len() == xs.len(),
        forall|k: int| 0 <= k < xs.len() ==> valid(o, #[trigger] xs[k] as int) && ho(xs[k] as int) + 1 < bo,
        forall|k: int| 0 <= k < ys.len() ==> valid(t, #[trigger] ys[k] as int) && ht(ys[k] as int) + 1 < bt,
        forall|k: int| 0 <= k < xs.len() ==> #[trigger] copy_of(o, ho, xs[k] as int, t, ys[k] as int, lo, hi),
    ensures
        texts(o, forest(o, ho, xs, bo)) == texts(t, forest(t, ht, ys, bt)),
    decreases bo, 0int, xs.len(),
{
    if xs.len() > 0 {
        let xd = xs.drop_last();
        let yd = ys.drop_last();
        assert forall|k: int| 0 <= k < xd.len() implies valid(o, #[trigger] xd[k] as int) && ho(xd[k] as int) + 1 < bo by {
            assert(xd[k] == xs[k]);
        }
        assert forall|k: int| 0 <= k < yd.len() implies valid(t, #[trigger] yd[k] as int) && ht(yd[k] as int) + 1 < bt by {
            assert(yd[k] == ys[k]);
        }
        assert forall|k: int| 0 <= k < xd.len() implies #[trigger] copy_of(o, ho, xd[k] as int, t, yd[k] as int, lo, hi) by {
            assert(xd[k] == xs[k]);
            assert(yd[k] == ys[k]);
        }
        lemma_copy_texts_forest(o, ho, xd, t, ht, yd, lo, hi, bo, bt);
        let n = xs.len() - 1;
        assert(copy_of(o, ho, xs[n] as int, t, ys[n] as int, lo, hi));
        assert(valid(o, xs[n] as int) && ho(xs[n] as int) + 1 < bo);
        assert(valid(t, ys[n] as int));
        lemma_copy_texts_node(o, ho, xs.last() as int, t, ht, ys.last() as int, lo, hi);
        lemma_texts_append(o, forest(o, ho, xd, bo), preorder(o, ho, xs.last() as int));
        lemma_texts_append(t, forest(t, ht, yd, bt), preorder(t, ht, ys.last() as int));
    }
}

} // verus!
