//! Deep copies across arenas: the importing side of a cross-tree splice.

use vstd::prelude::*;

use crate::dom::{attrs_view, fresh, DataView, Dom, NodeData, NodeId, NodeView, QName};
use crate::edit::{insert_spec, lemma_insert_links, lemma_insert_wf};
use crate::tree::{
    children_ok, down_ranked, is_serial_path, lemma_attach_serial, lemma_reaches_root, links_ok, links_wf, parent_ok,
    parent_valid, sreaches, template_of, template_ok, tree_wf, up_step, valid,
};

verus! {

/// A payload with its template contents replaced by `tc` (elements only).
pub open spec fn with_template(d: DataView, tc: Option<NodeId>) -> DataView {
    match d {
        DataView::Element { name, attrs, .. } => DataView::Element { name, attrs, template_contents: tc },
        _ => d,
    }
}

/// Importing node `x` of `o` (and what is under it) into the arena `t`: the
/// template contents are copied first, then the node, detached, then each
/// child in order, each copy hung under the node's copy. The arena after, and
/// the id of the copy.
pub open spec fn import_spec(o: Seq<NodeView>, h: spec_fn(int) -> nat, t: Seq<NodeView>, x: int) -> (Seq<NodeView>, NodeId)
    decreases (h(x) + 1) as int, 1int, 0int,
{
    let (t1, tc) = match template_of(o, x) {
        Some(c) => if h(c as int) < h(x) {
            let (t1, c2) = import_spec(o, h, t, c as int);
            (t1, Some(c2))
        } else {
            (t, None)
        },
        None => (t, None),
    };
    let nid = t1.len() as NodeId;
    let t2 = t1.push(fresh(with_template(o[x].data, tc)));
    (import_kids(o, h, t2, nid as int, o[x].children, (h(x) + 1) as int), nid)
}

/// The copies of the nodes `s` of `o`, each hung in turn under `nid`.
pub open spec fn import_kids(o: Seq<NodeView>, h: spec_fn(int) -> nat, t: Seq<NodeView>, nid: int, s: Seq<NodeId>, b: int) -> Seq<NodeView>
    decreases b, 0int, s.len(),
    when forall|k: int| 0 <= k < s.len() ==> h(#[trigger] s[k] as int) + 1 < b
{
    if s.len() == 0 {
        t
    } else {
        let t1 = import_kids(o, h, t, nid, s.drop_last(), b);
        let (t2, c) = import_spec(o, h, t1, s.last() as int);
        insert_spec(t2, nid, t2[nid].children.len() as int, seq![c])
    }
}

/// Node `y` of `t`, one of the nodes `lo..hi`, is a copy of node `x` of `o`:
/// the same payload (but for which node holds its template contents), a child
/// list whose entries are copies of `x`'s children at the same places, and,
/// where `x` has template contents, template contents that are a copy of them.
pub open spec fn copy_of(o: Seq<NodeView>, h: spec_fn(int) -> nat, x: int, t: Seq<NodeView>, y: int, lo: int, hi: int) -> bool
    decreases (h(x) + 1) as int, 1int, 0int,
{
    &&& lo <= y < hi
    &&& t[y].data == with_template(o[x].data, template_of(t, y))
    &&& forall|k: int| 0 <= k < o[x].children.len() ==> h(#[trigger] o[x].children[k] as int) < h(x)
    &&& copies_of(o, h, o[x].children, t, t[y].children, lo, hi, (h(x) + 1) as int)
    &&& match template_of(o, x) {
        Some(c) => template_of(t, y) is Some && h(c as int) < h(x) && copy_of(o, h, c as int, t, template_of(t, y)->0 as int, lo, hi),
        None => template_of(t, y) is None,
    }
}

/// Each node of `ys` is a copy of the node of `xs` at its place.
pub open spec fn copies_of(
    o: Seq<NodeView>,
    h: spec_fn(int) -> nat,
    xs: Seq<NodeId>,
    t: Seq<NodeView>,
    ys: Seq<NodeId>,
    lo: int,
    hi: int,
    b: int,
) -> bool
    decreases b, 0int, xs.len(),
    when forall|k: int| 0 <= k < xs.len() ==> h(#[trigger] xs[k] as int) + 1 < b
{
    if xs.len() == 0 {
        ys.len() == 0
    } else {
        &&& ys.len() == xs.len()
        &&& copies_of(o, h, xs.drop_last(), t, ys.drop_last(), lo, hi, b)
        &&& copy_of(o, h, xs.last() as int, t, ys.last() as int, lo, hi)
    }
}

/// `copies_of`, place by place.
pub proof fn lemma_copies_index(
    o: Seq<NodeView>,
    h: spec_fn(int) -> nat,
    xs: Seq<NodeId>,
    t: Seq<NodeView>,
    ys: Seq<NodeId>,
    lo: int,
    hi: int,
    b: int,
)
    requires
        forall|k: int| 0 <= k < xs.len() ==> h(#[trigger] xs[k] as int) + 1 < b,
    ensures
        copies_of(o, h, xs, t, ys, lo, hi, b) <==> ys.len() == xs.len() && forall|k: int|
            0 <= k < xs.len() ==> #[trigger] copy_of(o, h, xs[k] as int, t, ys[k] as int, lo, hi),
    decreases xs.len(),
{
    if xs.len() > 0 {
        let xd = xs.drop_last();
        let yd = ys.drop_last();
        assert forall|k: int| 0 <= k < xd.len() implies h(#[trigger] xd[k] as int) + 1 < b by {
            assert(xd[k] == xs[k]);
        }
        lemma_copies_index(o, h, xd, t, yd, lo, hi, b);
        if ys.len() == xs.len() {
            if forall|k: int| 0 <= k < xs.len() ==> #[trigger] copy_of(o, h, xs[k] as int, t, ys[k] as int, lo, hi) {
                assert forall|k: int| 0 <= k < xd.len() implies #[trigger] copy_of(o, h, xd[k] as int, t, yd[k] as int, lo, hi) by {
                    assert(xd[k] == xs[k]);
                    assert(yd[k] == ys[k]);
                    assert(copy_of(o, h, xs[k] as int, t, ys[k] as int, lo, hi));
                }
                assert(copy_of(o, h, xs[xs.len() - 1] as int, t, ys[ys.len() - 1] as int, lo, hi));
            }
            if copies_of(o, h, xs, t, ys, lo, hi, b) {
                assert forall|k: int| 0 <= k < xs.len() implies #[trigger] copy_of(o, h, xs[k] as int, t, ys[k] as int, lo, hi) by {
                    if k < xs.len() - 1 {
                        assert(xd[k] == xs[k]);
                        assert(yd[k] == ys[k]);
                        assert(copy_of(o, h, xd[k] as int, t, yd[k] as int, lo, hi));
                    }
                }
            }
        }
    } else {
    }
}

/// A copy stays one while the nodes `lo..hi` keep their payloads and children.
pub proof fn lemma_copy_frame(
    o: Seq<NodeView>,
    h: spec_fn(int) -> nat,
    x: int,
    t: Seq<NodeView>,
    y: int,
    lo: int,
    hi: int,
    t2: Seq<NodeView>,
)
    requires
        copy_of(o, h, x, t, y, lo, hi),
        forall|i: int| #![trigger t2[i]] lo <= i < hi ==> t2[i].data == t[i].data && t2[i].children == t[i].children,
    ensures
        copy_of(o, h, x, t2, y, lo, hi),
    decreases h(x),
{
    let xs = o[x].children;
    let b = (h(x) + 1) as int;
    assert forall|k: int| 0 <= k < xs.len() implies h(#[trigger] xs[k] as int) + 1 < b by {}
    assert(t2[y].data == t[y].data);
    assert(template_of(t2, y) == template_of(t, y));
    assert(t2[y].children == t[y].children);
    let ys = t[y].children;
    lemma_copies_index(o, h, xs, t, ys, lo, hi, b);
    lemma_copies_index(o, h, xs, t2, ys, lo, hi, b);
    assert forall|k: int| 0 <= k < xs.len() implies #[trigger] copy_of(o, h, xs[k] as int, t2, ys[k] as int, lo, hi) by {
        assert(copy_of(o, h, xs[k] as int, t, ys[k] as int, lo, hi));
        lemma_copy_frame(o, h, xs[k] as int, t, ys[k] as int, lo, hi, t2);
    }
    if let Some(c) = template_of(o, x) {
        lemma_copy_frame(o, h, c as int, t, template_of(t, y)->0 as int, lo, hi, t2);
    }
}

/// A copy among nodes `lo..hi` is one among any wider range.
pub proof fn lemma_copy_widen(
    o: Seq<NodeView>,
    h: spec_fn(int) -> nat,
    x: int,
    t: Seq<NodeView>,
    y: int,
    lo: int,
    hi: int,
    lo2: int,
    hi2: int,
)
    requires
        copy_of(o, h, x, t, y, lo, hi),
        lo2 <= lo,
        hi <= hi2,
    ensures
        copy_of(o, h, x, t, y, lo2, hi2),
    decreases h(x),
{
    let xs = o[x].children;
    let b = (h(x) + 1) as int;
    assert forall|k: int| 0 <= k < xs.len() implies h(#[trigger] xs[k] as int) + 1 < b by {}
    let ys = t[y].children;
    lemma_copies_index(o, h, xs, t, ys, lo, hi, b);
    lemma_copies_index(o, h, xs, t, ys, lo2, hi2, b);
    assert forall|k: int| 0 <= k < xs.len() implies #[trigger] copy_of(o, h, xs[k] as int, t, ys[k] as int, lo2, hi2) by {
        assert(copy_of(o, h, xs[k] as int, t, ys[k] as int, lo, hi));
        lemma_copy_widen(o, h, xs[k] as int, t, ys[k] as int, lo, hi, lo2, hi2);
    }
    if let Some(c) = template_of(o, x) {
        lemma_copy_widen(o, h, c as int, t, template_of(t, y)->0 as int, lo, hi, lo2, hi2);
    }
}

/// A node with neither a parent nor a template holding it reaches only itself.
pub proof fn lemma_sreaches_loose(t: Seq<NodeView>, x: int, a: int)
    requires
        valid(t, x),
        t[x].parent is None,
        forall|y: int| valid(t, y) ==> template_of(t, y) != Some(x as NodeId),
        x != a,
    ensures
        !sreaches(t, x, a),
{
    if sreaches(t, x, a) {
        let path = choose|path: Seq<NodeId>| is_serial_path(t, path) && path[0] == x && path.last() == a;
        assert(path.len() > 1);
        assert(up_step(t, path[0] as int, path[1] as int));
        assert(valid(t, path[1] as int));
    }
}

/// A copy of an attribute list.
fn clone_attrs(attrs: &Vec<(QName, String)>) -> (r: Vec<(QName, String)>)
    ensures
        attrs_view(r@) == attrs_view(attrs@),
{
    let mut out: Vec<(QName, String)> = Vec::new();
    let n = attrs.len();
    for k in 0..n
        invariant
            n == attrs@.len(),
            attrs_view(out@) =~= attrs_view(attrs@).subrange(0, k as int),
    {
        let ghost before = out@;
        out.push((attrs[k].0.duplicate(), attrs[k].1.clone()));
        assert(attrs_view(out@) =~= attrs_view(before).push(attrs_view(attrs@)[k as int]));
    }
    out
}

impl Dom {
    /// Copies node `id` of `other`, its template contents and everything under
    /// it into this arena; returns the copy's id.
    fn import_rec(&mut self, other: &Dom, id: NodeId, Ghost(h): Ghost<spec_fn(int) -> nat>) -> (r: NodeId)
        requires
            old(self).wf(),
            other.wf(),
            down_ranked(other@, h),
            id < other@.len(),
        ensures
            (final(self)@, r) == import_spec(other@, h, old(self)@, id as int),
            final(self).wf(),
            final(self).quirks_mode == old(self).quirks_mode,
            old(self)@.len() <= r < final(self)@.len(),
            forall|i: int| 0 <= i < old(self)@.len() ==> final(self)@[i] == old(self)@[i],
            final(self)@[r as int].parent is None,
            (final(self)@[r as int].data is Document) == (other@[id as int].data is Document),
            forall|y: int|
                #![trigger template_of(final(self)@, y)]
                old(self)@.len() <= y < final(self)@.len() && template_of(final(self)@, y) is Some ==> old(self)@.len()
                    <= template_of(final(self)@, y)->0 < y,
            forall|y: int| #![trigger template_of(final(self)@, y)] 0 <= y < final(self)@.len() ==> template_of(final(self)@, y) != Some(r),
            copy_of(other@, h, id as int, final(self)@, r as int, old(self)@.len() as int, final(self)@.len() as int),
        decreases h(id as int),
    {
        let ghost t0 = self@;
        let ghost o = other@;
        proof {
            assert(links_ok(o));
            assert(template_ok(o, id as int));
            assert(down_ranked(o, h));
        }
        let data = match &other.nodes[id].data {
            NodeData::Element { name, attrs, template_contents } => {
                let tc = match template_contents {
                    Some(t) => Some(self.import_rec(other, *t, Ghost(h))),
                    None => None,
                };
                NodeData::Element { name: name.duplicate(), attrs: clone_attrs(attrs), template_contents: tc }
            },
            NodeData::Document => NodeData::Document,
            NodeData::Doctype { name, public_id, system_id } => NodeData::Doctype {
                name: name.clone(),
                public_id: public_id.clone(),
                system_id: system_id.clone(),
            },
            NodeData::Text { contents } => NodeData::Text { contents: contents.clone() },
            NodeData::Comment { contents } => NodeData::Comment { contents: contents.clone() },
            NodeData::ProcessingInstruction { target, contents } => NodeData::ProcessingInstruction {
                target: target.clone(),
                contents: contents.clone(),
            },
        };
        let ghost t1 = self@;
        let ghost tc = match data@ {
            DataView::Element { template_contents, .. } => template_contents,
            _ => None,
        };
        proof {
            assert(data@ == with_template(o[id as int].data, tc));
            assert(import_spec(o, h, t0, id as int).1 == t1.len() as NodeId);
        }
        let new_id = self.push(data);
        proof {
            assert(links_ok(t1));
            if let Some(c) = tc {
                assert(self@[c as int] == t1[c as int]);
            }
            if let Some(c) = template_of(o, id as int) {
                lemma_copy_frame(o, h, c as int, t1, tc->0 as int, t0.len() as int, t1.len() as int, self@);
            }
        }
        let ghost t2 = self@;
        let kids = &other.nodes[id].children;
        let n = kids.len();
        proof {
            assert(children_ok(o, id as int));
        }
        for k in 0..n
            invariant
                self.wf(),
                other.wf(),
                o == other@,
                down_ranked(o, h),
                valid(o, id as int),
                n == kids@.len(),
                kids@ == o[id as int].children,
                forall|j: int| 0 <= j < n ==> valid(o, #[trigger] kids@[j] as int) && h(kids@[j] as int) < h(id as int),
                new_id as int == t1.len(),
                t2 == t1.push(fresh(with_template(o[id as int].data, tc))),
                self@ == import_kids(o, h, t2, new_id as int, kids@.subrange(0, k as int), (h(id as int) + 1) as int),
                self.quirks_mode == old(self).quirks_mode,
                t2.len() <= self@.len(),
                forall|i: int| 0 <= i < t1.len() ==> self@[i] == t1[i],
                self@[new_id as int].parent is None,
                self@[new_id as int].data == t2[new_id as int].data,
                forall|y: int| #![trigger template_of(self@, y)] t2.len() <= y < self@.len() && template_of(self@, y) is Some ==> t2.len() <= template_of(self@, y)->0 < y,
                forall|y: int| #![trigger template_of(self@, y)] 0 <= y < t2.len() ==> template_of(self@, y) == template_of(t2, y),
                links_wf(t1),
                t0.len() <= t1.len(),
                forall|y: int| #![trigger template_of(t1, y)] t0.len() <= y < t1.len() && template_of(t1, y) is Some ==> t0.len() <= template_of(t1, y)->0 < y,
                tc is Some ==> t0.len() <= tc->0 < t1.len(),
                self@[new_id as int].children.len() == k,
                forall|j: int|
                    0 <= j < k ==> #[trigger] copy_of(o, h, kids@[j] as int, self@, self@[new_id as int].children[j] as int, t2.len() as int, self@.len() as int),
                match template_of(o, id as int) {
                    Some(c) => tc is Some && copy_of(o, h, c as int, self@, tc->0 as int, t0.len() as int, t1.len() as int),
                    None => tc is None,
                },
        {
            let ghost before = self@;
            let child = kids[k];
            proof {
                assert(kids@[k as int] == child);
            }
            let c = self.import_rec(other, child, Ghost(h));
            let ghost mid = self@;
            let ids = vec![c];
            assert(ids@ =~= seq![c]);
            let len = self.nodes[new_id].children.len();
            proof {
                assert(mid[new_id as int] == before[new_id as int]);
                assert(!(mid[c as int].data is Document)) by {
                    assert(o[child as int].parent == Some(id));
                    assert(parent_ok(o, child as int));
                }
                lemma_insert_links(mid, new_id as int, len as int, ids@);
                assert forall|y: int| valid(mid, y) implies template_of(mid, y) != Some(new_id) by {
                    if y >= before.len() {
                        assert(template_of(mid, y) is Some ==> before.len() <= template_of(mid, y)->0);
                    } else if y >= t2.len() {
                        assert(template_of(mid, y) == template_of(before, y));
                    } else {
                        assert(template_of(mid, y) == template_of(t2, y));
                        if y < t1.len() {
                            assert(t2[y] == t1[y]);
                            assert(links_ok(t1));
                            assert(template_ok(t1, y));
                        }
                    }
                }
                lemma_sreaches_loose(mid, new_id as int, c as int);
                lemma_reaches_root(mid, new_id as int, c as int);
                lemma_insert_wf(mid, new_id as int, len as int, ids@);
                assert(links_ok(mid));
                assert forall|i: int| #![trigger mid[i]] valid(mid, i) implies parent_valid(mid, i) && match template_of(mid, i) {
                    Some(x) => valid(mid, x as int),
                    None => true,
                } by {
                    assert(parent_ok(mid, i));
                    assert(template_ok(mid, i));
                }
            }
            self.insert_ids(new_id, len, &ids);
            proof {
                let t3 = self@;
                // The copies made so far, and the new one, are untouched by
                // the import and the insertion.
                assert forall|i: int| #![trigger mid[i]] t2.len() <= i < before.len() implies mid[i].data == before[i].data && mid[i].children == before[i].children by {}
                assert forall|i: int| #![trigger t3[i]] 0 <= i < t3.len() && i != new_id as int implies t3[i].data == mid[i].data && t3[i].children == mid[i].children by {}
                assert forall|j: int| 0 <= j < k + 1 implies #[trigger] copy_of(o, h, kids@[j] as int, t3, t3[new_id as int].children[j] as int, t2.len() as int, t3.len() as int) by {
                    if j < k {
                        assert(t3[new_id as int].children[j] == before[new_id as int].children[j]);
                        assert(copy_of(o, h, kids@[j] as int, before, before[new_id as int].children[j] as int, t2.len() as int, before.len() as int));
                        lemma_copy_frame(o, h, kids@[j] as int, before, before[new_id as int].children[j] as int, t2.len() as int, before.len() as int, mid);
                        lemma_copy_frame(o, h, kids@[j] as int, mid, before[new_id as int].children[j] as int, t2.len() as int, before.len() as int, t3);
                        lemma_copy_widen(o, h, kids@[j] as int, t3, before[new_id as int].children[j] as int, t2.len() as int, before.len() as int, t2.len() as int, t3.len() as int);
                    } else {
                        assert(t3[new_id as int].children[j] == c);
                        assert(kids@[j] == child);
                        lemma_copy_frame(o, h, child as int, mid, c as int, before.len() as int, mid.len() as int, t3);
                        lemma_copy_widen(o, h, child as int, t3, c as int, before.len() as int, mid.len() as int, t2.len() as int, t3.len() as int);
                    }
                }
                if let Some(tcc) = template_of(o, id as int) {
                    lemma_copy_frame(o, h, tcc as int, before, tc->0 as int, t0.len() as int, t1.len() as int, mid);
                    lemma_copy_frame(o, h, tcc as int, mid, tc->0 as int, t0.len() as int, t1.len() as int, t3);
                }
                assert forall|i: int| #![trigger t3[i]] valid(mid, i) implies t3[i].data == mid[i].data && if ids@.contains(i as NodeId) {
                    t3[i].parent == Some(new_id)
                } else {
                    t3[i].parent == mid[i].parent
                } by {}
                assert forall|kk: int| 0 <= kk < ids@.len() implies !sreaches(mid, new_id as int, #[trigger] ids@[kk] as int) by {
                    assert(ids@[kk] == c);
                }
                lemma_attach_serial(mid, t3, new_id as int, ids@);
                let pre = kids@.subrange(0, k + 1);
                assert(pre.drop_last() =~= kids@.subrange(0, k as int));
                assert(pre.last() == child);
                assert forall|j: int| 0 <= j < pre.len() implies h(#[trigger] pre[j] as int) + 1 < (h(id as int) + 1) as int by {
                    assert(pre[j] == kids@[j]);
                }
                assert forall|y: int| #![trigger template_of(t3, y)] 0 <= y < t3.len() implies template_of(t3, y) == template_of(mid, y) by {}
                assert forall|y: int| #![trigger template_of(t3, y)] t2.len() <= y < t3.len() && template_of(t3, y) is Some implies t2.len() <= template_of(t3, y)->0 < y by {
                    assert(template_of(t3, y) == template_of(mid, y));
                    if y < before.len() {
                        assert(mid[y] == before[y]);
                        assert(template_of(mid, y) == template_of(before, y));
                    }
                }
                assert forall|y: int| #![trigger template_of(t3, y)] 0 <= y < t2.len() implies template_of(t3, y) == template_of(t2, y) by {
                    assert(template_of(t3, y) == template_of(mid, y));
                    assert(mid[y] == before[y]);
                    assert(template_of(before, y) == template_of(t2, y));
                }
            }
        }
        proof {
            assert(kids@.subrange(0, n as int) =~= kids@);
            let tf = self@;
            // The new node is a copy of `id`.
            let b = (h(id as int) + 1) as int;
            assert forall|k: int| 0 <= k < kids@.len() implies h(#[trigger] kids@[k] as int) + 1 < b by {}
            lemma_copies_index(o, h, kids@, tf, tf[new_id as int].children, t0.len() as int, tf.len() as int, b);
            assert forall|k: int| 0 <= k < kids@.len() implies #[trigger] copy_of(o, h, kids@[k] as int, tf, tf[new_id as int].children[k] as int, t0.len() as int, tf.len() as int) by {
                assert(copy_of(o, h, kids@[k] as int, tf, tf[new_id as int].children[k] as int, t2.len() as int, tf.len() as int));
                lemma_copy_widen(o, h, kids@[k] as int, tf, tf[new_id as int].children[k] as int, t2.len() as int, tf.len() as int, t0.len() as int, tf.len() as int);
            }
            assert(template_of(tf, new_id as int) == tc) by {
                match o[id as int].data {
                    DataView::Element { .. } => {},
                    _ => {
                        assert(tc is None);
                    },
                }
            }
            if let Some(c) = template_of(o, id as int) {
                lemma_copy_widen(o, h, c as int, tf, tc->0 as int, t0.len() as int, t1.len() as int, t0.len() as int, tf.len() as int);
                assert(h(c as int) < h(id as int));
            }
            assert(tf[new_id as int].data == with_template(o[id as int].data, template_of(tf, new_id as int))) by {
                match o[id as int].data {
                    DataView::Element { .. } => {},
                    _ => {},
                }
            }
            assert(copy_of(o, h, id as int, tf, new_id as int, t0.len() as int, tf.len() as int));
            assert forall|y: int| #![trigger template_of(tf, y)] t0.len() <= y < tf.len() && template_of(tf, y) is Some implies t0.len() <= template_of(tf, y)->0 < y by {
                if y < t1.len() {
                    assert(template_of(tf, y) == template_of(t2, y));
                    assert(t2[y] == t1[y]);
                    assert(template_of(t1, y) is Some ==> t0.len() <= template_of(t1, y)->0 < y);
                } else if y == t1.len() {
                    assert(template_of(tf, y) == template_of(t2, y));
                    assert(t2[y].data == with_template(o[id as int].data, tc));
                    assert(template_of(t2, y) == tc) by {
                        match o[id as int].data {
                            DataView::Element { .. } => {},
                            _ => {
                                assert(tc is None);
                            },
                        }
                    }
                }
            }
        }
        new_id
    }

    /// Deep-copies node `id` of `other` (its template contents and everything
    /// under it) into this arena; returns the copy's id. The copy is detached,
    /// made only of new nodes, and is a copy of `id` all the way down.
    pub fn import(&mut self, other: &Dom, id: NodeId) -> (r: NodeId)
        requires
            old(self).wf(),
            other.wf(),
            id < other@.len(),
        ensures
            (final(self)@, r) == import_spec(other@, crate::tree::some_height(other@), old(self)@, id as int),
            copy_of(other@, crate::tree::some_height(other@), id as int, final(self)@, r as int, old(self)@.len() as int, final(self)@.len() as int),
            final(self).wf(),
            final(self).quirks_mode == old(self).quirks_mode,
            old(self)@.len() <= r < final(self)@.len(),
            forall|i: int| 0 <= i < old(self)@.len() ==> final(self)@[i] == old(self)@[i],
            final(self)@[r as int].parent is None,
    {
        self.import_rec(other, id, Ghost(crate::tree::some_height(other@)))
    }
}

} // verus!
