//! Structural edits: detaching, splicing and inserting nodes.

use vstd::prelude::*;

use crate::dom::{DataView, Dom, DomError, NodeData, NodeId, NodeView};
use crate::tree::{
    acyclic, bounded, children_ok, links_wf, lemma_attach_acyclic, lemma_ranked_fewer_links,
    lemma_reaches_fewer_links, lemma_reaches_refl, lemma_reaches_root, lemma_reaches_step,
    lemma_reaches_rank, links_ok, parent_ok, parent_valid, ranked, reaches, template_ok, tree_wf,
    valid, dom_wf, serial_ok, some_height, sreaches, template_of, lemma_down_ranked_fewer_links,
    lemma_attach_serial, lemma_reaches_sreaches, lemma_sreaches_fewer_links, lemma_sreaches_refl,
};

verus! {

/// The position of `x` in `s` (`s` holds it once).
pub open spec fn pos(s: Seq<NodeId>, x: NodeId) -> int {
    s.index_of(x)
}

pub proof fn lemma_pos_unique(s: Seq<NodeId>, x: NodeId, i: int)
    requires
        s.no_duplicates(),
        0 <= i < s.len(),
        s[i] == x,
    ensures
        pos(s, x) == i,
{
    assert(s.contains(x));
    let j = s.index_of(x);
    assert(s[j] == x);
}

/// `c` taken out of its parent's child list, if it has a parent.
pub open spec fn detach_spec(t: Seq<NodeView>, c: int) -> Seq<NodeView> {
    match t[c].parent {
        Some(p) => {
            let t1 = t.update(c, NodeView { parent: None, ..t[c] });
            t1.update(
                p as int,
                NodeView {
                    children: t1[p as int].children.remove(pos(t1[p as int].children, c as NodeId)),
                    ..t1[p as int]
                },
            )
        },
        None => t,
    }
}

/// All children of `d` detached: `d` left childless.
pub open spec fn take_children_spec(t: Seq<NodeView>, d: int) -> Seq<NodeView> {
    Seq::new(
        t.len(),
        |i: int|
            NodeView {
                parent: if t[d].children.contains(i as NodeId) {
                    None
                } else {
                    t[i].parent
                },
                children: if i == d {
                    Seq::empty()
                } else {
                    t[i].children
                },
                data: t[i].data,
            },
    )
}

/// The nodes an insertion of `c` splices in: a document's children, or `c` itself.
pub open spec fn splice_ids_spec(t: Seq<NodeView>, c: int) -> Seq<NodeId> {
    if t[c].data is Document {
        t[c].children
    } else {
        seq![c as NodeId]
    }
}

/// The arena once the nodes an insertion of `c` splices in are detached: a
/// document loses its children, anything else leaves its parent.
pub open spec fn splice_spec(t: Seq<NodeView>, c: int) -> Seq<NodeView> {
    if t[c].data is Document {
        take_children_spec(t, c)
    } else {
        detach_spec(t, c)
    }
}

/// The detached nodes `ids` inserted, in order, into `p`'s child list at
/// `index`, each with `p` as its parent.
pub open spec fn insert_spec(t: Seq<NodeView>, p: int, index: int, ids: Seq<NodeId>) -> Seq<
    NodeView,
> {
    Seq::new(
        t.len(),
        |i: int|
            NodeView {
                parent: if ids.contains(i as NodeId) {
                    Some(p as NodeId)
                } else {
                    t[i].parent
                },
                children: if i == p {
                    t[p].children.subrange(0, index) + ids + t[p].children.subrange(
                        index,
                        t[p].children.len() as int,
                    )
                } else {
                    t[i].children
                },
                data: t[i].data,
            },
    )
}

/// Inserting `child` into `parent` before `reference` (at the end for `None`):
/// the arena after, and the outcome. An insertion that would put a node inside
/// itself is refused with `WouldCycle`: when something it splices in (`child`,
/// or a document's children) is `parent` or holds `parent` below it, through
/// children or template contents. A `reference` that is not a child of
/// `parent` is refused with `NotAChild`. Either way the arena is unchanged.
/// Inserting what is spliced in before one of its own nodes leaves everything
/// in place. Otherwise what the insertion splices in is detached, then put in
/// before `reference`.
pub open spec fn insert_before_spec(
    t: Seq<NodeView>,
    parent: int,
    child: int,
    reference: Option<NodeId>,
) -> (Seq<NodeView>, Result<(), DomError>) {
    let s = splice_spec(t, child);
    let ids = splice_ids_spec(t, child);
    if !insert_keeps_wf(t, parent, child) {
        (t, Err(DomError::WouldCycle))
    } else {
        match reference {
            None => (insert_spec(s, parent, s[parent].children.len() as int, ids), Ok(())),
            Some(r) => if !t[parent].children.contains(r) {
                (t, Err(DomError::NotAChild))
            } else if ids.contains(r) {
                (t, Ok(()))
            } else {
                (insert_spec(s, parent, pos(s[parent].children, r), ids), Ok(()))
            },
        }
    }
}

/// Replacing `old` with `new` in `parent`: nothing when they are the same
/// node; otherwise `new` is inserted before `old`, and then `old` is detached
/// (unless the insertion was refused, which leaves the arena as it was).
pub open spec fn replace_child_spec(t: Seq<NodeView>, parent: int, new: int, old_child: NodeId) -> (
    Seq<NodeView>,
    Result<(), DomError>,
) {
    if new == old_child as int {
        (t, Ok(()))
    } else {
        let (s, r) = insert_before_spec(t, parent, new, Some(old_child));
        if r is Err {
            (s, r)
        } else {
            (detach_spec(s, old_child as int), Ok(()))
        }
    }
}

/// An insertion keeps a `Dom` well formed when none of the nodes it splices in
/// is `parent` or holds `parent` below it (through template contents too).
pub open spec fn insert_keeps_wf(t: Seq<NodeView>, parent: int, child: int) -> bool {
    forall|k: int|
        0 <= k < splice_ids_spec(t, child).len() ==> !sreaches(t, parent, #[trigger] splice_ids_spec(t, child)[k] as int)
}
/// A child `r` of `parent` is among what inserting `child` splices in exactly
/// when it is `child`, or when `child` is a document inserted into itself.
pub proof fn lemma_spliced_reference(t: Seq<NodeView>, parent: int, child: int, r: NodeId)
    requires
        links_wf(t),
        valid(t, parent),
        valid(t, child),
        t[parent].children.contains(r),
    ensures
        splice_ids_spec(t, child).contains(r) == if t[child].data is Document {
            parent == child
        } else {
            r as int == child
        },
{
    assert(links_ok(t));
    assert(children_ok(t, parent));
    assert(children_ok(t, child));
    let j = choose|j: int| 0 <= j < t[parent].children.len() && t[parent].children[j] == r;
    assert(t[r as int].parent == Some(parent as NodeId));
    if t[child].data is Document {
        if parent == child {
            assert(splice_ids_spec(t, child)[j] == r);
        } else if splice_ids_spec(t, child).contains(r) {
            let m = choose|m: int| 0 <= m < t[child].children.len() && t[child].children[m] == r;
            assert(t[t[child].children[m] as int].parent == Some(child as NodeId));
        }
    } else {
        assert(splice_ids_spec(t, child) =~= seq![child as NodeId]);
        if r as int == child {
            assert(splice_ids_spec(t, child)[0] == r);
        }
    }
}

/// A child of `parent` that the insertion does not move stays a child of
/// `parent` once the moved nodes are detached.
pub proof fn lemma_reference_stays(t: Seq<NodeView>, parent: int, child: int, r: NodeId)
    requires
        links_wf(t),
        valid(t, parent),
        valid(t, child),
        t[parent].children.contains(r),
        !splice_ids_spec(t, child).contains(r),
    ensures
        splice_spec(t, child)[parent].children.contains(r),
{
    lemma_spliced_reference(t, parent, child, r);
    let s = splice_spec(t, child);
    let j = choose|j: int| 0 <= j < t[parent].children.len() && t[parent].children[j] == r;
    if t[child].data is Document {
        assert(s[parent].children == t[parent].children);
    } else {
        match t[child].parent {
            Some(q) => {
                if q as int == parent {
                    assert(links_ok(t));
                    assert(parent_ok(t, child));
                    let i0 = pos(t[parent].children, child as NodeId);
                    let rem = t[parent].children.remove(i0);
                    assert(t[parent].children[i0] == child as NodeId);
                    if j < i0 {
                        assert(rem[j] == r);
                    } else {
                        assert(rem[j - 1] == r);
                    }
                    assert(s[parent].children == rem);
                } else {
                    assert(s[parent].children == t[parent].children);
                }
            },
            None => {},
        }
    }
}

/// Inserting detached nodes that do not hold `p` (through template contents
/// either) keeps a well-formed arena well formed.
pub proof fn lemma_insert_dom_wf(s: Seq<NodeView>, p: int, index: int, ids: Seq<NodeId>)
    requires
        dom_wf(s),
        valid(s, p),
        0 <= index <= s[p].children.len(),
        ids.no_duplicates(),
        forall|k: int| #![trigger ids[k]] 0 <= k < ids.len() ==> valid(s, ids[k] as int) && s[ids[k] as int].parent is None
            && !(s[ids[k] as int].data is Document) && !sreaches(s, p, ids[k] as int),
    ensures
        dom_wf(insert_spec(s, p, index, ids)),
{
    lemma_insert_links(s, p, index, ids);
    assert forall|k: int| #![trigger ids[k]] 0 <= k < ids.len() implies valid(s, ids[k] as int)
        && s[ids[k] as int].parent is None && !(s[ids[k] as int].data is Document)
        && !reaches(s, p, ids[k] as int) by {
        if reaches(s, p, ids[k] as int) {
            lemma_reaches_sreaches(s, p, ids[k] as int);
        }
    }
    lemma_insert_wf(s, p, index, ids);
    assert(links_ok(s));
    assert forall|i: int| #![trigger s[i]] valid(s, i) implies parent_valid(s, i) && match template_of(s, i) {
        Some(c) => valid(s, c as int),
        None => true,
    } by {
        assert(parent_ok(s, i));
        assert(template_ok(s, i));
    }
    let t2 = insert_spec(s, p, index, ids);
    assert forall|i: int| #![trigger t2[i]] valid(s, i) implies t2[i].data == s[i].data && if ids.contains(i as NodeId) {
        t2[i].parent == Some(p as NodeId)
    } else {
        t2[i].parent == s[i].parent
    } by {}
    assert forall|k: int| 0 <= k < ids.len() implies !sreaches(s, p, #[trigger] ids[k] as int) by {}
    lemma_attach_serial(s, t2, p, ids);
}


pub proof fn lemma_detach_wf(t: Seq<NodeView>, c: int)
    requires
        links_wf(t),
        valid(t, c),
    ensures
        links_wf(detach_spec(t, c)),
        tree_wf(t) ==> tree_wf(detach_spec(t, c)),
        detach_spec(t, c).len() == t.len(),
        detach_spec(t, c)[c].parent is None,
        forall|i: int| #![trigger detach_spec(t, c)[i]] valid(t, i) && i != c ==> detach_spec(t, c)[i].parent == t[i].parent,
        forall|i: int| #![trigger detach_spec(t, c)[i]] valid(t, i) ==> detach_spec(t, c)[i].data == t[i].data,
{
    let t2 = detach_spec(t, c);
    if let Some(p) = t[c].parent {
        let p = p as int;
        assert(links_ok(t));
        assert(parent_ok(t, c));
        assert(children_ok(t, p));
        let kids = t[p].children;
        let k = pos(kids, c as NodeId);
        assert(kids.contains(c as NodeId));
        assert(0 <= k < kids.len() && kids[k] == c as NodeId);
        let kids2 = kids.remove(k);
        assert(t2[p].children == kids2);
        assert forall|i: int| #![trigger t2[i]] valid(t2, i) implies parent_ok(t2, i) && children_ok(t2, i) && template_ok(t2, i) by {
            assert(parent_ok(t, i) && children_ok(t, i) && template_ok(t, i));
            if let Some(q) = t2[i].parent {
                assert(i != c);
                if q as int == p {
                    assert(kids.contains(i as NodeId));
                    let j = choose|j: int| 0 <= j < kids.len() && kids[j] == i as NodeId;
                    assert(j != k);
                    if j < k {
                        assert(kids2[j] == i as NodeId);
                    } else {
                        assert(kids2[j - 1] == i as NodeId);
                    }
                }
            }
            if i == p {
                assert(kids2.no_duplicates()) by {
                    assert forall|a: int, b: int| 0 <= a < kids2.len() && 0 <= b < kids2.len() && a != b implies kids2[a] != kids2[b] by {
                        let a2 = if a < k { a } else { a + 1 };
                        let b2 = if b < k { b } else { b + 1 };
                        assert(kids2[a] == kids[a2]);
                        assert(kids2[b] == kids[b2]);
                    }
                }
                assert forall|j: int| #![trigger t2[i].children[j]] 0 <= j < t2[i].children.len() implies valid(t2, t2[i].children[j] as int) && t2[t2[i].children[j] as int].parent == Some(i as NodeId) by {
                    let j2 = if j < k { j } else { j + 1 };
                    assert(kids2[j] == kids[j2]);
                    assert(j2 != k);
                    assert(kids[j2] != c as NodeId);
                    assert(t[kids[j2] as int].parent == Some(i as NodeId));
                }
            } else {
                assert forall|j: int| #![trigger t2[i].children[j]] 0 <= j < t2[i].children.len() implies valid(t2, t2[i].children[j] as int) && t2[t2[i].children[j] as int].parent == Some(i as NodeId) by {
                    let x = t[i].children[j] as int;
                    assert(t[x].parent == Some(i as NodeId));
                    if x == c {
                        assert(i == p);
                    }
                }
            }
            match t2[i].data {
                DataView::Element { template_contents: Some(d), .. } => {
                    assert(t2[d as int].data == t[d as int].data);
                },
                _ => {},
            }
        }
        if tree_wf(t) {
            let r = choose|r: spec_fn(int) -> nat| ranked(t, r);
            lemma_ranked_fewer_links(t, t2, r);
        }
        assert(t2[0].data == t[0].data);
    }
}

pub proof fn lemma_take_children_wf(t: Seq<NodeView>, d: int)
    requires
        links_wf(t),
        valid(t, d),
    ensures
        links_wf(take_children_spec(t, d)),
        tree_wf(t) ==> tree_wf(take_children_spec(t, d)),
        take_children_spec(t, d).len() == t.len(),
        forall|i: int| #![trigger take_children_spec(t, d)[i]] valid(t, i) ==> take_children_spec(t, d)[i].data == t[i].data,
{
    let t2 = take_children_spec(t, d);
    let kids = t[d].children;
    assert(links_ok(t));
    assert forall|i: int| #![trigger t2[i]] valid(t2, i) implies parent_ok(t2, i) && children_ok(t2, i) && template_ok(t2, i) by {
        assert(parent_ok(t, i) && children_ok(t, i) && template_ok(t, i));
        if let Some(q) = t2[i].parent {
            assert(!kids.contains(i as NodeId));
            assert(t[i].parent == Some(q));
            if q as int == d {
                assert(t[d].children.contains(i as NodeId));
            }
            assert(t2[q as int].children == t[q as int].children);
        }
        if i != d {
            assert forall|j: int| #![trigger t2[i].children[j]] 0 <= j < t2[i].children.len() implies valid(t2, t2[i].children[j] as int) && t2[t2[i].children[j] as int].parent == Some(i as NodeId) by {
                let x = t[i].children[j] as int;
                assert(t[x].parent == Some(i as NodeId));
                if kids.contains(x as NodeId) {
                    let m = choose|m: int| 0 <= m < kids.len() && kids[m] == x as NodeId;
                    assert(children_ok(t, d));
                    assert(t[kids[m] as int].parent == Some(d as NodeId));
                }
            }
        } else {
            assert(t2[i].children.no_duplicates());
        }
        match t2[i].data {
            DataView::Element { template_contents: Some(c), .. } => {
                assert(t2[c as int].data == t[c as int].data);
            },
            _ => {},
        }
    }
    if tree_wf(t) {
        let r = choose|r: spec_fn(int) -> nat| ranked(t, r);
        lemma_ranked_fewer_links(t, t2, r);
    }
    assert(t2[0].data == t[0].data);
}

pub proof fn lemma_insert_links(t: Seq<NodeView>, p: int, index: int, ids: Seq<NodeId>)
    requires
        links_wf(t),
        valid(t, p),
        0 <= index <= t[p].children.len(),
        ids.no_duplicates(),
        forall|k: int| #![trigger ids[k]] 0 <= k < ids.len() ==> valid(t, ids[k] as int) && t[ids[k] as int].parent is None
            && !(t[ids[k] as int].data is Document),
    ensures
        links_wf(insert_spec(t, p, index, ids)),
        insert_spec(t, p, index, ids).len() == t.len(),
        forall|i: int| #![trigger insert_spec(t, p, index, ids)[i]] valid(t, i) ==> insert_spec(t, p, index, ids)[i].data == t[i].data,
{
    let t2 = insert_spec(t, p, index, ids);
    let kids = t[p].children;
    let pre = kids.subrange(0, index);
    let post = kids.subrange(index, kids.len() as int);
    let nk = pre + ids + post;
    assert(links_ok(t));
    assert(children_ok(t, p));
    assert forall|k: int, m: int| 0 <= k < ids.len() && 0 <= m < kids.len() implies ids[k] != kids[m] by {
        assert(t[kids[m] as int].parent == Some(p as NodeId));
        assert(t[ids[k] as int].parent is None);
    }
    assert(t2[p].children == nk);
    assert forall|x: int| 0 <= x < nk.len() implies (#[trigger] nk[x]) == (if x < index { kids[x] } else if x < index + ids.len() { ids[x - index] } else { kids[x - ids.len()] }) by {}
    assert forall|i: int| #![trigger t2[i]] valid(t2, i) implies parent_ok(t2, i) && children_ok(t2, i) && template_ok(t2, i) by {
        assert(parent_ok(t, i) && children_ok(t, i) && template_ok(t, i));
        if ids.contains(i as NodeId) {
            let k = choose|k: int| 0 <= k < ids.len() && ids[k] == i as NodeId;
            assert(nk[index + k] == i as NodeId);
            assert(nk.contains(i as NodeId));
        } else if let Some(q) = t2[i].parent {
            assert(t[i].parent == Some(q));
            if q as int == p {
                let m = choose|m: int| 0 <= m < kids.len() && kids[m] == i as NodeId;
                if m < index {
                    assert(nk[m] == i as NodeId);
                } else {
                    assert(nk[m + ids.len()] == i as NodeId);
                }
                assert(nk.contains(i as NodeId));
            } else {
                assert(t2[q as int].children == t[q as int].children);
            }
        }
        if i == p {
            assert(nk.no_duplicates()) by {
                assert forall|a: int, b: int| 0 <= a < nk.len() && 0 <= b < nk.len() && a != b implies nk[a] != nk[b] by {
                    if a < index && b < index {
                    } else if a >= index + ids.len() && b >= index + ids.len() {
                    } else if index <= a < index + ids.len() && index <= b < index + ids.len() {
                    } else if index <= a < index + ids.len() {
                        if b < index { assert(ids[a - index] != kids[b]); } else { assert(ids[a - index] != kids[b - ids.len()]); }
                    } else if index <= b < index + ids.len() {
                        if a < index { assert(ids[b - index] != kids[a]); } else { assert(ids[b - index] != kids[a - ids.len()]); }
                    } else {
                    }
                }
            }
            assert forall|j: int| #![trigger t2[i].children[j]] 0 <= j < t2[i].children.len() implies valid(t2, t2[i].children[j] as int) && t2[t2[i].children[j] as int].parent == Some(i as NodeId) by {
                if index <= j < index + ids.len() {
                    assert(ids.contains(nk[j]));
                } else {
                    let m = if j < index { j } else { j - ids.len() };
                    assert(nk[j] == kids[m]);
                    assert(t[kids[m] as int].parent == Some(p as NodeId));
                    assert(!ids.contains(kids[m])) by {
                        if ids.contains(kids[m]) {
                            let k = choose|k: int| 0 <= k < ids.len() && ids[k] == kids[m];
                        }
                    }
                }
            }
        } else {
            assert(t2[i].children == t[i].children);
            assert forall|j: int| #![trigger t2[i].children[j]] 0 <= j < t2[i].children.len() implies valid(t2, t2[i].children[j] as int) && t2[t2[i].children[j] as int].parent == Some(i as NodeId) by {
                let x = t[i].children[j];
                assert(t[x as int].parent == Some(i as NodeId));
                assert(!ids.contains(x)) by {
                    if ids.contains(x) {
                        let k = choose|k: int| 0 <= k < ids.len() && ids[k] == x;
                    }
                }
            }
        }
        match t2[i].data {
            DataView::Element { template_contents: Some(c), .. } => {
                assert(t2[c as int].data == t[c as int].data);
            },
            _ => {},
        }
    }
    assert(t2[0].data == t[0].data);
}

pub proof fn lemma_insert_wf(t: Seq<NodeView>, p: int, index: int, ids: Seq<NodeId>)
    requires
        tree_wf(t),
        valid(t, p),
        0 <= index <= t[p].children.len(),
        ids.no_duplicates(),
        forall|k: int| #![trigger ids[k]] 0 <= k < ids.len() ==> valid(t, ids[k] as int) && t[ids[k] as int].parent is None
            && !(t[ids[k] as int].data is Document) && !reaches(t, p, ids[k] as int),
    ensures
        tree_wf(insert_spec(t, p, index, ids)),
{
    let t2 = insert_spec(t, p, index, ids);
    lemma_insert_links(t, p, index, ids);
    assert(links_ok(t));
    assert forall|i: int| #![trigger t[i]] valid(t, i) implies parent_valid(t, i) by {
        assert(parent_ok(t, i));
    }
    assert forall|k: int| 0 <= k < ids.len() implies valid(t, #[trigger] ids[k] as int) && t[ids[k] as int].parent is None by {
        assert(valid(t, ids[k] as int));
    }
    assert forall|k: int| 0 <= k < ids.len() implies !reaches(t, p, #[trigger] ids[k] as int) by {
        assert(!reaches(t, p, ids[k] as int));
    }
    assert forall|i: int| #![trigger t2[i]] valid(t, i) implies if ids.contains(i as NodeId) {
        t2[i].parent == Some(p as NodeId)
    } else {
        t2[i].parent == t[i].parent
    } by {}
    lemma_attach_acyclic(t, t2, p, ids);
}

/// The first position of `x` in `v`, if any.
pub fn position(v: &Vec<NodeId>, x: NodeId) -> (r: Option<usize>)
    ensures
        match r {
            Some(i) => i < v@.len() && v@[i as int] == x && forall|j: int| 0 <= j < i ==> v@[j] != x,
            None => !v@.contains(x),
        },
{
    let n = v.len();
    let mut i: usize = 0;
    while i < n
        invariant
            n == v@.len(),
            i <= n,
            forall|j: int| 0 <= j < i ==> v@[j] != x,
        decreases n - i,
    {
        if v[i] == x {
            return Some(i);
        }
        i = i + 1;
    }
    None
}

impl Dom {
    /// Detaches `id` from its parent (no-op when already detached).
    pub fn detach(&mut self, id: NodeId)
        requires
            links_wf(old(self)@),
            id < old(self)@.len(),
        ensures
            final(self)@ == detach_spec(old(self)@, id as int),
            links_wf(final(self)@),
            tree_wf(old(self)@) ==> tree_wf(final(self)@),
            old(self).wf() ==> final(self).wf(),
            final(self).quirks_mode == old(self).quirks_mode,
    {
        proof {
            lemma_detach_wf(self@, id as int);
            if old(self).wf() {
                let t2 = detach_spec(self@, id as int);
                assert forall|i: int| #![trigger t2[i]] valid(self@, i) implies template_of(t2, i) == template_of(self@, i) by {}
                lemma_down_ranked_fewer_links(self@, t2, some_height(self@));
            }
        }
        let par = self.nodes[id].parent;
        if let Some(p) = par {
            let ghost t = self@;
            proof {
                assert(parent_ok(t, id as int));
                assert(children_ok(t, p as int));
            }
            self.nodes[id].parent = None;
            assert(self.nodes@[p as int].children@ == t[p as int].children);
            let k = position(&self.nodes[p].children, id);
            assert(t[p as int].children.contains(id));
            let k = k.unwrap();
            proof { lemma_pos_unique(t[p as int].children, id, k as int); }
            self.nodes[p].children.remove(k);
            assert(self@ =~= detach_spec(t, id as int));
        }
    }

    /// Whether `maybe_ancestor` is `node` or one of its ancestors.
    pub fn is_ancestor(&self, maybe_ancestor: NodeId, node: NodeId) -> (r: bool)
        requires
            tree_wf(self@),
            maybe_ancestor < self@.len(),
            node < self@.len(),
        ensures
            r == reaches(self@, node as int, maybe_ancestor as int),
    {
        let ghost t = self@;
        let ghost rk = choose|r: spec_fn(int) -> nat| ranked(t, r);
        let mut cur = node;
        loop
            invariant
                tree_wf(t),
                t == self@,
                ranked(t, rk),
                cur < t.len(),
                maybe_ancestor < t.len(),
                reaches(t, node as int, maybe_ancestor as int) == reaches(t, cur as int, maybe_ancestor as int),
            decreases rk(cur as int),
        {
            if cur == maybe_ancestor {
                proof { lemma_reaches_refl(t, cur as int); }
                return true;
            }
            proof { assert(parent_ok(t, cur as int)); }
            match self.nodes[cur].parent {
                Some(p) => {
                    proof { lemma_reaches_step(t, cur as int, maybe_ancestor as int); }
                    cur = p;
                },
                None => {
                    proof { lemma_reaches_root(t, cur as int, maybe_ancestor as int); }
                    return false;
                },
            }
        }
    }
}

impl Dom {
    /// Detaches every child of `id`, leaving it childless; returns the
    /// children it had.
    pub(crate) fn take_children(&mut self, id: NodeId) -> (r: Vec<NodeId>)
        requires
            links_wf(old(self)@),
            id < old(self)@.len(),
        ensures
            final(self)@ == take_children_spec(old(self)@, id as int),
            r@ == old(self)@[id as int].children,
            links_wf(final(self)@),
            tree_wf(old(self)@) ==> tree_wf(final(self)@),
            old(self).wf() ==> final(self).wf(),
            final(self).quirks_mode == old(self).quirks_mode,
    {
        let ghost t = self@;
        proof {
            lemma_take_children_wf(t, id as int);
            assert(children_ok(t, id as int));
            let t2 = take_children_spec(t, id as int);
            assert forall|i: int| #![trigger t2[i]] valid(t, i) && t2[i].parent is Some implies t2[i].parent == t[i].parent by {}
            assert forall|i: int| #![trigger t2[i]] valid(t, i) implies template_of(t2, i) == template_of(t, i) by {}
            if old(self).wf() {
                lemma_down_ranked_fewer_links(t, t2, some_height(t));
            }
        }
        let mut kids: Vec<NodeId> = Vec::new();
        std::mem::swap(&mut kids, &mut self.nodes[id].children);
        let n = kids.len();
        for k in 0..n
            invariant
                n == kids@.len(),
                bounded(t),
                id < t.len(),
                kids@ == t[id as int].children,
                children_ok(t, id as int),
                self@.len() == t.len(),
                forall|i: int|
                    #![trigger self@[i]]
                    0 <= i < t.len() ==> self@[i] == (NodeView {
                        parent: if kids@.subrange(0, k as int).contains(i as NodeId) {
                            None
                        } else {
                            t[i].parent
                        },
                        children: if i == id as int {
                            Seq::empty()
                        } else {
                            t[i].children
                        },
                        data: t[i].data,
                    }),
                self.quirks_mode == old(self).quirks_mode,
        {
            let c = kids[k];
            assert(kids@[k as int] == c);
            assert(t[c as int].parent == Some(id));
            let ghost before = self@;
            self.nodes[c].parent = None;
            assert(self@ == before.update(c as int, NodeView { parent: None, ..before[c as int] }));
            let ghost pre0 = kids@.subrange(0, k as int);
            let ghost pre1 = kids@.subrange(0, k + 1);
            assert forall|i: int| #![trigger self@[i]] 0 <= i < t.len() implies self@[i] == (NodeView {
                parent: if pre1.contains(i as NodeId) {
                    None
                } else {
                    t[i].parent
                },
                children: if i == id as int {
                    Seq::empty()
                } else {
                    t[i].children
                },
                data: t[i].data,
            }) by {
                if pre1.contains(i as NodeId) && i != c as int {
                    let j = choose|j: int| 0 <= j < pre1.len() && pre1[j] == i as NodeId;
                    assert(pre0[j] == i as NodeId);
                }
                if pre0.contains(i as NodeId) {
                    let j = choose|j: int| 0 <= j < pre0.len() && pre0[j] == i as NodeId;
                    assert(pre1[j] == i as NodeId);
                }
                if i == c as int {
                    assert(pre1[k as int] == c);
                }
            }
        }
        assert(kids@.subrange(0, n as int) == kids@);
        assert(self@ =~= take_children_spec(t, id as int));
        kids
    }

    /// Detaches every child of `id`.
    pub fn clear_children(&mut self, id: NodeId)
        requires
            links_wf(old(self)@),
            id < old(self)@.len(),
        ensures
            final(self)@ == take_children_spec(old(self)@, id as int),
            links_wf(final(self)@),
            tree_wf(old(self)@) ==> tree_wf(final(self)@),
            old(self).wf() ==> final(self).wf(),
            final(self).quirks_mode == old(self).quirks_mode,
    {
        let _ = self.take_children(id);
    }

    /// The ids an insertion of `child` will actually splice in: a document
    /// node gives up its children (left empty); anything else is detached and
    /// inserts itself.
    fn splice_ids(&mut self, child: NodeId) -> (r: Vec<NodeId>)
        requires
            old(self).wf(),
            child < old(self)@.len(),
        ensures
            final(self)@ == splice_spec(old(self)@, child as int),
            r@ == splice_ids_spec(old(self)@, child as int),
            final(self).wf(),
            final(self).quirks_mode == old(self).quirks_mode,
    {
        if let NodeData::Document = self.nodes[child].data {
            self.take_children(child)
        } else {
            self.detach(child);
            let r = vec![child];
            assert(r@ =~= seq![child]);
            r
        }
    }

    /// Inserts the nodes `ids`, in order, into `parent`'s child list at `index`,
    /// and makes `parent` their parent.
    pub(crate) fn insert_ids(&mut self, parent: NodeId, index: usize, ids: &Vec<NodeId>)
        requires
            links_wf(old(self)@),
            parent < old(self)@.len(),
            index <= old(self)@[parent as int].children.len(),
            forall|k: int| 0 <= k < ids@.len() ==> #[trigger] ids@[k] < old(self)@.len(),
            ids@.no_duplicates(),
        ensures
            final(self)@ == insert_spec(old(self)@, parent as int, index as int, ids@),
            final(self).quirks_mode == old(self).quirks_mode,
    {
        let ghost t = self@;
        let n = ids.len();
        proof {
            let kids = t[parent as int].children;
            assert(kids.subrange(0, index as int) + ids@.subrange(0, 0) + kids.subrange(index as int, kids.len() as int) =~= kids);
            assert(insert_spec(t, parent as int, index as int, ids@.subrange(0, 0)) =~= t);
        }
        for k in 0..n
            invariant
                n == ids@.len(),
                bounded(t),
                self@.len() == self.nodes@.len(),
                parent < t.len(),
                index <= t[parent as int].children.len(),
                forall|j: int| 0 <= j < ids@.len() ==> #[trigger] ids@[j] < t.len(),
                ids@.no_duplicates(),
                self@ == insert_spec(t, parent as int, index as int, ids@.subrange(0, k as int)),
                self.quirks_mode == old(self).quirks_mode,
        {
            let id = ids[k];
            let ghost before = self@;
            let ghost done = ids@.subrange(0, k as int);
            let ghost next = ids@.subrange(0, k + 1);
            assert(before[parent as int].children.len() == t[parent as int].children.len() + k);
            assert(self.nodes@[parent as int].children@.len() == t[parent as int].children.len() + k);
            let cur_len = self.nodes[parent].children.len();
            assert(index + k <= cur_len);
            self.nodes[parent].children.insert(index + k, id);
            let ghost mid = self@;
            assert(mid == before.update(parent as int, NodeView {
                children: before[parent as int].children.insert(index + k, id),
                ..before[parent as int]
            }));
            self.nodes[id].parent = Some(parent);
            assert(self@ == mid.update(id as int, NodeView { parent: Some(parent), ..mid[id as int] }));
            let ghost kids = t[parent as int].children;
            assert(kids.subrange(0, index as int) + done + kids.subrange(index as int, kids.len() as int)
                == before[parent as int].children);
            assert((kids.subrange(0, index as int) + done + kids.subrange(index as int, kids.len() as int)).insert(index + k, id)
                =~= kids.subrange(0, index as int) + next + kids.subrange(index as int, kids.len() as int));
            assert forall|i: int| 0 <= i < t.len() implies (#[trigger] next.contains(i as NodeId)) == (done.contains(i as NodeId) || i == id as int) by {
                if next.contains(i as NodeId) {
                    let j = choose|j: int| 0 <= j < next.len() && next[j] == i as NodeId;
                    if j < k {
                        assert(done[j] == i as NodeId);
                    }
                }
                if done.contains(i as NodeId) {
                    let j = choose|j: int| 0 <= j < done.len() && done[j] == i as NodeId;
                    assert(next[j] == i as NodeId);
                }
                if i == id as int {
                    assert(next[k as int] == id);
                }
            }
            assert forall|i: int| 0 <= i < t.len() implies #[trigger] self@[i] == insert_spec(t, parent as int, index as int, next)[i] by {
                assert(next.contains(i as NodeId) == (done.contains(i as NodeId) || i == id as int));
            }
            assert(self@ =~= insert_spec(t, parent as int, index as int, next));
        }
        assert(ids@.subrange(0, n as int) == ids@);
    }

    /// Inserts `child` into `parent` before `reference` (`None` appends). A
    /// document node splices its children instead (and is left empty). An
    /// insertion that would put a node inside itself (`child`, or one of a
    /// document's children, is `parent` or holds it below, through template
    /// contents too) is refused with `WouldCycle`, and a `reference` that is
    /// not a child of `parent` with `NotAChild`; a refused insertion changes
    /// nothing. Inserting a node before itself leaves it in place. The arena
    /// stays well formed whatever the outcome.
    pub fn insert_before(&mut self, parent: NodeId, child: NodeId, reference: Option<NodeId>) -> (r:
        Result<(), DomError>)
        requires
            old(self).wf(),
            parent < old(self)@.len(),
            child < old(self)@.len(),
        ensures
            (final(self)@, r) == insert_before_spec(old(self)@, parent as int, child as int, reference),
            final(self).wf(),
            final(self).quirks_mode == old(self).quirks_mode,
    {
        let ghost t = self@;
        let is_doc = match self.nodes[child].data {
            NodeData::Document => true,
            _ => false,
        };
        if !self.can_insert(parent, child) {
            return Err(DomError::WouldCycle);
        }
        proof {
            assert(links_ok(t));
            assert(children_ok(t, child as int));
            assert(children_ok(t, parent as int));
        }
        if let Some(rf) = reference {
            if position(&self.nodes[parent].children, rf).is_none() {
                return Err(DomError::NotAChild);
            }
            // `rf` is a child of `parent`; it is among what the insertion
            // splices in when it is `child` itself, or when a document is
            // inserted into itself.
            let moved = if is_doc { parent == child } else { rf == child };
            proof {
                lemma_spliced_reference(t, parent as int, child as int, rf);
            }
            if moved {
                return Ok(());
            }
        }
        let ids = self.splice_ids(child);
        let ghost s = self@;
        proof {
            assert forall|k: int| 0 <= k < ids@.len() implies #[trigger] ids@[k] < s.len() by {
                if is_doc {
                    assert(valid(t, t[child as int].children[k] as int));
                }
            }
            if !is_doc {
                assert(ids@.no_duplicates());
            }
        }
        let index = match reference {
            None => self.nodes[parent].children.len(),
            Some(rf) => {
                proof {
                    lemma_spliced_reference(t, parent as int, child as int, rf);
                    lemma_reference_stays(t, parent as int, child as int, rf);
                }
                let i = position(&self.nodes[parent].children, rf).unwrap();
                proof {
                    assert(links_ok(s));
                    assert(children_ok(s, parent as int));
                    lemma_pos_unique(s[parent as int].children, rf, i as int);
                }
                i
            },
        };
        self.insert_ids(parent, index, &ids);
        proof {
            assert forall|k: int| #![trigger ids@[k]] 0 <= k < ids@.len() implies valid(s, ids@[k] as int)
                && s[ids@[k] as int].parent is None && !(s[ids@[k] as int].data is Document)
                && !sreaches(s, parent as int, ids@[k] as int) by {
                let x = ids@[k] as int;
                if is_doc {
                    assert(t[child as int].children[k] == ids@[k]);
                    assert(t[x].parent == Some(child));
                    assert(parent_ok(t, x));
                    assert(s[x].data == t[x].data);
                } else {
                    assert(x == child as int);
                }
                assert forall|i: int| #![trigger s[i]] valid(t, i) && s[i].parent is Some implies s[i].parent == t[i].parent by {}
                assert forall|i: int| #![trigger s[i]] valid(t, i) implies template_of(s, i) == template_of(t, i) by {}
                assert(!sreaches(t, parent as int, splice_ids_spec(t, child as int)[k] as int));
                if sreaches(s, parent as int, x) {
                    lemma_sreaches_fewer_links(t, s, parent as int, x);
                }
            }
            lemma_insert_dom_wf(s, parent as int, index as int, ids@);
        }
        Ok(())
    }

    /// Appends `child` as `parent`'s last child. A document node splices its
    /// children instead (and is left empty).
    pub fn append_child(&mut self, parent: NodeId, child: NodeId) -> (r: Result<(), DomError>)
        requires
            old(self).wf(),
            parent < old(self)@.len(),
            child < old(self)@.len(),
        ensures
            (final(self)@, r) == insert_before_spec(old(self)@, parent as int, child as int, None),
            final(self).wf(),
            final(self).quirks_mode == old(self).quirks_mode,
    {
        self.insert_before(parent, child, None)
    }

    /// Replaces `old_child` (a child of `parent`) with `new`; `old_child` is
    /// detached. Replacing a node with itself does nothing; a refused
    /// replacement (`WouldCycle`, or `NotAChild` where `old_child` is not a
    /// child of `parent`) changes nothing.
    pub fn replace_child(&mut self, parent: NodeId, new: NodeId, old_child: NodeId) -> (r: Result<(), DomError>)
        requires
            old(self).wf(),
            parent < old(self)@.len(),
            new < old(self)@.len(),
        ensures
            (final(self)@, r) == replace_child_spec(old(self)@, parent as int, new as int, old_child),
            final(self).wf(),
            final(self).quirks_mode == old(self).quirks_mode,
    {
        if new == old_child {
            return Ok(());
        }
        let ghost t = self@;
        let r = self.insert_before(parent, new, Some(old_child));
        if r.is_err() {
            return r;
        }
        proof {
            // `old_child` is a child of `parent`, so a node of the arena.
            assert(t[parent as int].children.contains(old_child));
            assert(links_ok(t));
            assert(children_ok(t, parent as int));
            let j = choose|j: int| 0 <= j < t[parent as int].children.len() && t[parent as int].children[j] == old_child;
            assert(valid(t, old_child as int));
        }
        self.detach(old_child);
        Ok(())
    }
}

} // verus!
