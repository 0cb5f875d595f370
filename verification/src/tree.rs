//! The shape of a well-formed arena: parent and child links agree, documents
//! never have a parent, and following parent links always ends.

use vstd::prelude::*;

use crate::dom::{DataView, NodeId, NodeView};

verus! {

pub open spec fn valid(t: Seq<NodeView>, i: int) -> bool {
    0 <= i < t.len()
}

/// Every index of the arena fits in a `NodeId`.
pub open spec fn bounded(t: Seq<NodeView>) -> bool {
    t.len() <= usize::MAX
}

/// A parent link of node `i` points at a node that lists `i` among its
/// children, and only non-document nodes have parents.
pub open spec fn parent_ok(t: Seq<NodeView>, i: int) -> bool {
    match t[i].parent {
        Some(p) => valid(t, p as int) && t[p as int].children.contains(i as NodeId)
            && !(t[i].data is Document),
        None => true,
    }
}

/// Every child of node `i` is a node whose parent is `i`, and none is listed twice.
pub open spec fn children_ok(t: Seq<NodeView>, i: int) -> bool {
    &&& t[i].children.no_duplicates()
    &&& forall|j: int|
        #![trigger t[i].children[j]]
        0 <= j < t[i].children.len() ==> valid(t, t[i].children[j] as int) && t[t[i].children[j] as int].parent
            == Some(i as NodeId)
}

/// An element's template contents, if any, is a document node of the arena.
pub open spec fn template_ok(t: Seq<NodeView>, i: int) -> bool {
    match t[i].data {
        DataView::Element { template_contents: Some(c), .. } => valid(t, c as int) && t[c as int].data is Document,
        _ => true,
    }
}

pub open spec fn links_ok(t: Seq<NodeView>) -> bool {
    forall|i: int|
        #![trigger t[i]]
        valid(t, i) ==> parent_ok(t, i) && children_ok(t, i) && template_ok(t, i)
}

/// `r` ranks the nodes so that every parent ranks below its children.
pub open spec fn ranked(t: Seq<NodeView>, r: spec_fn(int) -> nat) -> bool {
    forall|i: int|
        #![trigger t[i]]
        valid(t, i) && t[i].parent is Some ==> r(t[i].parent->0 as int) < r(i)
}

/// Following parent links from any node ends.
pub open spec fn acyclic(t: Seq<NodeView>) -> bool {
    exists|r: spec_fn(int) -> nat| ranked(t, r)
}

/// The parent of node `i`, if any, is a node of the arena.
pub open spec fn parent_valid(t: Seq<NodeView>, i: int) -> bool {
    t[i].parent is Some ==> valid(t, t[i].parent->0 as int)
}

/// Parent and child links agree, and node 0 is a document.
pub open spec fn links_wf(t: Seq<NodeView>) -> bool {
    &&& t.len() > 0
    &&& bounded(t)
    &&& t[0].data is Document
    &&& links_ok(t)
}

/// The arena is a forest: its links agree and have no cycle.
pub open spec fn tree_wf(t: Seq<NodeView>) -> bool {
    &&& links_wf(t)
    &&& acyclic(t)
}

/// `h` ranks nodes so that children, and template contents, rank below the
/// node that holds them.
pub open spec fn down_ranked(t: Seq<NodeView>, h: spec_fn(int) -> nat) -> bool {
    forall|i: int|
        #![trigger t[i]]
        valid(t, i) ==> (t[i].parent is Some ==> h(i) < h(t[i].parent->0 as int)) && match t[i].data {
            DataView::Element { template_contents: Some(c), .. } => h(c as int) < h(i),
            _ => true,
        }
}

/// Walking down children and template contents always ends: no node holds
/// itself, not even through a template's contents.
pub open spec fn serial_ok(t: Seq<NodeView>) -> bool {
    exists|h: spec_fn(int) -> nat| down_ranked(t, h)
}

/// A ranking that witnesses `serial_ok`.
pub open spec fn some_height(t: Seq<NodeView>) -> spec_fn(int) -> nat {
    choose|h: spec_fn(int) -> nat| down_ranked(t, h)
}

/// The template contents of the element `y`, if it is a template.
pub open spec fn template_of(t: Seq<NodeView>, y: int) -> Option<NodeId> {
    match t[y].data {
        DataView::Element { template_contents, .. } => template_contents,
        _ => None,
    }
}

/// One step up a document-order walk: from a node to its parent, or from a
/// template's contents to the template element.
pub open spec fn up_step(t: Seq<NodeView>, x: int, y: int) -> bool {
    t[x].parent == Some(y as NodeId) || template_of(t, y) == Some(x as NodeId)
}

/// `path` goes up a document-order walk, step by step.
pub open spec fn is_serial_path(t: Seq<NodeView>, path: Seq<NodeId>) -> bool {
    &&& path.len() > 0
    &&& forall|k: int| 0 <= k < path.len() ==> valid(t, #[trigger] path[k] as int)
    &&& forall|k: int| 0 <= k < path.len() - 1 ==> up_step(t, #[trigger] path[k] as int, path[k + 1] as int)
}

/// `a` is `x`, or holds `x` somewhere below it, counting template contents
/// as held by their template.
pub open spec fn sreaches(t: Seq<NodeView>, x: int, a: int) -> bool {
    exists|path: Seq<NodeId>|
        #![trigger is_serial_path(t, path), path[0]]
        is_serial_path(t, path) && path[0] == x && path.last() == a
}

/// The whole shape invariant of a `Dom`: a forest whose document-order walks
/// (through template contents too) always end.
pub open spec fn dom_wf(t: Seq<NodeView>) -> bool {
    tree_wf(t) && serial_ok(t)
}

/// Appending a detached, childless node keeps the arena well formed.
pub proof fn lemma_push_detached_wf(t: Seq<NodeView>, t2: Seq<NodeView>)
    requires
        links_wf(t),
        t2.len() == t.len() + 1,
        bounded(t2),
        forall|i: int| 0 <= i < t.len() ==> t2[i] == t[i],
        t2.last().parent is None,
        t2.last().children.len() == 0,
        template_ok(t2, t.len() as int),
        match template_of(t2, t.len() as int) {
            Some(c) => c < t.len(),
            None => true,
        },
    ensures
        links_wf(t2),
        tree_wf(t) ==> tree_wf(t2),
        tree_wf(t) && serial_ok(t) ==> serial_ok(t2),
{
    if tree_wf(t) && serial_ok(t) {
        let h = some_height(t);
        let n = t.len() as int;
        let h2 = |x: int| if x == n {
            match template_of(t2, n) {
                Some(c) => h(c as int) + 1,
                None => 0nat,
            }
        } else {
            h(x)
        };
        assert forall|i: int| #![trigger t2[i]] valid(t2, i) implies (t2[i].parent is Some ==> h2(i) < h2(t2[i].parent->0 as int)) && match t2[i].data {
            DataView::Element { template_contents: Some(c), .. } => h2(c as int) < h2(i),
            _ => true,
        } by {
            if i < n {
                assert(t[i] == t2[i]);
                assert(parent_ok(t, i) && template_ok(t, i));
            } else {
                assert(template_ok(t2, n));
            }
        }
        assert(down_ranked(t2, h2));
    }
    if tree_wf(t) {
        let r = choose|r: spec_fn(int) -> nat| ranked(t, r);
        assert(ranked(t2, r)) by {
            assert forall|i: int| #![trigger t2[i]] valid(t2, i) && t2[i].parent is Some implies r(t2[i].parent->0 as int) < r(i) by {
                assert(t[i] == t2[i]);
            }
        }
    }
    assert forall|i: int| #![trigger t2[i]] valid(t2, i) implies parent_ok(t2, i) && children_ok(t2, i) && template_ok(t2, i) by {
        if i < t.len() {
            assert(t[i] == t2[i]);
            assert(parent_ok(t, i) && children_ok(t, i) && template_ok(t, i));
            assert forall|j: int| #![trigger t2[i].children[j]] 0 <= j < t2[i].children.len() implies valid(t2, t2[i].children[j] as int) && t2[t2[i].children[j] as int].parent == Some(i as NodeId) by {
                let c = t[i].children[j] as int;
                assert(t[c] == t2[c]);
            }
            if t2[i].parent is Some {
                let p = t2[i].parent->0 as int;
                assert(t[p] == t2[p]);
            }
            match t2[i].data {
                DataView::Element { template_contents: Some(c), .. } => { assert(t[c as int] == t2[c as int]); },
                _ => {},
            }
        }
    }
    assert(t2[0] == t[0]);
}

/// `path` follows parent links: each node's parent is the next one.
pub open spec fn is_up_path(t: Seq<NodeView>, path: Seq<NodeId>) -> bool {
    &&& path.len() > 0
    &&& forall|k: int| 0 <= k < path.len() ==> valid(t, #[trigger] path[k] as int)
    &&& forall|k: int|
        0 <= k < path.len() - 1 ==> (#[trigger] t[path[k] as int]).parent == Some(path[k + 1])
}

/// `a` is `x` or an ancestor of `x`.
pub open spec fn reaches(t: Seq<NodeView>, x: int, a: int) -> bool {
    exists|path: Seq<NodeId>|
        #![trigger is_up_path(t, path), path[0]]
        is_up_path(t, path) && path[0] == x && path.last() == a
}

pub proof fn lemma_reaches_refl(t: Seq<NodeView>, x: int)
    requires
        bounded(t),
        valid(t, x),
    ensures
        reaches(t, x, x),
{
    let path = seq![x as NodeId];
    assert(is_up_path(t, path));
    assert(path[0] == x);
}

/// Stepping from a node to its parent keeps the set of nodes that can still be
/// reached, but for the node itself.
pub proof fn lemma_reaches_step(t: Seq<NodeView>, x: int, a: int)
    requires
        bounded(t),
        valid(t, x),
        t[x].parent is Some,
        valid(t, t[x].parent->0 as int),
        x != a,
    ensures
        reaches(t, x, a) <==> reaches(t, t[x].parent->0 as int, a),
{
    let y = t[x].parent->0;
    if reaches(t, x, a) {
        let path = choose|path: Seq<NodeId>| is_up_path(t, path) && path[0] == x && path.last() == a;
        assert(path.len() > 1);
        assert(t[path[0] as int].parent == Some(path[1]));
        let rest = path.drop_first();
        assert(is_up_path(t, rest)) by {
            assert forall|k: int| 0 <= k < rest.len() - 1 implies (#[trigger] t[rest[k] as int]).parent == Some(rest[k + 1]) by {
                assert(t[path[k + 1] as int].parent == Some(path[k + 2]));
            }
            assert forall|k: int| 0 <= k < rest.len() implies valid(t, #[trigger] rest[k] as int) by {
                assert(valid(t, path[k + 1] as int));
            }
        }
        assert(rest[0] == y);
    }
    if reaches(t, y as int, a) {
        let path = choose|path: Seq<NodeId>| is_up_path(t, path) && path[0] == y && path.last() == a;
        let longer = seq![x as NodeId] + path;
        assert(is_up_path(t, longer)) by {
            assert forall|k: int| 0 <= k < longer.len() - 1 implies (#[trigger] t[longer[k] as int]).parent == Some(longer[k + 1]) by {
                if k > 0 {
                    assert(longer[k] == path[k - 1]);
                    assert(t[path[k - 1] as int].parent == Some(path[k]));
                }
            }
            assert forall|k: int| 0 <= k < longer.len() implies valid(t, #[trigger] longer[k] as int) by {
                if k > 0 {
                    assert(longer[k] == path[k - 1]);
                    assert(valid(t, path[k - 1] as int));
                }
            }
        }
        assert(longer[0] == x);
        assert(longer.last() == a);
    }
}

/// A node without a parent reaches only itself.
pub proof fn lemma_reaches_root(t: Seq<NodeView>, x: int, a: int)
    requires
        valid(t, x),
        t[x].parent is None,
        x != a,
    ensures
        !reaches(t, x, a),
{
    if reaches(t, x, a) {
        let path = choose|path: Seq<NodeId>| is_up_path(t, path) && path[0] == x && path.last() == a;
        assert(path.len() > 1);
        assert(t[path[0] as int].parent == Some(path[1]));
    }
}

/// Along a path, ranks go down.
pub proof fn lemma_path_rank(t: Seq<NodeView>, r: spec_fn(int) -> nat, path: Seq<NodeId>)
    requires
        ranked(t, r),
        is_up_path(t, path),
    ensures
        r(path.last() as int) <= r(path[0] as int),
        path.len() > 1 ==> r(path.last() as int) < r(path[0] as int),
    decreases path.len(),
{
    if path.len() > 1 {
        let rest = path.drop_first();
        assert(is_up_path(t, rest)) by {
            assert forall|k: int| 0 <= k < rest.len() - 1 implies (#[trigger] t[rest[k] as int]).parent == Some(rest[k + 1]) by {
                assert(t[path[k + 1] as int].parent == Some(path[k + 2]));
            }
            assert forall|k: int| 0 <= k < rest.len() implies valid(t, #[trigger] rest[k] as int) by {
                assert(valid(t, path[k + 1] as int));
            }
        }
        lemma_path_rank(t, r, rest);
        assert(t[path[0] as int].parent == Some(path[1]));
        assert(valid(t, path[0] as int));
    }
}

/// A node that reaches another ranks at least as high.
pub proof fn lemma_reaches_rank(t: Seq<NodeView>, r: spec_fn(int) -> nat, x: int, a: int)
    requires
        ranked(t, r),
        reaches(t, x, a),
    ensures
        r(a) <= r(x),
        x != a ==> r(a) < r(x),
{
    let path = choose|path: Seq<NodeId>| is_up_path(t, path) && path[0] == x && path.last() == a;
    lemma_path_rank(t, r, path);
}

/// Dropping parent links (and keeping the others) can only shrink what
/// reaches what.
pub proof fn lemma_reaches_fewer_links(t: Seq<NodeView>, t2: Seq<NodeView>, x: int, a: int)
    requires
        t2.len() == t.len(),
        forall|i: int| #![trigger t2[i]] valid(t, i) && t2[i].parent is Some ==> t2[i].parent == t[i].parent,
        reaches(t2, x, a),
    ensures
        reaches(t, x, a),
{
    let path = choose|path: Seq<NodeId>| is_up_path(t2, path) && path[0] == x && path.last() == a;
    assert(is_up_path(t, path)) by {
        assert forall|k: int| 0 <= k < path.len() - 1 implies (#[trigger] t[path[k] as int]).parent == Some(path[k + 1]) by {
            assert(t2[path[k] as int].parent == Some(path[k + 1]));
            assert(valid(t2, path[k] as int));
        }
        assert forall|k: int| 0 <= k < path.len() implies valid(t, #[trigger] path[k] as int) by {
            assert(valid(t2, path[k] as int));
        }
    }
}

/// Dropping parent links keeps a ranking.
pub proof fn lemma_ranked_fewer_links(t: Seq<NodeView>, t2: Seq<NodeView>, r: spec_fn(int) -> nat)
    requires
        ranked(t, r),
        t2.len() == t.len(),
        forall|i: int| #![trigger t2[i]] valid(t, i) && t2[i].parent is Some ==> t2[i].parent == t[i].parent,
    ensures
        ranked(t2, r),
{
    assert forall|i: int| #![trigger t2[i]] valid(t2, i) && t2[i].parent is Some implies r(t2[i].parent->0 as int) < r(i) by {
        assert(t[i].parent == t2[i].parent);
    }
}

/// Hanging parentless nodes `ids` under `p`, where `p` is inside none of
/// their subtrees, keeps the parent links acyclic.
pub proof fn lemma_attach_acyclic(t: Seq<NodeView>, t2: Seq<NodeView>, p: int, ids: Seq<NodeId>)
    requires
        bounded(t),
        acyclic(t),
        t2.len() == t.len(),
        valid(t, p),
        forall|i: int| #![trigger t[i]] valid(t, i) ==> parent_valid(t, i),
        forall|k: int| 0 <= k < ids.len() ==> valid(t, #[trigger] ids[k] as int) && t[ids[k] as int].parent is None,
        forall|k: int| 0 <= k < ids.len() ==> !reaches(t, p, #[trigger] ids[k] as int),
        forall|i: int|
            #![trigger t2[i]]
            valid(t, i) ==> if ids.contains(i as NodeId) {
                t2[i].parent == Some(p as NodeId)
            } else {
                t2[i].parent == t[i].parent
            },
    ensures
        acyclic(t2),
{
    let r = choose|r: spec_fn(int) -> nat| ranked(t, r);
    let under = |x: int| exists|k: int| 0 <= k < ids.len() && reaches(t, x, #[trigger] ids[k] as int);
    let r2 = |x: int| (r(x) + if under(x) { r(p) + 1 } else { 0nat }) as nat;
    assert(!under(p));
    assert forall|i: int| #![trigger t2[i]] valid(t2, i) && t2[i].parent is Some implies r2(t2[i].parent->0 as int) < r2(i) by {
        let y = t2[i].parent->0 as int;
        if ids.contains(i as NodeId) {
            let k = choose|k: int| 0 <= k < ids.len() && ids[k] == i as NodeId;
            lemma_reaches_refl(t, i);
            assert(reaches(t, i, ids[k] as int));
            assert(under(i));
        } else {
            assert(t[i].parent == t2[i].parent);
            if under(i) {
                let k = choose|k: int| 0 <= k < ids.len() && reaches(t, i, #[trigger] ids[k] as int);
                assert(i != ids[k] as int);
                lemma_reaches_step(t, i, ids[k] as int);
                assert(under(y));
            }
            if under(y) {
                let k = choose|k: int| 0 <= k < ids.len() && reaches(t, y, #[trigger] ids[k] as int);
                if i == ids[k] as int {
                    assert(ids.contains(i as NodeId));
                }
                lemma_reaches_step(t, i, ids[k] as int);
                assert(under(i));
            }
        }
    }
    assert(ranked(t2, r2));
}

/// Dropping parent links, and keeping templates, keeps a height ranking.
pub proof fn lemma_down_ranked_fewer_links(t: Seq<NodeView>, t2: Seq<NodeView>, h: spec_fn(int) -> nat)
    requires
        down_ranked(t, h),
        t2.len() == t.len(),
        forall|i: int| #![trigger t2[i]] valid(t, i) && t2[i].parent is Some ==> t2[i].parent == t[i].parent,
        forall|i: int| #![trigger t2[i]] valid(t, i) ==> template_of(t2, i) == template_of(t, i),
    ensures
        down_ranked(t2, h),
{
    assert forall|i: int| #![trigger t2[i]] valid(t2, i) implies (t2[i].parent is Some ==> h(i) < h(t2[i].parent->0 as int)) && match t2[i].data {
        DataView::Element { template_contents: Some(c), .. } => h(c as int) < h(i),
        _ => true,
    } by {
        assert(valid(t, i));
        assert(template_of(t2, i) == template_of(t, i));
    }
}

pub proof fn lemma_sreaches_refl(t: Seq<NodeView>, x: int)
    requires
        bounded(t),
        valid(t, x),
    ensures
        sreaches(t, x, x),
{
    let path = seq![x as NodeId];
    assert(is_serial_path(t, path));
    assert(path[0] == x);
}

/// Going one more step up keeps what a node reaches upward.
pub proof fn lemma_sreaches_extend(t: Seq<NodeView>, x: int, a: int, b: int)
    requires
        bounded(t),
        sreaches(t, x, a),
        valid(t, b),
        up_step(t, a, b),
    ensures
        sreaches(t, x, b),
{
    let path = choose|path: Seq<NodeId>| is_serial_path(t, path) && path[0] == x && path.last() == a;
    let longer = path.push(b as NodeId);
    assert(is_serial_path(t, longer)) by {
        assert forall|k: int| 0 <= k < longer.len() - 1 implies up_step(t, #[trigger] longer[k] as int, longer[k + 1] as int) by {
            if k < path.len() - 1 {
                assert(up_step(t, path[k] as int, path[k + 1] as int));
            }
        }
        assert forall|k: int| 0 <= k < longer.len() implies valid(t, #[trigger] longer[k] as int) by {
            if k < path.len() {
                assert(valid(t, path[k] as int));
            }
        }
    }
    assert(longer[0] == x);
}

/// A parent path is a document-order path too.
pub proof fn lemma_reaches_sreaches(t: Seq<NodeView>, x: int, a: int)
    requires
        reaches(t, x, a),
    ensures
        sreaches(t, x, a),
{
    let path = choose|path: Seq<NodeId>| is_up_path(t, path) && path[0] == x && path.last() == a;
    assert(is_serial_path(t, path)) by {
        assert forall|k: int| 0 <= k < path.len() - 1 implies up_step(t, #[trigger] path[k] as int, path[k + 1] as int) by {
            assert(t[path[k] as int].parent == Some(path[k + 1]));
        }
    }
}

/// The largest height among `ids`, plus one.
pub open spec fn height_bound(h: spec_fn(int) -> nat, ids: Seq<NodeId>) -> nat
    decreases ids.len(),
{
    if ids.len() == 0 {
        1
    } else {
        let rest = height_bound(h, ids.drop_last());
        let last = h(ids.last() as int) + 1;
        if rest < last {
            last
        } else {
            rest
        }
    }
}

pub proof fn lemma_height_bound(h: spec_fn(int) -> nat, ids: Seq<NodeId>)
    ensures
        forall|k: int| 0 <= k < ids.len() ==> h(#[trigger] ids[k] as int) < height_bound(h, ids),
        height_bound(h, ids) >= 1,
    decreases ids.len(),
{
    if ids.len() > 0 {
        lemma_height_bound(h, ids.drop_last());
        assert forall|k: int| 0 <= k < ids.len() implies h(#[trigger] ids[k] as int) < height_bound(h, ids) by {
            if k < ids.len() - 1 {
                assert(ids[k] == ids.drop_last()[k]);
            }
        }
    }
}

/// Hanging nodes `ids` under `p`, where none of them is `p` or holds `p`
/// (through children or template contents), keeps document-order walks
/// finite.
pub proof fn lemma_attach_serial(t: Seq<NodeView>, t2: Seq<NodeView>, p: int, ids: Seq<NodeId>)
    requires
        serial_ok(t),
        bounded(t),
        t2.len() == t.len(),
        valid(t, p),
        forall|k: int| 0 <= k < ids.len() ==> valid(t, #[trigger] ids[k] as int),
        forall|k: int| 0 <= k < ids.len() ==> !sreaches(t, p, #[trigger] ids[k] as int),
        forall|i: int| #![trigger t[i]] valid(t, i) ==> parent_valid(t, i) && match template_of(t, i) {
            Some(c) => valid(t, c as int),
            None => true,
        },
        forall|i: int|
            #![trigger t2[i]]
            valid(t, i) ==> t2[i].data == t[i].data && if ids.contains(i as NodeId) {
                t2[i].parent == Some(p as NodeId)
            } else {
                t2[i].parent == t[i].parent
            },
    ensures
        serial_ok(t2),
{
    let h = some_height(t);
    let k0 = height_bound(h, ids);
    lemma_height_bound(h, ids);
    let h2 = |x: int| (h(x) + if sreaches(t, p, x) { k0 } else { 0nat }) as nat;
    lemma_sreaches_refl(t, p);
    assert forall|i: int| #![trigger t2[i]] valid(t2, i) implies (t2[i].parent is Some ==> h2(i) < h2(t2[i].parent->0 as int)) && match t2[i].data {
        DataView::Element { template_contents: Some(c), .. } => h2(c as int) < h2(i),
        _ => true,
    } by {
        assert(valid(t, i));
        assert(t2[i].data == t[i].data);
        if let Some(y) = t2[i].parent {
            if ids.contains(i as NodeId) {
                let k = choose|k: int| 0 <= k < ids.len() && ids[k] == i as NodeId;
                assert(!sreaches(t, p, ids[k] as int));
                assert(h(ids[k] as int) < k0);
            } else {
                assert(t[i].parent == Some(y));
                assert(parent_valid(t, i));
                if sreaches(t, p, i) {
                    assert(up_step(t, i, y as int));
                    lemma_sreaches_extend(t, p, i, y as int);
                }
            }
        }
        match t2[i].data {
            DataView::Element { template_contents: Some(c), .. } => {
                assert(template_of(t, i) == Some(c));
                if sreaches(t, p, c as int) {
                    assert(up_step(t, c as int, i));
                    lemma_sreaches_extend(t, p, c as int, i);
                }
            },
            _ => {},
        }
    }
    assert(down_ranked(t2, h2));
}

/// Dropping parent links, and keeping templates, can only shrink what reaches
/// what along document-order paths.
pub proof fn lemma_sreaches_fewer_links(t: Seq<NodeView>, t2: Seq<NodeView>, x: int, a: int)
    requires
        t2.len() == t.len(),
        forall|i: int| #![trigger t2[i]] valid(t, i) && t2[i].parent is Some ==> t2[i].parent == t[i].parent,
        forall|i: int| #![trigger t2[i]] valid(t, i) ==> template_of(t2, i) == template_of(t, i),
        sreaches(t2, x, a),
    ensures
        sreaches(t, x, a),
{
    let path = choose|path: Seq<NodeId>| is_serial_path(t2, path) && path[0] == x && path.last() == a;
    assert(is_serial_path(t, path)) by {
        assert forall|k: int| 0 <= k < path.len() - 1 implies up_step(t, #[trigger] path[k] as int, path[k + 1] as int) by {
            assert(up_step(t2, path[k] as int, path[k + 1] as int));
            assert(valid(t2, path[k] as int));
            assert(valid(t2, path[k + 1] as int));
            assert(template_of(t2, path[k + 1] as int) == template_of(t, path[k + 1] as int));
        }
        assert forall|k: int| 0 <= k < path.len() implies valid(t, #[trigger] path[k] as int) by {
            assert(valid(t2, path[k] as int));
        }
    }
}

} // verus!
