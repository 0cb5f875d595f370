//! Which insertions keep an arena well formed: none of what an insertion
//! splices in (the node, or a document's children) may be the new parent or
//! hold it below, through children or template contents, or the tree would be
//! linked into a loop. `insert_before` refuses the others with `WouldCycle`.

use vstd::prelude::*;

use crate::dom::{DataView, Dom, NodeData, NodeId, NodeView};
use crate::edit::{insert_keeps_wf, splice_ids_spec};
use crate::tree::{
    children_ok, down_ranked, is_serial_path, lemma_sreaches_extend, lemma_sreaches_refl, links_ok, parent_ok,
    some_height, sreaches, template_of, up_step, valid,
};

verus! {

/// A document-order path from `x` up to another node `a` takes its last step
/// from a node `y` that `x` reaches: a child of `a`, or `a`'s template contents.
pub proof fn lemma_sreaches_last_step(t: Seq<NodeView>, x: int, a: int) -> (y: int)
    requires
        sreaches(t, x, a),
        x != a,
    ensures
        valid(t, y),
        up_step(t, y, a),
        sreaches(t, x, y),
{
    let path = choose|path: Seq<NodeId>| is_serial_path(t, path) && path[0] == x && path.last() == a;
    let n = path.len();
    assert(n >= 2);
    let front = path.subrange(0, n - 1);
    assert(is_serial_path(t, front)) by {
        assert forall|k: int| 0 <= k < front.len() implies valid(t, #[trigger] front[k] as int) by {
            assert(front[k] == path[k]);
        }
        assert forall|k: int| 0 <= k < front.len() - 1 implies up_step(t, #[trigger] front[k] as int, front[k + 1] as int) by {
            assert(front[k] == path[k]);
            assert(front[k + 1] == path[k + 1]);
            assert(up_step(t, path[k] as int, path[k + 1] as int));
        }
    }
    assert(front[0] == x);
    let y = path[n - 2] as int;
    assert(valid(t, path[n - 2] as int));
    assert(up_step(t, path[n - 2] as int, path[n - 1] as int));
    assert(front.last() == path[n - 2]);
    y
}

/// Along a document-order path up the tree, a ranking never goes down.
pub proof fn lemma_serial_path_rank(t: Seq<NodeView>, h: spec_fn(int) -> nat, path: Seq<NodeId>, k: int)
    requires
        down_ranked(t, h),
        is_serial_path(t, path),
        0 <= k < path.len(),
    ensures
        h(path[0] as int) <= h(path[k] as int),
    decreases k,
{
    if k > 0 {
        lemma_serial_path_rank(t, h, path, k - 1);
        let x = path[k - 1] as int;
        let y = path[k] as int;
        assert(up_step(t, x, y));
        assert(valid(t, x) && valid(t, y));
        if t[x].parent == Some(y as NodeId) {
            assert(h(x) < h(t[x].parent->0 as int));
        } else {
            assert(template_of(t, y) == Some(x as NodeId));
        }
    }
}

/// What a node holds below it ranks no higher than the node.
pub proof fn lemma_sreaches_rank(t: Seq<NodeView>, h: spec_fn(int) -> nat, x: int, a: int)
    requires
        down_ranked(t, h),
        sreaches(t, x, a),
    ensures
        h(x) <= h(a),
{
    let path = choose|path: Seq<NodeId>| is_serial_path(t, path) && path[0] == x && path.last() == a;
    lemma_serial_path_rank(t, h, path, path.len() - 1);
}

impl Dom {
    /// Whether `a` is `x` or holds it below, through children and template
    /// contents.
    fn holds(&self, a: NodeId, x: NodeId, Ghost(h): Ghost<spec_fn(int) -> nat>) -> (r: bool)
        requires
            self.wf(),
            down_ranked(self@, h),
            a < self@.len(),
            x < self@.len(),
        ensures
            r == sreaches(self@, x as int, a as int),
        decreases h(a as int),
    {
        let ghost t = self@;
        if a == x {
            proof {
                lemma_sreaches_refl(t, x as int);
            }
            return true;
        }
        proof {
            assert(links_ok(t));
            assert(children_ok(t, a as int));
        }
        let kids = &self.nodes[a].children;
        let n = kids.len();
        assert(kids@ == t[a as int].children);
        for k in 0..n
            invariant
                self.wf(),
                t == self@,
                down_ranked(t, h),
                a < t.len(),
                x < t.len(),
                a != x,
                n == kids@.len(),
                kids@ == t[a as int].children,
                children_ok(t, a as int),
                forall|j: int| 0 <= j < k ==> !sreaches(t, x as int, #[trigger] kids@[j] as int),
        {
            let c = kids[k];
            proof {
                assert(t[a as int].children[k as int] == c);
                assert(valid(t, c as int));
                assert(t[c as int].parent == Some(a));
            }
            if self.holds(c, x, Ghost(h)) {
                proof {
                    assert(up_step(t, c as int, a as int));
                    lemma_sreaches_extend(t, x as int, c as int, a as int);
                }
                return true;
            }
        }
        if let NodeData::Element { template_contents: Some(d), .. } = &self.nodes[a].data {
            let d = *d;
            proof {
                assert(template_of(t, a as int) == Some(d));
                assert(crate::tree::template_ok(t, a as int));
            }
            if self.holds(d, x, Ghost(h)) {
                proof {
                    assert(up_step(t, d as int, a as int));
                    lemma_sreaches_extend(t, x as int, d as int, a as int);
                }
                return true;
            }
        }
        proof {
            if sreaches(t, x as int, a as int) {
                let y = lemma_sreaches_last_step(t, x as int, a as int);
                if t[y].parent == Some(a) {
                    assert(parent_ok(t, y));
                    assert(t[a as int].children.contains(y as NodeId));
                    let j = choose|j: int| 0 <= j < t[a as int].children.len() && t[a as int].children[j] == y as NodeId;
                    assert(!sreaches(t, x as int, kids@[j] as int));
                } else {
                    assert(template_of(t, a as int) == Some(y as NodeId));
                }
            }
        }
        false
    }

    /// Whether inserting `child` into `parent` keeps the arena well formed:
    /// nothing the insertion splices in (a document's children, or `child`
    /// itself) is `parent` or holds it, through children or template contents.
    pub fn can_insert(&self, parent: NodeId, child: NodeId) -> (r: bool)
        requires
            self.wf(),
            parent < self@.len(),
            child < self@.len(),
        ensures
            r == insert_keeps_wf(self@, parent as int, child as int),
    {
        let ghost t = self@;
        let ghost h = some_height(t);
        assert(down_ranked(t, h));
        match &self.nodes[child].data {
            NodeData::Document => {
                proof {
                    assert(links_ok(t));
                    assert(children_ok(t, child as int));
                }
                let kids = &self.nodes[child].children;
                let n = kids.len();
                assert(kids@ == splice_ids_spec(t, child as int));
                for k in 0..n
                    invariant
                        self.wf(),
                        t == self@,
                        down_ranked(t, h),
                        parent < t.len(),
                        child < t.len(),
                        n == kids@.len(),
                        kids@ == splice_ids_spec(t, child as int),
                        kids@ == t[child as int].children,
                        children_ok(t, child as int),
                        forall|j: int| 0 <= j < k ==> !sreaches(t, parent as int, #[trigger] kids@[j] as int),
                {
                    let c = kids[k];
                    assert(t[child as int].children[k as int] == c);
                    if self.holds(c, parent, Ghost(h)) {
                        return false;
                    }
                }
                true
            },
            _ => {
                let r = !self.holds(child, parent, Ghost(h));
                proof {
                    let ids = splice_ids_spec(t, child as int);
                    assert(ids =~= seq![child]);
                    if r {
                        assert forall|k: int| 0 <= k < ids.len() implies !sreaches(t, parent as int, #[trigger] ids[k] as int) by {
                            assert(ids[k] == child);
                        }
                    } else {
                        assert(ids[0] == child);
                    }
                }
                r
            },
        }
    }
}

} // verus!
