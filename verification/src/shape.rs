//! Checking, at run time, that an arena is well formed: for a tree that was
//! built outside the verified operations, such as by the parser's calls.

use vstd::prelude::*;

use crate::dom::{DataView, Dom, NodeData, NodeId, NodeView};
use crate::tree::{
    acyclic, bounded, children_ok, down_ranked, links_ok, links_wf, parent_ok, ranked, serial_ok, some_height,
    template_ok, tree_wf, valid,
};

verus! {

/// The heights `hs` rank node `x` above its children and its template
/// contents.
pub open spec fn edges_ok(t: Seq<NodeView>, hs: Seq<usize>, x: int) -> bool {
    &&& forall|j: int| #![trigger t[x].children[j]] 0 <= j < t[x].children.len() ==> hs[t[x].children[j] as int] < hs[x]
    &&& match t[x].data {
        DataView::Element { template_contents: Some(d), .. } => hs[d as int] < hs[x],
        _ => true,
    }
}

impl Dom {
    /// Whether the links of the arena agree: node 0 is a document, every
    /// child lists its parent, no child is listed twice, every parent link
    /// is matched by a child entry and leads to no document, and template
    /// contents are documents.
    pub fn links_agree(&self) -> (r: bool)
        ensures
            r == links_wf(self@),
    {
        let ghost t = self@;
        let n = self.nodes.len();
        if n == 0 {
            return false;
        }
        if !matches!(self.nodes[0].data, NodeData::Document) {
            return false;
        }
        let mut seen: Vec<bool> = Vec::new();
        for i in 0..n
            invariant
                n == t.len(),
                t == self@,
                seen@.len() == i,
                forall|c: int| 0 <= c < i ==> !seen@[c],
        {
            seen.push(false);
        }
        // Child lists: each child is a node whose parent is the list's owner,
        // listed once.
        for i in 0..n
            invariant
                n == t.len(),
                t == self@,
                t.len() > 0,
                t[0].data is Document,
                seen@.len() == n,
                forall|p: int| 0 <= p < i ==> children_ok(t, p),
                forall|p: int, j: int| 0 <= p < i && 0 <= j < t[p].children.len() ==> seen@[#[trigger] t[p].children[j] as int],
                forall|c: int| #![trigger seen@[c]] 0 <= c < n && seen@[c] ==> t[c].parent is Some && t[c].parent->0 < i
                    && t[t[c].parent->0 as int].children.contains(c as NodeId),
        {
            let kids = &self.nodes[i].children;
            let m = kids.len();
            assert(kids@ == t[i as int].children);
            for j in 0..m
                invariant
                    n == t.len(),
                    t == self@,
                    i < n,
                    m == kids@.len(),
                    kids@ == t[i as int].children,
                    seen@.len() == n,
                    kids@.subrange(0, j as int).no_duplicates(),
                    forall|k: int| 0 <= k < j ==> valid(t, #[trigger] kids@[k] as int) && t[kids@[k] as int].parent == Some(i),
                    forall|k: int| 0 <= k < j ==> seen@[#[trigger] kids@[k] as int],
                    forall|p: int, q: int| 0 <= p < i && 0 <= q < t[p].children.len() ==> seen@[#[trigger] t[p].children[q] as int],
                    forall|c: int| #![trigger seen@[c]] 0 <= c < n && seen@[c] ==> (t[c].parent is Some && t[c].parent->0 < i
                        && t[t[c].parent->0 as int].children.contains(c as NodeId)) || kids@.subrange(0, j as int).contains(c as NodeId),
                    forall|p: int| 0 <= p < i ==> children_ok(t, p),
            {
                let c = kids[j];
                if c >= n {
                    assert(!valid(t, t[i as int].children[j as int] as int));
                    return false;
                }
                if self.nodes[c].parent != Some(i) {
                    assert(t[t[i as int].children[j as int] as int].parent != Some(i));
                    return false;
                }
                if seen[c] {
                    proof {
                        if kids@.subrange(0, j as int).contains(c) {
                            let k = choose|k: int| 0 <= k < j && kids@.subrange(0, j as int)[k] == c;
                            assert(kids@[k] == kids@[j as int]);
                            assert(!t[i as int].children.no_duplicates());
                        } else {
                            assert(t[c as int].parent->0 < i);
                        }
                        assert(!children_ok(t, i as int));
                    }
                    return false;
                }
                let ghost before = seen@;
                seen.set(c, true);
                proof {
                    assert forall|p: int, q: int| 0 <= p < i && 0 <= q < t[p].children.len() implies seen@[#[trigger] t[p].children[q] as int] by {
                        assert(children_ok(t, p));
                        assert(before[t[p].children[q] as int]);
                    }
                    let s = kids@.subrange(0, j + 1);
                    assert(s =~= kids@.subrange(0, j as int).push(c));
                    assert forall|c2: int| #![trigger seen@[c2]] 0 <= c2 < n && seen@[c2] implies (t[c2].parent is Some && t[c2].parent->0 < i
                        && t[t[c2].parent->0 as int].children.contains(c2 as NodeId)) || s.contains(c2 as NodeId) by {
                        if c2 == c as int {
                            assert(s[j as int] == c);
                        } else if kids@.subrange(0, j as int).contains(c2 as NodeId) {
                            let k = choose|k: int| 0 <= k < j && kids@.subrange(0, j as int)[k] == c2 as NodeId;
                            assert(s[k] == c2 as NodeId);
                        }
                    }
                }
            }
            proof {
                assert(kids@.subrange(0, m as int) =~= kids@);
                assert(children_ok(t, i as int));
                assert forall|c: int| #![trigger seen@[c]] 0 <= c < n && seen@[c] implies t[c].parent is Some && t[c].parent->0 < i + 1
                    && t[t[c].parent->0 as int].children.contains(c as NodeId) by {
                    if kids@.contains(c as NodeId) {
                        let k = choose|k: int| 0 <= k < m && kids@[k] == c as NodeId;
                        assert(t[kids@[k] as int].parent == Some(i));
                    }
                }
            }
        }
        // Parent links and template contents.
        for x in 0..n
            invariant
                n == t.len(),
                t == self@,
                t.len() > 0,
                t[0].data is Document,
                seen@.len() == n,
                forall|p: int| 0 <= p < n ==> children_ok(t, p),
                forall|p: int, j: int| 0 <= p < n && 0 <= j < t[p].children.len() ==> seen@[#[trigger] t[p].children[j] as int],
                forall|c: int| #![trigger seen@[c]] 0 <= c < n && seen@[c] ==> t[c].parent is Some && t[c].parent->0 < n
                    && t[t[c].parent->0 as int].children.contains(c as NodeId),
                forall|y: int| 0 <= y < x ==> parent_ok(t, y) && template_ok(t, y),
        {
            let is_doc = matches!(self.nodes[x].data, NodeData::Document);
            match self.nodes[x].parent {
                Some(p) => {
                    if !seen[x] || is_doc {
                        proof {
                            if !seen@[x as int] && p < n && t[p as int].children.contains(x) {
                                let j = choose|j: int| 0 <= j < t[p as int].children.len() && t[p as int].children[j] == x;
                                assert(seen@[t[p as int].children[j] as int]);
                            }
                            assert(!parent_ok(t, x as int));
                        }
                        return false;
                    }
                    assert(seen@[x as int]);
                },
                None => {},
            }
            if let NodeData::Element { template_contents: Some(d), .. } = &self.nodes[x].data {
                let d = *d;
                if d >= n || !matches!(self.nodes[d].data, NodeData::Document) {
                    assert(!template_ok(t, x as int));
                    return false;
                }
            }
        }
        proof {
            assert(bounded(t));
            assert(links_ok(t));
        }
        true
    }
}

/// How many entries of `s` are set.
pub open spec fn count_set(s: Seq<bool>) -> nat
    decreases s.len(),
{
    if s.len() == 0 {
        0
    } else {
        count_set(s.drop_last()) + if s.last() {
            1nat
        } else {
            0nat
        }
    }
}

pub proof fn lemma_count_set_bound(s: Seq<bool>)
    ensures
        count_set(s) <= s.len(),
        count_set(s) == s.len() ==> forall|i: int| 0 <= i < s.len() ==> s[i],
    decreases s.len(),
{
    if s.len() > 0 {
        lemma_count_set_bound(s.drop_last());
        if count_set(s) == s.len() {
            assert forall|i: int| 0 <= i < s.len() implies s[i] by {
                if i < s.len() - 1 {
                    assert(s.drop_last()[i] == s[i]);
                }
            }
        }
    }
}

pub proof fn lemma_count_set_update(s: Seq<bool>, i: int)
    requires
        0 <= i < s.len(),
        !s[i],
    ensures
        count_set(s.update(i, true)) == count_set(s) + 1,
    decreases s.len(),
{
    let u = s.update(i, true);
    if i < s.len() - 1 {
        assert(u.drop_last() =~= s.drop_last().update(i, true));
        lemma_count_set_update(s.drop_last(), i);
    } else {
        assert(u.drop_last() =~= s.drop_last());
    }
}

/// Node `x` of `t` has an out edge (to a child, or to its template contents)
/// that leads to a node not set in `m`.
pub open spec fn blocked(t: Seq<NodeView>, m: Seq<bool>, x: int) -> bool {
    ||| exists|j: int| #![trigger t[x].children[j]] 0 <= j < t[x].children.len() && !m[t[x].children[j] as int]
    ||| match t[x].data {
        DataView::Element { template_contents: Some(d), .. } => !m[d as int],
        _ => false,
    }
}

/// If every node left out of `m` leads to another one left out, none is:
/// walking down such edges would go on forever, but a ranking bounds it.
pub proof fn lemma_no_blocked_cycle(t: Seq<NodeView>, h: spec_fn(int) -> nat, m: Seq<bool>, x: int)
    requires
        links_wf(t),
        down_ranked(t, h),
        m.len() == t.len(),
        valid(t, x),
        forall|y: int| 0 <= y < t.len() && !m[y] ==> #[trigger] blocked(t, m, y),
    ensures
        m[x],
    decreases h(x),
{
    if m[x] {
        return;
    }
    assert(links_ok(t));
    assert(blocked(t, m, x));
    assert(children_ok(t, x));
    assert(template_ok(t, x));
    if exists|j: int| #![trigger t[x].children[j]] 0 <= j < t[x].children.len() && !m[t[x].children[j] as int] {
        let j = choose|j: int| #![trigger t[x].children[j]] 0 <= j < t[x].children.len() && !m[t[x].children[j] as int];
        let c = t[x].children[j] as int;
        assert(valid(t, c));
        assert(t[c].parent == Some(x as NodeId));
        assert(h(c) < h(x));
        lemma_no_blocked_cycle(t, h, m, c);
    } else {
        let d = t[x].data->Element_template_contents->0 as int;
        assert(valid(t, d));
        assert(h(d) < h(x));
        lemma_no_blocked_cycle(t, h, m, d);
    }
}

impl Dom {
    /// Whether the arena is well formed: its links agree, and no walk down
    /// the tree (through children and template contents) or up it goes round
    /// in a loop. Nodes are settled bottom up, each once everything below it
    /// is; the arena is well formed exactly when every node settles.
    pub fn is_well_formed(&self) -> (r: bool)
        ensures
            r == self.wf(),
    {
        let ghost t = self@;
        if !self.links_agree() {
            return false;
        }
        proof {
            assert(links_ok(t));
        }
        let n = self.nodes.len();
        let mut done: Vec<bool> = Vec::new();
        let mut hs: Vec<usize> = Vec::new();
        for i in 0..n
            invariant
                done@.len() == i,
                hs@.len() == i,
                forall|y: int| 0 <= y < i ==> !done@[y],
        {
            done.push(false);
            hs.push(0);
        }
        proof {
            assert(count_set(done@) == 0) by {
                lemma_count_set_bound(done@);
                lemma_count_zero(done@);
            }
        }
        let mut count: usize = 0;
        loop
            invariant
                n == t.len(),
                t == self@,
                links_wf(t),
                links_ok(t),
                done@.len() == n,
                hs@.len() == n,
                count == count_set(done@),
                count <= n,
                forall|y: int| #![trigger done@[y]] 0 <= y < n && done@[y] ==> hs@[y] <= count,
                forall|y: int| #![trigger done@[y]] 0 <= y < n && done@[y] ==> edges_ok(t, hs@, y),
                forall|y: int| #![trigger done@[y]] 0 <= y < n && done@[y] ==> !blocked(t, done@, y),
            ensures
                done@.len() == n,
                hs@.len() == n,
                count == count_set(done@),
                count <= n,
                forall|y: int| #![trigger done@[y]] 0 <= y < n && done@[y] ==> hs@[y] <= count,
                forall|y: int| #![trigger done@[y]] 0 <= y < n && done@[y] ==> edges_ok(t, hs@, y),
                count < n ==> forall|y: int| 0 <= y < n && !done@[y] ==> #[trigger] blocked(t, done@, y),
            decreases n - count,
        {
            let mut progress = false;
            let ghost start = done@;
            let ghost count0 = count;
            let mut x = n;
            while x > 0
                invariant
                    n == t.len(),
                    t == self@,
                    links_wf(t),
                    links_ok(t),
                    x <= n,
                    done@.len() == n,
                    hs@.len() == n,
                    count == count_set(done@),
                    count <= n,
                    count >= count0,
                    progress ==> count > count0,
                    forall|y: int| #![trigger done@[y]] 0 <= y < n && done@[y] ==> hs@[y] <= count,
                forall|y: int| #![trigger done@[y]] 0 <= y < n && done@[y] ==> edges_ok(t, hs@, y),
                forall|y: int| #![trigger done@[y]] 0 <= y < n && done@[y] ==> !blocked(t, done@, y),
                    !progress ==> done@ == start,
                    !progress ==> forall|y: int| x <= y < n && !done@[y] ==> #[trigger] blocked(t, done@, y),
                decreases x,
            {
                x = x - 1;
                if !done[x] {
                    proof {
                        lemma_count_set_bound(done@);
                        assert(children_ok(t, x as int));
                        assert(template_ok(t, x as int));
                        if count == n {
                            assert(done@[x as int]);
                        }
                    }
                    let kids = &self.nodes[x].children;
                    let m = kids.len();
                    assert(kids@ == t[x as int].children);
                    let mut ready = true;
                    let mut hx: usize = 0;
                    for j in 0..m
                        invariant
                            n == t.len(),
                            t == self@,
                            x < n,
                            count < n,
                            m == kids@.len(),
                            kids@ == t[x as int].children,
                            children_ok(t, x as int),
                            done@.len() == n,
                            hs@.len() == n,
                            hx <= count + 1,
                            forall|y: int| #![trigger done@[y]] 0 <= y < n && done@[y] ==> hs@[y] <= count,
                            ready ==> forall|k: int| 0 <= k < j ==> done@[#[trigger] kids@[k] as int] && hs@[kids@[k] as int] < hx,
                            !ready ==> blocked(t, done@, x as int),
                    {
                        let c = kids[j];
                        assert(valid(t, t[x as int].children[j as int] as int));
                        if !done[c] {
                            assert(!done@[t[x as int].children[j as int] as int]);
                            ready = false;
                        } else if hs[c] >= hx {
                            hx = hs[c] + 1;
                        }
                    }
                    if let NodeData::Element { template_contents: Some(d), .. } = &self.nodes[x].data {
                        let d = *d;
                        if !done[d] {
                            ready = false;
                        } else if hs[d] >= hx {
                            hx = hs[d] + 1;
                        }
                    }
                    if ready {
                        proof {
                            lemma_count_set_update(done@, x as int);
                        }
                        let ghost before = done@;
                        done.set(x, true);
                        hs.set(x, hx);
                        count = count + 1;
                        progress = true;
                        proof {
                            assert forall|j: int| #![trigger t[x as int].children[j]] 0 <= j < t[x as int].children.len() implies hs@[t[x as int].children[j] as int] < hs@[x as int] && done@[t[x as int].children[j] as int] by {
                                assert(kids@[j] == t[x as int].children[j]);
                            }
                            assert(edges_ok(t, hs@, x as int));
                            assert(!blocked(t, done@, x as int));
                            assert forall|y: int| #![trigger done@[y]] 0 <= y < n && done@[y] implies hs@[y] <= count && edges_ok(t, hs@, y) && !blocked(t, done@, y) by {
                                if y != x as int {
                                    assert(before[y]);
                                    assert(edges_ok(t, hs@, y)) by {
                                        assert(children_ok(t, y));
                                        assert forall|j: int| #![trigger t[y].children[j]] 0 <= j < t[y].children.len() implies hs@[t[y].children[j] as int] < hs@[y] by {
                                            assert(!blocked(t, before, y));
                                            assert(before[t[y].children[j] as int]);
                                            assert(t[y].children[j] != x as NodeId);
                                        }
                                        if let DataView::Element { template_contents: Some(d), .. } = t[y].data {
                                            assert(before[d as int]);
                                        }
                                    }
                                }
                            }
                        }
                    } else {
                        assert(blocked(t, done@, x as int));
                    }
                }
            }
            if !progress {
                proof {
                    lemma_count_set_bound(done@);
                }
                break;
            }
        }
        proof {
            lemma_count_set_bound(done@);
        }
        if count < n {
            proof {
                if forall|y: int| 0 <= y < n ==> done@[y] {
                    lemma_count_all(done@);
                }
                if serial_ok(t) {
                    let h = some_height(t);
                    assert(down_ranked(t, h));
                    let y = choose|y: int| 0 <= y < n && !done@[y];
                    lemma_no_blocked_cycle(t, h, done@, y);
                }
            }
            return false;
        }
        proof {
            let hf = |i: int| hs@[i] as nat;
            let rf = |i: int| (n - hs@[i]) as nat;
            assert forall|i: int| 0 <= i < n implies #[trigger] edges_ok(t, hs@, i) && hs@[i] <= n by {
                assert(done@[i]);
            }
            assert forall|i: int| #![trigger t[i]] valid(t, i) implies (t[i].parent is Some ==> hf(i) < hf(t[i].parent->0 as int)) && match t[i].data {
                DataView::Element { template_contents: Some(c), .. } => hf(c as int) < hf(i),
                _ => true,
            } by {
                assert(parent_ok(t, i));
                assert(edges_ok(t, hs@, i));
                if let Some(p) = t[i].parent {
                    assert(t[p as int].children.contains(i as NodeId));
                    let j = choose|j: int| 0 <= j < t[p as int].children.len() && t[p as int].children[j] == i as NodeId;
                    assert(edges_ok(t, hs@, p as int));
                    assert(hs@[t[p as int].children[j] as int] < hs@[p as int]);
                }
            }
            assert(down_ranked(t, hf));
            assert forall|i: int| #![trigger t[i]] valid(t, i) && t[i].parent is Some implies rf(t[i].parent->0 as int) < rf(i) by {
                assert(parent_ok(t, i));
                let p = t[i].parent->0;
                assert(t[p as int].children.contains(i as NodeId));
                let j = choose|j: int| 0 <= j < t[p as int].children.len() && t[p as int].children[j] == i as NodeId;
                assert(edges_ok(t, hs@, p as int));
                assert(hs@[t[p as int].children[j] as int] < hs@[p as int]);
            }
            assert(ranked(t, rf));
            assert(acyclic(t));
            assert(serial_ok(t));
            assert(tree_wf(t));
        }
        true
    }
}

pub proof fn lemma_count_all(s: Seq<bool>)
    requires
        forall|i: int| 0 <= i < s.len() ==> s[i],
    ensures
        count_set(s) == s.len(),
    decreases s.len(),
{
    if s.len() > 0 {
        lemma_count_all(s.drop_last());
    }
}

pub proof fn lemma_count_zero(s: Seq<bool>)
    requires
        forall|i: int| 0 <= i < s.len() ==> !s[i],
    ensures
        count_set(s) == 0,
    decreases s.len(),
{
    if s.len() > 0 {
        lemma_count_zero(s.drop_last());
    }
}

} // verus!
