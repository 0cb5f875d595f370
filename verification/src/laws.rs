//! What the library promises across its operations, stated over the
//! operations' own specifications and proved.

use vstd::prelude::*;

use crate::attrs::{attr_index, attr_value, is_attr_at, lemma_attr_first_exists, lemma_attr_index, remove_attr_spec, set_attr_spec, set_text_spec, with_data};
use crate::depth::{end_tag_step, last_index_of, lemma_last_index_exists, start_tag_step, MAX_DEPTH};
use crate::dom::{DataView, DomError, NodeId, NodeView, QNameView};
use crate::edit::{
    detach_spec, insert_before_spec, insert_keeps_wf, splice_ids_spec, lemma_pos_unique, pos, replace_child_spec, splice_spec, take_children_spec,
};
use crate::copy::{copy_of, with_template};
use crate::html::{html_of, html_of_all, lemma_copy_ser_forest, lemma_copy_ser_node, lemma_ser_forest_initial, ser_initial};
use crate::guard::{lemma_sreaches_last_step, lemma_sreaches_rank};
use crate::names::element_ids;
use crate::sink::{add_missing, append_text_spec, first_element_pos, fragment_spec, reparent_spec, text_before_spec};
use crate::dom::fresh;
use crate::edit::insert_spec;
use crate::walk::lemma_texts_append;
use crate::tree::{children_ok, dom_wf, lemma_reaches_sreaches, lemma_sreaches_refl, sreaches, down_ranked, links_ok, links_wf, parent_ok, reaches, some_height, template_of, tree_wf, valid};
use crate::walk::{lemma_copy_serial_kids, lemma_copy_texts_node, lemma_serial_kids, preorder, serial_kids, texts};

verus! {

/// Setting an attribute and reading it back gives the value set.
pub proof fn law_set_attr_then_attr(
    name: QNameView,
    attrs: Seq<(QNameView, Seq<char>)>,
    tc: Option<NodeId>,
    key: Seq<char>,
    value: Seq<char>,
)
    ensures
        attr_value(
            DataView::Element { name, attrs: set_attr_spec(attrs, key, value), template_contents: tc },
            key,
        ) == Some(value),
{
    let a2 = set_attr_spec(attrs, key, value);
    match attr_index(attrs, key) {
        Some(i) => {
            let k = choose|k: int| 0 <= k < attrs.len() && (#[trigger] attrs[k]).0.local == key;
            lemma_attr_first_exists(attrs, key, k);
            assert(is_attr_at(a2, key, i)) by {
                assert forall|k: int| 0 <= k < i implies (#[trigger] a2[k]).0.local != key by {
                    assert(a2[k] == attrs[k]);
                }
            }
            lemma_attr_index(a2, key, i);
        },
        None => {
            let n = attrs.len() as int;
            assert(is_attr_at(a2, key, n)) by {
                assert forall|k: int| 0 <= k < n implies (#[trigger] a2[k]).0.local != key by {
                    assert(a2[k] == attrs[k]);
                }
            }
            lemma_attr_index(a2, key, n);
        },
    }
}

/// Setting one attribute leaves what every other attribute name reads.
pub proof fn law_set_attr_keeps_others(
    name: QNameView,
    attrs: Seq<(QNameView, Seq<char>)>,
    tc: Option<NodeId>,
    key: Seq<char>,
    value: Seq<char>,
    other: Seq<char>,
)
    requires
        other != key,
    ensures
        attr_value(
            DataView::Element { name, attrs: set_attr_spec(attrs, key, value), template_contents: tc },
            other,
        ) == attr_value(DataView::Element { name, attrs, template_contents: tc }, other),
{
    let a2 = set_attr_spec(attrs, key, value);
    let i = attr_index(attrs, key);
    if i is Some {
        let k = choose|k: int| 0 <= k < attrs.len() && (#[trigger] attrs[k]).0.local == key;
        lemma_attr_first_exists(attrs, key, k);
    }
    assert forall|k: int| 0 <= k < attrs.len() implies (#[trigger] a2[k]).0 == attrs[k].0 by {}
    match attr_index(attrs, other) {
        Some(m) => {
            let k = choose|k: int| 0 <= k < attrs.len() && (#[trigger] attrs[k]).0.local == other;
            lemma_attr_first_exists(attrs, other, k);
            assert(is_attr_at(a2, other, m)) by {
                assert forall|k: int| 0 <= k < m implies (#[trigger] a2[k]).0.local != other by {
                    assert(a2[k].0 == attrs[k].0);
                }
            }
            lemma_attr_index(a2, other, m);
            if i is Some {
                assert(attrs[i->0].0.local == key);
                assert(i->0 != m);
            }
            assert(a2[m] == attrs[m]);
        },
        None => {
            assert forall|k: int| 0 <= k < a2.len() implies (#[trigger] a2[k]).0.local != other by {
                if k < attrs.len() {
                    assert(a2[k].0 == attrs[k].0);
                    assert(!(0 <= k < attrs.len() && attrs[k].0.local == other));
                }
            }
        },
    }
}

/// Removing an attribute that is there once leaves none by that name.
pub proof fn law_remove_attr_then_absent(
    name: QNameView,
    attrs: Seq<(QNameView, Seq<char>)>,
    tc: Option<NodeId>,
    key: Seq<char>,
)
    requires
        forall|a: int, b: int| 0 <= a < b < attrs.len() && (#[trigger] attrs[a]).0.local == key ==> (#[trigger] attrs[b]).0.local != key,
    ensures
        attr_value(DataView::Element { name, attrs: remove_attr_spec(attrs, key), template_contents: tc }, key) is None,
{
    let a2 = remove_attr_spec(attrs, key);
    match attr_index(attrs, key) {
        Some(i) => {
            let k0 = choose|k: int| 0 <= k < attrs.len() && (#[trigger] attrs[k]).0.local == key;
            lemma_attr_first_exists(attrs, key, k0);
            assert forall|k: int| 0 <= k < a2.len() implies (#[trigger] a2[k]).0.local != key by {
                if k < i {
                    assert(a2[k] == attrs[k]);
                } else {
                    assert(a2[k] == attrs[k + 1]);
                    assert(attrs[i].0.local == key);
                }
            }
        },
        None => {
            assert(!exists|k: int| 0 <= k < attrs.len() && (#[trigger] attrs[k]).0.local == key);
        },
    }
}

/// Setting a text or comment node's text and reading it back gives that text.
pub proof fn law_set_text_then_text(d: DataView, text: Seq<char>)
    requires
        d is Text || d is Comment,
    ensures
        match set_text_spec(d, text) {
            Some(DataView::Text { contents }) => contents == text,
            Some(DataView::Comment { contents }) => contents == text,
            _ => false,
        },
{
}

/// Detaching is idempotent: a detached node detaches to nothing.
pub proof fn law_detach_twice(t: Seq<NodeView>, c: int)
    requires
        links_wf(t),
        valid(t, c),
    ensures
        detach_spec(detach_spec(t, c), c) == detach_spec(t, c),
{
    let t1 = detach_spec(t, c);
    if let Some(p) = t[c].parent {
        assert(links_ok(t));
        assert(parent_ok(t, c));
        assert(t1[c].parent is None);
    }
}

/// After detaching, a node has no parent and its old parent no longer lists it.
pub proof fn law_detach_removes(t: Seq<NodeView>, c: int)
    requires
        links_wf(t),
        valid(t, c),
        t[c].parent is Some,
    ensures
        detach_spec(t, c)[c].parent is None,
        !detach_spec(t, c)[t[c].parent->0 as int].children.contains(c as NodeId),
{
    let p = t[c].parent->0 as int;
    assert(links_ok(t));
    assert(parent_ok(t, c));
    assert(children_ok(t, p));
    let kids = t[p].children;
    let j = choose|j: int| 0 <= j < kids.len() && kids[j] == c as NodeId;
    lemma_pos_unique(kids, c as NodeId, j);
    let k2 = kids.remove(j);
    assert(detach_spec(t, c)[p].children == k2);
    if k2.contains(c as NodeId) {
        let m = choose|m: int| 0 <= m < k2.len() && k2[m] == c as NodeId;
        if m < j {
            assert(kids[m] == c as NodeId);
        } else {
            assert(kids[m + 1] == c as NodeId);
        }
    }
}

/// Appending a node (not a document) that does not hold the parent in its
/// subtree (through template contents too) makes it the parent's last child.
pub proof fn law_append_child_is_last(t: Seq<NodeView>, p: int, c: int)
    requires
        links_wf(t),
        valid(t, p),
        valid(t, c),
        !(t[c].data is Document),
        !sreaches(t, p, c),
    ensures
        insert_before_spec(t, p, c, None).1 == Ok::<(), DomError>(()),
        insert_before_spec(t, p, c, None).0[p].children.last() == c as NodeId,
        insert_before_spec(t, p, c, None).0[c].parent == Some(p as NodeId),
{
    assert(insert_keeps_wf(t, p, c)) by {
        assert(splice_ids_spec(t, c) =~= seq![c as NodeId]);
    }
    let s = splice_spec(t, c);
    let t2 = insert_before_spec(t, p, c, None).0;
    let n = s[p].children.len() as int;
    assert(seq![c as NodeId].contains(c as NodeId)) by {
        assert(seq![c as NodeId][0] == c as NodeId);
    }
    assert(t2[p].children == s[p].children.subrange(0, n) + seq![c as NodeId] + s[p].children.subrange(n, n));
}

/// Inserting a document node moves its children, in order, and leaves it
/// childless (unless it is inserted into itself).
pub proof fn law_insert_document_splices(t: Seq<NodeView>, p: int, d: int, reference: Option<NodeId>)
    requires
        links_wf(t),
        valid(t, p),
        valid(t, d),
        t[d].data is Document,
        p != d,
        insert_before_spec(t, p, d, reference).1 is Ok,
    ensures
        insert_before_spec(t, p, d, reference).0[d].children.len() == 0,
        forall|k: int|
            0 <= k < t[d].children.len() ==> insert_before_spec(t, p, d, reference).0[#[trigger] t[d].children[k] as int].parent
                == Some(p as NodeId),
{
    let t2 = insert_before_spec(t, p, d, reference).0;
    assert forall|k: int| 0 <= k < t[d].children.len() implies t2[#[trigger] t[d].children[k] as int].parent == Some(p as NodeId) by {
        assert(t[d].children.contains(t[d].children[k]));
        assert(links_ok(t));
        assert(children_ok(t, d));
    }
}

/// A node (not a document) whose subtree holds the parent is refused, and
/// the tree stays as it was.
pub proof fn law_would_cycle_refused(t: Seq<NodeView>, p: int, c: int, reference: Option<NodeId>)
    requires
        !(t[c].data is Document),
        reaches(t, p, c),
    ensures
        insert_before_spec(t, p, c, reference) == (t, Err::<(), DomError>(DomError::WouldCycle)),
{
    lemma_reaches_sreaches(t, p, c);
    assert(splice_ids_spec(t, c)[0] == c as NodeId);
}

/// A refused insertion or replacement (`WouldCycle` or `NotAChild`) leaves
/// the tree as it was.
pub proof fn law_refused_edit_changes_nothing(t: Seq<NodeView>, p: int, c: int, reference: Option<NodeId>, old_child: NodeId)
    ensures
        insert_before_spec(t, p, c, reference).1 is Err ==> insert_before_spec(t, p, c, reference).0 == t,
        replace_child_spec(t, p, c, old_child).1 is Err ==> replace_child_spec(t, p, c, old_child).0 == t,
{
}

/// Inserting a child (not a document) of `p` before itself leaves everything
/// in place.
pub proof fn law_insert_before_itself(t: Seq<NodeView>, p: int, c: int)
    requires
        dom_wf(t),
        valid(t, p),
        valid(t, c),
        t[p].children.contains(c as NodeId),
        !(t[c].data is Document),
    ensures
        insert_before_spec(t, p, c, Some(c as NodeId)) == (t, Ok::<(), DomError>(())),
{
    let h = some_height(t);
    assert(down_ranked(t, h));
    assert(links_ok(t));
    assert(children_ok(t, p));
    let j = choose|j: int| 0 <= j < t[p].children.len() && t[p].children[j] == c as NodeId;
    assert(t[c].parent == Some(p as NodeId));
    assert(h(c) < h(p));
    if sreaches(t, p, c) {
        lemma_sreaches_rank(t, h, p, c);
    }
    let ids = splice_ids_spec(t, c);
    assert(ids =~= seq![c as NodeId]);
    assert(ids[0] == c as NodeId);
    assert(insert_keeps_wf(t, p, c));
}

/// A document that holds the parent below it cannot be spliced into it: the
/// insertion is refused with `WouldCycle`, and the tree stays as it was.
pub proof fn law_document_into_own_subtree_refused(t: Seq<NodeView>, p: int, d: int, reference: Option<NodeId>)
    requires
        links_wf(t),
        valid(t, p),
        valid(t, d),
        t[d].data is Document,
        p != d,
        reaches(t, p, d),
    ensures
        insert_before_spec(t, p, d, reference) == (t, Err::<(), DomError>(DomError::WouldCycle)),
{
    lemma_reaches_sreaches(t, p, d);
    let y = lemma_sreaches_last_step(t, p, d);
    assert(template_of(t, d) is None);
    assert(t[y].parent == Some(d as NodeId));
    assert(links_ok(t));
    assert(parent_ok(t, y));
    assert(t[d].children.contains(y as NodeId));
    let k = choose|k: int| 0 <= k < t[d].children.len() && t[d].children[k] == y as NodeId;
    assert(splice_ids_spec(t, d)[k] == y as NodeId);
}

/// After a successful replacement, the replaced node is detached and the new
/// node (not a document) is a child of the parent.
pub proof fn law_replace_detaches_old(t: Seq<NodeView>, p: int, new: int, old_child: NodeId)
    requires
        tree_wf(t),
        valid(t, p),
        valid(t, new),
        valid(t, old_child as int),
        new != old_child as int,
        !(t[new].data is Document),
        replace_child_spec(t, p, new, old_child).1 is Ok,
    ensures
        replace_child_spec(t, p, new, old_child).0[old_child as int].parent is None,
        replace_child_spec(t, p, new, old_child).0[new].parent == Some(p as NodeId),
{
    let (s1, r) = insert_before_spec(t, p, new, Some(old_child));
    assert(seq![new as NodeId].contains(new as NodeId)) by {
        assert(seq![new as NodeId][0] == new as NodeId);
    }
    assert(s1[new].parent == Some(p as NodeId));
}

/// Clearing a node's children leaves it childless and each former child
/// detached.
pub proof fn law_clear_children(t: Seq<NodeView>, d: int)
    requires
        links_wf(t),
        valid(t, d),
    ensures
        take_children_spec(t, d)[d].children.len() == 0,
        forall|k: int| 0 <= k < t[d].children.len() ==> take_children_spec(t, d)[#[trigger] t[d].children[k] as int].parent is None,
{
    assert forall|k: int| 0 <= k < t[d].children.len() implies take_children_spec(t, d)[#[trigger] t[d].children[k] as int].parent is None by {
        assert(t[d].children.contains(t[d].children[k]));
        assert(links_ok(t));
        assert(children_ok(t, d));
    }
}

/// Structural edits keep every id valid (the arena never shrinks) and keep
/// the document node's payload.
pub proof fn law_edits_keep_ids(t: Seq<NodeView>, p: int, c: int, reference: Option<NodeId>)
    requires
        links_wf(t),
        valid(t, p),
        valid(t, c),
    ensures
        detach_spec(t, c).len() == t.len(),
        detach_spec(t, c)[0].data == t[0].data,
        take_children_spec(t, c).len() == t.len(),
        take_children_spec(t, c)[0].data == t[0].data,
        insert_before_spec(t, p, c, reference).0.len() == t.len(),
        insert_before_spec(t, p, c, reference).0[0].data == t[0].data,
{
}

/// A start tag the cap swallows has its end tag swallowed right after, and the
/// cap is back where it was.
pub proof fn law_swallowed_end_tag(open: Seq<Seq<char>>, swallowed: Seq<Seq<char>>, name: Seq<char>, fsc: bool)
    requires
        !start_tag_step(open, swallowed, name, fsc).2,
    ensures
        ({
            let (o2, s2, _) = start_tag_step(open, swallowed, name, fsc);
            end_tag_step(o2, s2, name) == (open, swallowed, false)
        }),
{
    let (o2, s2, _) = start_tag_step(open, swallowed, name, fsc);
    assert(s2 == swallowed.push(name));
    assert(s2.drop_last() =~= swallowed);
}

/// The cap never counts more than `MAX_DEPTH` open elements.
pub proof fn law_depth_capped(open: Seq<Seq<char>>, swallowed: Seq<Seq<char>>, name: Seq<char>, fsc: bool)
    requires
        open.len() <= MAX_DEPTH,
    ensures
        start_tag_step(open, swallowed, name, fsc).0.len() <= MAX_DEPTH,
        end_tag_step(open, swallowed, name).0.len() <= MAX_DEPTH,
{
    if last_index_of(open, name) is Some {
        let i = choose|i: int| 0 <= i < open.len() && open[i] == name;
        lemma_last_index_exists(open, name, i);
    }
}

/// A deep copy serializes as the original does: a node that is a copy of a
/// node of another tree (as `import` makes) has the same markup.
pub proof fn law_copy_same_html(o: Seq<NodeView>, x: int, t: Seq<NodeView>, y: int, lo: int, hi: int)
    requires
        dom_wf(o),
        dom_wf(t),
        valid(o, x),
        valid(t, y),
        copy_of(o, some_height(o), x, t, y, lo, hi),
    ensures
        html_of(t, y) == html_of(o, x),
{
    let ho = some_height(o);
    let ht = some_height(t);
    assert(down_ranked(o, ho));
    assert(down_ranked(t, ht));
    assert(t[y].data == with_template(o[x].data, template_of(t, y)));
    if o[x].data is Document {
        let xs = serial_kids(o, x);
        let ys = serial_kids(t, y);
        lemma_serial_kids(o, ho, x);
        lemma_serial_kids(t, ht, y);
        lemma_copy_serial_kids(o, ho, x, t, y, lo, hi);
        lemma_copy_ser_forest(o, ho, xs, t, ht, ys, lo, hi, ser_initial(), (ho(x) + 1) as int, (ht(y) + 1) as int);
    } else {
        lemma_copy_ser_node(o, ho, x, t, ht, y, lo, hi, ser_initial());
    }
}

/// A deep copy holds the same text as the original: a node that is a copy of
/// a node of another tree (as `import` makes) has the same `to_text`.
pub proof fn law_copy_same_text(o: Seq<NodeView>, x: int, t: Seq<NodeView>, y: int, lo: int, hi: int)
    requires
        dom_wf(o),
        dom_wf(t),
        valid(o, x),
        valid(t, y),
        copy_of(o, some_height(o), x, t, y, lo, hi),
    ensures
        texts(t, preorder(t, some_height(t), y)) == texts(o, preorder(o, some_height(o), x)),
{
    let ho = some_height(o);
    let ht = some_height(t);
    assert(down_ranked(o, ho));
    assert(down_ranked(t, ht));
    lemma_copy_texts_node(o, ho, x, t, ht, y, lo, hi);
}

/// A document (a document, a fragment root or template contents) serializes
/// as its children do, each on its own, one after the other; to nothing when
/// it has none.
pub proof fn law_document_html_is_childrens(t: Seq<NodeView>, d: int)
    requires
        dom_wf(t),
        valid(t, d),
        t[d].data is Document,
    ensures
        html_of(t, d) == html_of_all(t, t[d].children),
{
    let h = some_height(t);
    assert(down_ranked(t, h));
    lemma_serial_kids(t, h, d);
    assert(links_ok(t));
    assert(children_ok(t, d));
    let kids = t[d].children;
    assert(serial_kids(t, d) == kids);
    assert forall|k: int| 0 <= k < kids.len() implies valid(t, #[trigger] kids[k] as int) && h(kids[k] as int) + 1 < (h(d) + 1) as int
        && !(t[kids[k] as int].data is Document) by {
        assert(serial_kids(t, d)[k] == kids[k]);
        assert(parent_ok(t, kids[k] as int));
    }
    lemma_ser_forest_initial(t, kids, (h(d) + 1) as int);
}

/// Whether a node is not `x`.
pub open spec fn other_than(x: NodeId) -> spec_fn(NodeId) -> bool {
    |y: NodeId| y != x
}

/// Keeping the nodes other than `x` of a list that does not hold `x` keeps
/// them all.
pub proof fn lemma_filter_absent(l: Seq<NodeId>, x: NodeId)
    requires
        !l.contains(x),
    ensures
        l.filter(other_than(x)) == l,
    decreases l.len(),
{
    reveal(Seq::filter);
    if l.len() > 0 {
        assert(!l.drop_last().contains(x)) by {
            if l.drop_last().contains(x) {
                let j = choose|j: int| 0 <= j < l.drop_last().len() && l.drop_last()[j] == x;
                assert(l[j] == x);
            }
        }
        lemma_filter_absent(l.drop_last(), x);
        assert(l.last() != x) by {
            assert(l[l.len() - 1] == l.last());
        }
        assert(l.drop_last().push(l.last()) =~= l);
    }
}

/// Keeping the nodes other than `x` of a list that holds `x` once, at `i`,
/// drops just that entry.
pub proof fn lemma_filter_once(l: Seq<NodeId>, x: NodeId, i: int)
    requires
        l.no_duplicates(),
        0 <= i < l.len(),
        l[i] == x,
    ensures
        l.filter(other_than(x)) == l.remove(i),
    decreases l.len(),
{
    reveal(Seq::filter);
    let d = l.drop_last();
    if i == l.len() - 1 {
        assert(!d.contains(x)) by {
            if d.contains(x) {
                let j = choose|j: int| 0 <= j < d.len() && d[j] == x;
                assert(l[j] == l[i]);
            }
        }
        lemma_filter_absent(d, x);
        assert(l.remove(i) =~= d);
    } else {
        assert(d.no_duplicates()) by {
            assert forall|a: int, b: int| 0 <= a < d.len() && 0 <= b < d.len() && a != b implies d[a] != d[b] by {
                assert(l[a] == d[a] && l[b] == d[b]);
            }
        }
        assert(d[i] == x);
        lemma_filter_once(d, x, i);
        assert(l.last() != x) by {
            assert(l[l.len() - 1] != l[i]);
        }
        assert(d.remove(i).push(l.last()) =~= l.remove(i));
    }
}

/// Moving a node (not a document) before a reference puts it right before
/// the reference, and keeps every other child of the parent in its order:
/// taking the moved node out again gives the parent's other children as they
/// were.
pub proof fn law_insert_before_places_child(t: Seq<NodeView>, p: int, c: int, r: NodeId)
    requires
        links_wf(t),
        valid(t, p),
        valid(t, c),
        !(t[c].data is Document),
        r != c as NodeId,
        insert_before_spec(t, p, c, Some(r)).1 is Ok,
    ensures
        ({
            let k2 = insert_before_spec(t, p, c, Some(r)).0[p].children;
            let rest = t[p].children.filter(other_than(c as NodeId));
            &&& k2.len() == rest.len() + 1
            &&& exists|i: int| 0 <= i < k2.len() - 1 && k2[i] == c as NodeId && k2[i + 1] == r && #[trigger] k2.remove(i) == rest
        }),
        insert_before_spec(t, p, c, Some(r)).0[c].parent == Some(p as NodeId),
{
    let ids = splice_ids_spec(t, c);
    assert(ids =~= seq![c as NodeId]);
    assert(ids[0] == c as NodeId);
    assert(!ids.contains(r)) by {
        if ids.contains(r) {
            let m = choose|m: int| 0 <= m < ids.len() && ids[m] == r;
        }
    }
    let s = splice_spec(t, c);
    let sp = s[p].children;
    assert(p != c) by {
        lemma_sreaches_refl(t, p);
        assert(insert_keeps_wf(t, p, c));
    }
    assert(links_ok(t));
    assert(children_ok(t, p));
    assert(parent_ok(t, c));
    // The parent's children once `c` is detached are its other children.
    assert(sp == t[p].children.filter(other_than(c as NodeId))) by {
        if t[c].parent == Some(p as NodeId) {
            let i0 = pos(t[p].children, c as NodeId);
            assert(t[p].children.contains(c as NodeId));
            assert(t[p].children[i0] == c as NodeId);
            lemma_filter_once(t[p].children, c as NodeId, i0);
        } else {
            assert(sp == t[p].children);
            assert(!t[p].children.contains(c as NodeId)) by {
                if t[p].children.contains(c as NodeId) {
                    let j = choose|j: int| 0 <= j < t[p].children.len() && t[p].children[j] == c as NodeId;
                    assert(t[t[p].children[j] as int].parent == Some(p as NodeId));
                }
            }
            lemma_filter_absent(t[p].children, c as NodeId);
        }
    }
    assert(sp.contains(r));
    let i = pos(sp, r);
    assert(sp[i] == r);
    let k2 = insert_before_spec(t, p, c, Some(r)).0[p].children;
    assert(k2 == sp.subrange(0, i) + seq![c as NodeId] + sp.subrange(i, sp.len() as int));
    assert(k2[i] == c as NodeId);
    assert(k2[i + 1] == r);
    assert(k2.remove(i) =~= sp);
    assert(seq![c as NodeId].contains(c as NodeId)) by {
        assert(seq![c as NodeId][0] == c as NodeId);
    }
}

/// Appending a node (not a document) puts it last and keeps every other child
/// of the parent in its order.
pub proof fn law_append_child_keeps_order(t: Seq<NodeView>, p: int, c: int)
    requires
        links_wf(t),
        valid(t, p),
        valid(t, c),
        !(t[c].data is Document),
        insert_before_spec(t, p, c, None).1 is Ok,
    ensures
        insert_before_spec(t, p, c, None).0[p].children == t[p].children.filter(other_than(c as NodeId)).push(c as NodeId),
{
    let ids = splice_ids_spec(t, c);
    assert(ids =~= seq![c as NodeId]);
    assert(ids[0] == c as NodeId);
    let s = splice_spec(t, c);
    let sp = s[p].children;
    assert(p != c) by {
        lemma_sreaches_refl(t, p);
        assert(insert_keeps_wf(t, p, c));
    }
    assert(links_ok(t));
    assert(children_ok(t, p));
    assert(parent_ok(t, c));
    assert(sp == t[p].children.filter(other_than(c as NodeId))) by {
        if t[c].parent == Some(p as NodeId) {
            let i0 = pos(t[p].children, c as NodeId);
            assert(t[p].children.contains(c as NodeId));
            assert(t[p].children[i0] == c as NodeId);
            lemma_filter_once(t[p].children, c as NodeId, i0);
        } else {
            assert(sp == t[p].children);
            assert(!t[p].children.contains(c as NodeId)) by {
                if t[p].children.contains(c as NodeId) {
                    let j = choose|j: int| 0 <= j < t[p].children.len() && t[p].children[j] == c as NodeId;
                    assert(t[t[p].children[j] as int].parent == Some(p as NodeId));
                }
            }
            lemma_filter_absent(t[p].children, c as NodeId);
        }
    }
    let k2 = insert_before_spec(t, p, c, None).0[p].children;
    assert(k2 =~= sp.push(c as NodeId));
}

/// Appending text to `p`: text after a text node extends that node, and
/// nothing else changes; after anything else (or into an empty node) it is a
/// new text node holding exactly the text, appended last, and every node that
/// was there keeps its payload.
pub proof fn law_append_text(t: Seq<NodeView>, p: int, text: Seq<char>)
    requires
        links_wf(t),
        valid(t, p),
    ensures
        ({
            let t2 = append_text_spec(t, p, text);
            let kids = t[p].children;
            if kids.len() > 0 && t[kids.last() as int].data is Text {
                &&& t2.len() == t.len()
                &&& t2[kids.last() as int].data == DataView::Text { contents: t[kids.last() as int].data->Text_contents + text }
                &&& t2[kids.last() as int].children == t[kids.last() as int].children
                &&& t2[kids.last() as int].parent == t[kids.last() as int].parent
                &&& forall|i: int| 0 <= i < t.len() && i != kids.last() as int ==> #[trigger] t2[i] == t[i]
            } else {
                &&& t2.len() == t.len() + 1
                &&& t2[t.len() as int].data == DataView::Text { contents: text }
                &&& t2[t.len() as int].parent == Some(p as NodeId)
                &&& t2[t.len() as int].children.len() == 0
                &&& t2[p].children == kids.push(t.len() as NodeId)
                &&& forall|i: int| 0 <= i < t.len() ==> (#[trigger] t2[i]).data == t[i].data
            }
        }),
{
    let kids = t[p].children;
    if kids.len() > 0 && t[kids.last() as int].data is Text {
    } else {
        let t1 = t.push(fresh(DataView::Text { contents: text }));
        let x = t.len() as NodeId;
        let t2 = append_text_spec(t, p, text);
        assert(t2 == insert_spec(t1, p, kids.len() as int, seq![x]));
        assert(seq![x].contains(x)) by {
            assert(seq![x][0] == x);
        }
        assert(t2[p].children =~= kids.push(x));
        assert(t2[t.len() as int].data == t1[t.len() as int].data);
    }
}

/// Which nodes the element queries give: of a list of nodes, exactly those
/// that are elements, in their order. So every id that `element_children` or
/// `descendants` gives is an element.
pub proof fn law_element_ids_are_the_elements(t: Seq<NodeView>, s: Seq<NodeId>)
    ensures
        element_ids(t, s) == s.filter(|x: NodeId| t[x as int].data is Element),
        forall|k: int| 0 <= k < element_ids(t, s).len() ==> t[#[trigger] element_ids(t, s)[k] as int].data is Element,
    decreases s.len(),
{
    reveal(Seq::filter);
    if s.len() > 0 {
        law_element_ids_are_the_elements(t, s.drop_last());
        let rest = element_ids(t, s.drop_last());
        if t[s.last() as int].data is Element {
            assert forall|k: int| 0 <= k < rest.push(s.last()).len() implies t[#[trigger] rest.push(s.last())[k] as int].data is Element by {
                if k < rest.len() {
                    assert(rest.push(s.last())[k] == rest[k]);
                }
            }
        }
    }
}

/// What `to_text` reads: the text of a list of nodes is the text of its parts,
/// one after the other; a text node gives its contents, and any other node
/// gives nothing. So a subtree without text nodes reads as empty.
pub proof fn law_texts_read_text_nodes_only(t: Seq<NodeView>, a: Seq<NodeId>, b: Seq<NodeId>, x: NodeId)
    requires
        valid(t, x as int),
    ensures
        texts(t, Seq::empty()) == Seq::<char>::empty(),
        texts(t, a + b) == texts(t, a) + texts(t, b),
        texts(t, seq![x]) == match t[x as int].data {
            DataView::Text { contents } => contents,
            _ => Seq::<char>::empty(),
        },
        (forall|k: int| 0 <= k < a.len() ==> !(t[#[trigger] a[k] as int].data is Text)) ==> texts(t, a) == Seq::<char>::empty(),
{
    lemma_texts_append(t, a, b);
    assert(seq![x].drop_last() =~= Seq::<NodeId>::empty());
    assert(seq![x].last() == x);
    lemma_texts_none(t, a);
}

proof fn lemma_texts_none(t: Seq<NodeView>, a: Seq<NodeId>)
    ensures
        (forall|k: int| 0 <= k < a.len() ==> !(t[#[trigger] a[k] as int].data is Text)) ==> texts(t, a) == Seq::<char>::empty(),
    decreases a.len(),
{
    if a.len() > 0 {
        lemma_texts_none(t, a.drop_last());
        if forall|k: int| 0 <= k < a.len() ==> !(t[#[trigger] a[k] as int].data is Text) {
            assert forall|k: int| 0 <= k < a.drop_last().len() implies !(t[#[trigger] a.drop_last()[k] as int].data is Text) by {
                assert(a.drop_last()[k] == a[k]);
            }
            assert(!(t[a[a.len() - 1] as int].data is Text));
            assert(Seq::<char>::empty() + Seq::<char>::empty() =~= Seq::<char>::empty());
        }
    }
}

/// Removing an attribute takes out only the first attribute by that name and
/// keeps the others in their order; without one by that name, nothing changes.
pub proof fn law_remove_attr_keeps_order(attrs: Seq<(QNameView, Seq<char>)>, name: Seq<char>)
    ensures
        (forall|k: int| 0 <= k < attrs.len() ==> (#[trigger] attrs[k]).0.local != name) ==> remove_attr_spec(attrs, name) == attrs,
        forall|i: int|
            0 <= i < attrs.len() && (#[trigger] attrs[i]).0.local == name && (forall|j: int| 0 <= j < i ==> (#[trigger] attrs[j]).0.local != name)
                ==> remove_attr_spec(attrs, name) == attrs.subrange(0, i) + attrs.subrange(i + 1, attrs.len() as int),
{
    assert forall|i: int|
        0 <= i < attrs.len() && (#[trigger] attrs[i]).0.local == name && (forall|j: int| 0 <= j < i ==> (#[trigger] attrs[j]).0.local != name)
            implies remove_attr_spec(attrs, name) == attrs.subrange(0, i) + attrs.subrange(i + 1, attrs.len() as int) by {
        assert(is_attr_at(attrs, name, i));
        lemma_attr_index(attrs, name, i);
        assert(attrs.remove(i) =~= attrs.subrange(0, i) + attrs.subrange(i + 1, attrs.len() as int));
    }
}

/// Detaching a child takes it out of its parent's child list and keeps the
/// other children in their order; no other node changes but the child, which
/// loses its parent.
pub proof fn law_detach_keeps_order(t: Seq<NodeView>, c: int)
    requires
        tree_wf(t),
        valid(t, c),
        t[c].parent is Some,
    ensures
        ({
            let p = t[c].parent->0 as int;
            let t2 = detach_spec(t, c);
            &&& t2.len() == t.len()
            &&& t2[p].children == t[p].children.filter(other_than(c as NodeId))
            &&& t2[p].data == t[p].data
            &&& t2[c].parent is None
            &&& t2[c].children == t[c].children
            &&& t2[c].data == t[c].data
            &&& forall|i: int| 0 <= i < t.len() && i != p && i != c ==> #[trigger] t2[i] == t[i]
        }),
{
    let p = t[c].parent->0 as int;
    assert(links_ok(t));
    assert(parent_ok(t, c));
    assert(children_ok(t, p));
    let kids = t[p].children;
    let j = choose|j: int| 0 <= j < kids.len() && kids[j] == c as NodeId;
    lemma_pos_unique(kids, c as NodeId, j);
    lemma_filter_once(kids, c as NodeId, j);
    assert(p != c) by {
        let rk = choose|rk: spec_fn(int) -> nat| crate::tree::ranked(t, rk);
        assert(rk(t[c].parent->0 as int) < rk(c));
    }
}

/// Setting an attribute: where one by that name is there, the first of them
/// takes the new value in place, name and position kept, and nothing else
/// changes; otherwise the attribute is added last, with no namespace.
pub proof fn law_set_attr_keeps_order(attrs: Seq<(QNameView, Seq<char>)>, name: Seq<char>, value: Seq<char>)
    ensures
        (forall|k: int| 0 <= k < attrs.len() ==> (#[trigger] attrs[k]).0.local != name) ==> set_attr_spec(attrs, name, value)
            == attrs.push((QNameView { prefix: None, ns: Seq::empty(), local: name }, value)),
        forall|i: int|
            0 <= i < attrs.len() && (#[trigger] attrs[i]).0.local == name && (forall|j: int| 0 <= j < i ==> (#[trigger] attrs[j]).0.local != name)
                ==> set_attr_spec(attrs, name, value) == attrs.update(i, (attrs[i].0, value)),
{
    assert forall|i: int|
        0 <= i < attrs.len() && (#[trigger] attrs[i]).0.local == name && (forall|j: int| 0 <= j < i ==> (#[trigger] attrs[j]).0.local != name)
            implies set_attr_spec(attrs, name, value) == attrs.update(i, (attrs[i].0, value)) by {
        assert(is_attr_at(attrs, name, i));
        lemma_attr_index(attrs, name, i);
    }
}

/// Inserting text before `sibling` (as the tree builder does): after a text
/// node it extends that node, and nothing else changes; otherwise it is a new
/// text node holding exactly the text, put right before `sibling`, with the
/// parent's other children in their order and every node that was there
/// keeping its payload.
pub proof fn law_text_before(t: Seq<NodeView>, sibling: int, text: Seq<char>)
    requires
        links_wf(t),
        valid(t, sibling),
        t[sibling].parent is Some,
    ensures
        ({
            let p = t[sibling].parent->0 as int;
            let kids = t[p].children;
            let t2 = text_before_spec(t, sibling, text);
            let i = kids.index_of(sibling as NodeId);
            &&& 0 <= i < kids.len()
            &&& kids[i] == sibling as NodeId
            &&& if i > 0 && t[kids[i - 1] as int].data is Text {
                &&& t2.len() == t.len()
                &&& t2[kids[i - 1] as int].data == DataView::Text { contents: t[kids[i - 1] as int].data->Text_contents + text }
                &&& forall|y: int| 0 <= y < t.len() && y != kids[i - 1] as int ==> #[trigger] t2[y] == t[y]
            } else {
                &&& t2.len() == t.len() + 1
                &&& t2[t.len() as int].data == DataView::Text { contents: text }
                &&& t2[t.len() as int].parent == Some(p as NodeId)
                &&& t2[p].children == kids.insert(i, t.len() as NodeId)
                &&& t2[p].children[i + 1] == sibling as NodeId
                &&& forall|y: int| 0 <= y < t.len() ==> (#[trigger] t2[y]).data == t[y].data
            }
        }),
{
    let p = t[sibling].parent->0 as int;
    assert(links_ok(t));
    assert(parent_ok(t, sibling));
    let kids = t[p].children;
    assert(kids.contains(sibling as NodeId));
    let i = kids.index_of(sibling as NodeId);
    assert(kids[i] == sibling as NodeId);
    if i > 0 && t[kids[i - 1] as int].data is Text {
    } else {
        let x = t.len() as NodeId;
        let t1 = t.push(fresh(DataView::Text { contents: text }));
        let t2 = text_before_spec(t, sibling, text);
        assert(t2 == insert_spec(t1, p, i, seq![x]));
        assert(seq![x].contains(x)) by {
            assert(seq![x][0] == x);
        }
        assert(t2[p].children =~= kids.insert(i, x));
        assert(t2[t.len() as int].data == t1[t.len() as int].data);
    }
}

/// Moving a node's children to another node puts them, in order, after the
/// other node's own children, and leaves the first node childless.
pub proof fn law_reparent_children(t: Seq<NodeView>, node: int, new_parent: int)
    requires
        links_wf(t),
        valid(t, node),
        valid(t, new_parent),
        node != new_parent,
    ensures
        reparent_spec(t, node, new_parent)[new_parent].children == t[new_parent].children + t[node].children,
        reparent_spec(t, node, new_parent)[node].children.len() == 0,
        forall|k: int| 0 <= k < t[node].children.len() ==> reparent_spec(t, node, new_parent)[#[trigger] t[node].children[k] as int].parent
            == Some(new_parent as NodeId),
        forall|y: int| 0 <= y < t.len() ==> (#[trigger] reparent_spec(t, node, new_parent)[y]).data == t[y].data,
{
    let kids = t[node].children;
    let s = take_children_spec(t, node);
    assert(links_ok(t));
    assert(children_ok(t, node));
    let r = reparent_spec(t, node, new_parent);
    assert(s[new_parent].children == t[new_parent].children);
    assert(r[new_parent].children =~= t[new_parent].children + kids);
    assert forall|k: int| 0 <= k < kids.len() implies r[#[trigger] kids[k] as int].parent == Some(new_parent as NodeId) by {
        assert(kids.contains(kids[k]));
    }
}

/// A fragment parse's clean-up: the wrapper (the document's first element
/// child) gives way to its children, in order, at its place among the
/// document's children; it is left detached and empty, and no payload changes.
pub proof fn law_fragment_lifts_wrapper(t: Seq<NodeView>, k: int)
    requires
        links_wf(t),
        0 <= k < t[0].children.len(),
        t[t[0].children[k] as int].data is Element,
        forall|j: int| 0 <= j < k ==> !(t[#[trigger] t[0].children[j] as int].data is Element),
    ensures
        ({
            let kids0 = t[0].children;
            let w = kids0[k] as int;
            let r = fragment_spec(t);
            &&& r[0].children == kids0.subrange(0, k) + t[w].children + kids0.subrange(k + 1, kids0.len() as int)
            &&& r[w].parent is None
            &&& r[w].children.len() == 0
            &&& r.len() == t.len()
            &&& forall|y: int| 0 <= y < t.len() ==> (#[trigger] r[y]).data == t[y].data
        }),
{
    let kids0 = t[0].children;
    let w = kids0[k] as int;
    assert(links_ok(t));
    assert(children_ok(t, 0));
    assert(first_element_pos(t, kids0) == Some(k)) by {
        let q = choose|q: int| 0 <= q < kids0.len() && t[kids0[q] as int].data is Element
            && forall|j: int| 0 <= j < q ==> !(t[#[trigger] kids0[j] as int].data is Element);
        if q < k {
        } else if q > k {
            assert(!(t[kids0[k] as int].data is Element));
        }
    }
    assert(valid(t, w));
    assert(t[w].parent == Some(0usize));
    assert(w != 0);
    let s1 = take_children_spec(t, w);
    assert(s1[0].children == kids0);
    assert(s1[w].parent == Some(0usize)) by {
        assert(children_ok(t, w));
        if t[w].children.contains(w as NodeId) {
            let m = choose|m: int| 0 <= m < t[w].children.len() && t[w].children[m] == w as NodeId;
            assert(t[t[w].children[m] as int].parent == Some(w as NodeId));
        }
    }
    lemma_pos_unique(kids0, w as NodeId, k);
    let s2 = detach_spec(s1, w);
    assert(s2[0].children == kids0.remove(k));
    let r = fragment_spec(t);
    assert(r == insert_spec(s2, 0, k, t[w].children));
    assert(r[0].children =~= kids0.subrange(0, k) + t[w].children + kids0.subrange(k + 1, kids0.len() as int));
    assert(!t[w].children.contains(w as NodeId)) by {
        assert(children_ok(t, w));
        if t[w].children.contains(w as NodeId) {
            let m = choose|m: int| 0 <= m < t[w].children.len() && t[w].children[m] == w as NodeId;
            assert(t[t[w].children[m] as int].parent == Some(w as NodeId));
        }
    }
}

/// Adding attributes that are missing keeps the ones there in place, in
/// order, and only adds attributes from those given; each given attribute's
/// name is then there.
pub proof fn law_add_missing(existing: Seq<(QNameView, Seq<char>)>, attrs: Seq<(QNameView, Seq<char>)>)
    ensures
        add_missing(existing, attrs).len() >= existing.len(),
        add_missing(existing, attrs).subrange(0, existing.len() as int) == existing,
        forall|i: int| existing.len() <= i < add_missing(existing, attrs).len() ==> attrs.contains(#[trigger] add_missing(existing, attrs)[i]),
        forall|j: int| 0 <= j < attrs.len() ==> exists|i: int| 0 <= i < add_missing(existing, attrs).len() && (#[trigger] add_missing(existing, attrs)[i]).0 == (#[trigger] attrs[j]).0,
    decreases attrs.len(),
{
    if attrs.len() > 0 {
        let d = attrs.drop_last();
        law_add_missing(existing, d);
        let e = add_missing(existing, d);
        let r = add_missing(existing, attrs);
        assert forall|i: int| existing.len() <= i < r.len() implies attrs.contains(#[trigger] r[i]) by {
            if i < e.len() {
                assert(r[i] == e[i]);
                assert(d.contains(e[i]));
                let m = choose|m: int| 0 <= m < d.len() && d[m] == e[i];
                assert(attrs[m] == d[m]);
            } else {
                assert(r[i] == attrs.last());
                assert(attrs[attrs.len() - 1] == attrs.last());
            }
        }
        assert forall|j: int| 0 <= j < attrs.len() implies exists|i: int| 0 <= i < r.len() && (#[trigger] r[i]).0 == (#[trigger] attrs[j]).0 by {
            if j < d.len() {
                assert(attrs[j] == d[j]);
                let i = choose|i: int| 0 <= i < e.len() && (#[trigger] e[i]).0 == d[j].0;
                assert(r[i] == e[i]);
            } else {
                if exists|m: int| 0 <= m < e.len() && (#[trigger] e[m]).0 == attrs.last().0 {
                    let m = choose|m: int| 0 <= m < e.len() && (#[trigger] e[m]).0 == attrs.last().0;
                    assert(r[m] == e[m]);
                } else {
                    assert(r[e.len() as int] == attrs.last());
                }
            }
        }
        assert(r.subrange(0, existing.len() as int) =~= existing) by {
            assert forall|i: int| 0 <= i < existing.len() implies r[i] == existing[i] by {
                assert(r[i] == e[i]);
                assert(e.subrange(0, existing.len() as int)[i] == e[i]);
            }
        }
    } else {
        assert(existing.subrange(0, existing.len() as int) =~= existing);
    }
}

} // verus!
