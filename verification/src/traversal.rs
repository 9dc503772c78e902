//! What a traversal of the descendants yields: every node below its
//! starting points, each of them once.

use crate::descend::{lemma_child_ranks_lower, rank, walk, walk_all, walk_children, Descend, Walk};
use crate::document::{children_of, parent_of, slot_attached, slot_wf, tree_wf, DocView, NodeRef};
use crate::laws::lemma_distinct_nodes_no_duplicates;
use crate::path::{distinct_nodes, nodes_of, PathView};
use crate::selector::{Node, Selector};
use vstd::prelude::*;

verus! {

/// Some path of `out` at position `from` or later designates the node `r`.
pub open spec fn yielded_from(out: Seq<PathView>, from: int, r: NodeRef) -> bool {
    exists|i: int| from <= i < out.len() && (#[trigger] out[i]).last() == r
}

/// The state `later` continues the state `st`: nothing yielded or expanded
/// is lost.
pub open spec fn continues(st: Walk, later: Walk) -> bool {
    &&& st.out.len() <= later.out.len()
    &&& forall|i: int| 0 <= i < st.out.len() ==> #[trigger] later.out[i] == st.out[i]
    &&& forall|s: NodeRef| st.seen.contains(s) ==> #[trigger] later.seen.contains(s)
}

/// The node `s` was expanded between `st` and `later`.
pub open spec fn fresh(st: Walk, later: Walk, s: NodeRef) -> bool {
    later.seen.contains(s) && !st.seen.contains(s)
}

/// Every child of `s` has been expanded by `later` and was yielded after `st`.
pub open spec fn children_done(t: DocView, st: Walk, later: Walk, s: NodeRef) -> bool {
    forall|m: int|
        0 <= m < children_of(t, s).len() ==> later.seen.contains(
            #[trigger] children_of(t, s)[m],
        ) && yielded_from(later.out, st.out.len() as int, children_of(t, s)[m])
}

/// The node `e`, yielded after `st` while the children of `j` from number
/// `k` on were traversed, is a child of a node expanded since, or one of
/// those children of `j`.
pub open spec fn yielded_well(
    t: DocView,
    j: NodeRef,
    k: int,
    st: Walk,
    later: Walk,
    e: NodeRef,
) -> bool {
    match parent_of(t, e) {
        Some(p) => fresh(st, later, p) || (p == j && forall|m: int|
            0 <= m < k && m < children_of(t, j).len() ==> #[trigger] children_of(t, j)[m] != e),
        None => false,
    }
}

/// What the traversal of the children of `j` from number `k` on adds to a
/// state in which `j` counts as expanded.
pub open spec fn children_walked(t: DocView, j: NodeRef, k: int, st: Walk, later: Walk) -> bool {
    let from = st.out.len() as int;
    &&& continues(st, later)
    &&& forall|i: int|
        from <= i < later.out.len() ==> yielded_well(t, j, k, st, later, (#[trigger] later.out[i]).last())
    &&& forall|i: int, l: int|
        from <= i < l < later.out.len() ==> (#[trigger] later.out[i]).last() != (
        #[trigger] later.out[l]).last()
    &&& forall|s: NodeRef| #[trigger]
        fresh(st, later, s) ==> children_done(t, st, later, s) && yielded_from(later.out, from, s)
    &&& forall|m: int|
        k <= m < children_of(t, j).len() ==> later.seen.contains(
            #[trigger] children_of(t, j)[m],
        ) && yielded_from(later.out, from, children_of(t, j)[m])
}

/// What the traversal below the node `j` adds to a state: every path it
/// yields leads to a child of a node that it expanded, no two of them to
/// the same node; and of every node that it expanded, `j` or a node that
/// it yielded, it yielded and expanded every child.
pub open spec fn walked(t: DocView, j: NodeRef, st: Walk, later: Walk) -> bool {
    let from = st.out.len() as int;
    &&& continues(st, later)
    &&& later.seen.contains(j)
    &&& forall|i: int|
        from <= i < later.out.len() ==> match parent_of(t, (#[trigger] later.out[i]).last()) {
            Some(p) => fresh(st, later, p),
            None => false,
        }
    &&& forall|i: int, l: int|
        from <= i < l < later.out.len() ==> (#[trigger] later.out[i]).last() != (
        #[trigger] later.out[l]).last()
    &&& forall|s: NodeRef| #[trigger]
        fresh(st, later, s) ==> children_done(t, st, later, s) && (s == j || yielded_from(
            later.out,
            from,
            s,
        ))
}

/// In a tree, the parent of the child number `k` of a node of the arena is
/// that node, and the children before it are other nodes.
pub proof fn lemma_child_of(t: DocView, j: NodeRef, k: int)
    requires
        tree_wf(t),
        0 <= k < children_of(t, j).len(),
    ensures
        parent_of(t, children_of(t, j)[k]) == Some(j),
        forall|m: int| 0 <= m < k ==> #[trigger] children_of(t, j)[m] != children_of(t, j)[k],
{
    let i = j->Doc_0 as int;
    assert(slot_wf(t, i));
}

/// A traversal below a path adds what `walked` says.
pub proof fn lemma_walk(t: DocView, x: PathView, st: Walk)
    requires
        tree_wf(t),
    ensures
        walked(t, x.last(), st, walk(t, x, st)),
    decreases rank(t, x.last()), 1int, 0int,
{
    let j = x.last();
    let later = walk(t, x, st);
    if !st.seen.contains(j) {
        let st1 = Walk { out: st.out, seen: st.seen.insert(j) };
        lemma_walk_children(t, x, 0, st1);
        assert(children_walked(t, j, 0, st1, later));
        let from = st.out.len() as int;
        assert forall|i: int| from <= i < later.out.len() implies match parent_of(
            t,
            (#[trigger] later.out[i]).last(),
        ) {
            Some(p) => fresh(st, later, p),
            None => false,
        } by {
            assert(yielded_well(t, j, 0, st1, later, later.out[i].last()));
        }
        assert forall|s: NodeRef| #[trigger] fresh(st, later, s) implies children_done(
            t,
            st,
            later,
            s,
        ) && (s == j || yielded_from(later.out, from, s)) by {
            if s == j {
                assert forall|m: int| 0 <= m < children_of(t, s).len() implies later.seen.contains(
                    #[trigger] children_of(t, s)[m],
                ) && yielded_from(later.out, from, children_of(t, s)[m]) by {}
            } else {
                assert(fresh(st1, later, s));
                assert(children_done(t, st1, later, s));
            }
        }
    }
}

/// The traversal of a node's children from number `k` on adds what
/// `children_walked` says.
pub proof fn lemma_walk_children(t: DocView, x: PathView, k: int, st: Walk)
    requires
        tree_wf(t),
        st.seen.contains(x.last()),
        0 <= k,
    ensures
        children_walked(t, x.last(), k, st, walk_children(t, x, k, st)),
    decreases rank(t, x.last()), 0int, children_of(t, x.last()).len() - k,
{
    let j = x.last();
    let children = children_of(t, j);
    let later = walk_children(t, x, k, st);
    let from = st.out.len() as int;
    if k < children.len() {
        let c = children[k];
        let cp = x.push(c);
        let st1 = Walk { out: st.out.push(cp), seen: st.seen };
        let st2 = walk(t, cp, st1);
        lemma_child_ranks_lower(t, j, k);
        lemma_child_of(t, j, k);
        lemma_walk(t, cp, st1);
        assert(walked(t, c, st1, st2));
        lemma_walk_children(t, x, k + 1, st2);
        assert(children_walked(t, j, k + 1, st2, later));
        let mid = st2.out.len() as int;
        assert(st1.out[from] == cp);
        assert(st2.out[from] == cp);
        assert(later.out[from] == cp);
        assert(continues(st, later)) by {
            assert forall|i: int| 0 <= i < st.out.len() implies #[trigger] later.out[i]
                == st.out[i] by {
                assert(st1.out[i] == st.out[i]);
                assert(st2.out[i] == st1.out[i]);
                assert(later.out[i] == st2.out[i]);
            }
        }
        assert forall|i: int| from <= i < later.out.len() implies yielded_well(
            t,
            j,
            k,
            st,
            later,
            (#[trigger] later.out[i]).last(),
        ) by {
            let e = later.out[i].last();
            if i == from {
            } else if i < mid {
                assert(later.out[i] == st2.out[i]);
                let p = parent_of(t, st2.out[i].last())->Some_0;
                assert(fresh(st1, st2, p));
                assert(fresh(st, later, p));
            } else {
                assert(yielded_well(t, j, k + 1, st2, later, e));
                let p = parent_of(t, e)->Some_0;
                if fresh(st2, later, p) {
                    assert(fresh(st, later, p));
                }
            }
        }
        assert forall|i: int, l: int| from <= i < l < later.out.len() implies (
        #[trigger] later.out[i]).last() != (#[trigger] later.out[l]).last() by {
            let a = later.out[i].last();
            let b = later.out[l].last();
            if l < mid {
                assert(later.out[l] == st2.out[l]);
                assert(later.out[i] == st2.out[i]);
                let pb = parent_of(t, st2.out[l].last())->Some_0;
                assert(fresh(st1, st2, pb));
                if i == from {
                    assert(pb != j);
                }
            } else {
                assert(yielded_well(t, j, k + 1, st2, later, b));
                let pb = parent_of(t, b)->Some_0;
                if i == from {
                    if fresh(st2, later, pb) {
                        assert(pb != j);
                    } else {
                        assert(children[k] != b);
                    }
                } else if i < mid {
                    assert(later.out[i] == st2.out[i]);
                    let pa = parent_of(t, st2.out[i].last())->Some_0;
                    assert(fresh(st1, st2, pa));
                    assert(pa != pb);
                }
            }
        }
        assert forall|s: NodeRef| #[trigger] fresh(st, later, s) implies children_done(
            t,
            st,
            later,
            s,
        ) && yielded_from(later.out, from, s) by {
            if st2.seen.contains(s) {
                assert(fresh(st1, st2, s));
                assert(children_done(t, st1, st2, s));
                assert forall|m: int| 0 <= m < children_of(t, s).len() implies later.seen.contains(
                    #[trigger] children_of(t, s)[m],
                ) && yielded_from(later.out, from, children_of(t, s)[m]) by {
                    let r = children_of(t, s)[m];
                    assert(yielded_from(st2.out, st1.out.len() as int, r));
                    let i = choose|i: int|
                        st1.out.len() <= i < st2.out.len() && (#[trigger] st2.out[i]).last() == r;
                    assert(later.out[i] == st2.out[i]);
                }
                if s != c {
                    assert(yielded_from(st2.out, st1.out.len() as int, s));
                    let i = choose|i: int|
                        st1.out.len() <= i < st2.out.len() && (#[trigger] st2.out[i]).last() == s;
                    assert(later.out[i] == st2.out[i]);
                }
            } else {
                assert(fresh(st2, later, s));
                assert(children_done(t, st2, later, s));
                assert forall|m: int| 0 <= m < children_of(t, s).len() implies later.seen.contains(
                    #[trigger] children_of(t, s)[m],
                ) && yielded_from(later.out, from, children_of(t, s)[m]) by {
                    let r = children_of(t, s)[m];
                    assert(yielded_from(later.out, mid, r));
                }
                assert(yielded_from(later.out, mid, s));
            }
        }
        assert forall|m: int| k <= m < children.len() implies later.seen.contains(
            #[trigger] children_of(t, j)[m],
        ) && yielded_from(later.out, from, children_of(t, j)[m]) by {
            if m == k {
            } else {
                assert(yielded_from(later.out, mid, children_of(t, j)[m]));
            }
        }
    }
}

/// Every path of the state leads to a child of an expanded node, and no
/// two paths lead to the same node.
pub open spec fn tidy(t: DocView, st: Walk) -> bool {
    &&& distinct_nodes(st.out)
    &&& forall|i: int|
        0 <= i < st.out.len() ==> match parent_of(t, (#[trigger] st.out[i]).last()) {
            Some(p) => st.seen.contains(p),
            None => false,
        }
}

/// A traversal below a path keeps a state tidy.
pub proof fn lemma_walk_tidy(t: DocView, x: PathView, st: Walk)
    requires
        tree_wf(t),
        tidy(t, st),
    ensures
        tidy(t, walk(t, x, st)),
{
    let later = walk(t, x, st);
    let from = st.out.len() as int;
    lemma_walk(t, x, st);
    assert forall|i: int| 0 <= i < later.out.len() implies match parent_of(
        t,
        (#[trigger] later.out[i]).last(),
    ) {
        Some(p) => later.seen.contains(p),
        None => false,
    } by {
        if i < from {
            assert(later.out[i] == st.out[i]);
        }
    }
    assert forall|i: int, l: int| 0 <= i < l < later.out.len() implies (
    #[trigger] later.out[i]).last() != (#[trigger] later.out[l]).last() by {
        if l < from {
            assert(later.out[i] == st.out[i] && later.out[l] == st.out[l]);
        } else if i < from {
            assert(later.out[i] == st.out[i]);
            let pa = parent_of(t, st.out[i].last())->Some_0;
            let pb = parent_of(t, later.out[l].last())->Some_0;
            assert(st.seen.contains(pa));
            assert(fresh(st, later, pb));
        }
    }
}

/// Traversals below any paths, one after the other on one state, leave
/// it tidy.
pub proof fn lemma_walk_all_tidy(t: DocView, xs: Seq<PathView>)
    requires
        tree_wf(t),
    ensures
        tidy(t, walk_all(t, xs)),
    decreases xs.len(),
{
    if xs.len() > 0 {
        lemma_walk_all_tidy(t, xs.drop_last());
        lemma_walk_tidy(t, xs.last(), walk_all(t, xs.drop_last()));
    }
}

/// On a tree, `descend()` never yields two paths to one node, whatever it
/// wraps and however its matches overlap.
pub proof fn lemma_descend_distinct<S: Selector>(sel: Descend<S>, doc: DocView, input: PathView)
    requires
        tree_wf(doc),
    ensures
        distinct_nodes(sel.matches(doc, input)),
        nodes_of(sel.matches(doc, input)).no_duplicates(),
{
    lemma_walk_all_tidy(doc, sel.inner.matches(doc, input));
    lemma_distinct_nodes_no_duplicates(sel.matches(doc, input));
}

/// The node `r` is a node of the arena that lies below the node `j`: `j` is
/// its parent, or the parent of its parent, and so on.
pub open spec fn below(t: DocView, r: NodeRef, j: NodeRef) -> bool
    decreases
            match r {
                NodeRef::Doc(c) => c as int,
                NodeRef::Truth => 0,
            },
{
    match r {
        NodeRef::Doc(c) => if c < t.len() {
            match t[c as int].parent {
                Some(p) => p < c && (NodeRef::Doc(p) == j || below(t, NodeRef::Doc(p), j)),
                None => false,
            }
        } else {
            false
        },
        NodeRef::Truth => false,
    }
}

/// What a traversal from an empty state yields lies below its start.
proof fn lemma_yielded_is_below(t: DocView, j: NodeRef, later: Walk, r: NodeRef)
    requires
        tree_wf(t),
        walked(t, j, Walk { out: Seq::empty(), seen: Set::empty() }, later),
        yielded_from(later.out, 0, r),
    ensures
        below(t, r, j),
    decreases
            match r {
                NodeRef::Doc(c) => c as int,
                NodeRef::Truth => 0,
            },
{
    let st = Walk { out: Seq::empty(), seen: Set::empty() };
    let i = choose|i: int| 0 <= i < later.out.len() && (#[trigger] later.out[i]).last() == r;
    let p = parent_of(t, later.out[i].last())->Some_0;
    assert(fresh(st, later, p));
    let c = r->Doc_0 as int;
    assert(slot_attached(t, c)) by {
        if c == 0 {
        }
    }
    if p != j {
        assert(yielded_from(later.out, 0, p));
        lemma_yielded_is_below(t, j, later, p);
    }
}

/// A traversal from an empty state yields, and expands, what lies below
/// its start.
proof fn lemma_below_is_yielded(t: DocView, j: NodeRef, later: Walk, r: NodeRef)
    requires
        tree_wf(t),
        walked(t, j, Walk { out: Seq::empty(), seen: Set::empty() }, later),
        below(t, r, j),
    ensures
        yielded_from(later.out, 0, r),
        later.seen.contains(r),
    decreases
            match r {
                NodeRef::Doc(c) => c as int,
                NodeRef::Truth => 0,
            },
{
    let st = Walk { out: Seq::empty(), seen: Set::empty() };
    let c = r->Doc_0 as int;
    let p = NodeRef::Doc(t[c].parent->Some_0);
    if p != j {
        lemma_below_is_yielded(t, j, later, p);
    }
    assert(fresh(st, later, p));
    assert(children_done(t, st, later, p));
    assert(slot_attached(t, c)) by {
        if c == 0 {
        }
    }
    let siblings = t[p->Doc_0 as int].children;
    let m = choose|m: int| 0 <= m < siblings.len() && siblings[m] == c as usize;
    assert(children_of(t, p)[m] == r);
}

/// On a tree, `descend()` from a path yields exactly the nodes below the
/// node of that path, each of them once.
pub proof fn lemma_descend_reaches(doc: DocView, x: PathView)
    requires
        tree_wf(doc),
    ensures
        distinct_nodes((Descend { inner: Node {} }).matches(doc, x)),
        forall|r: NodeRef|
            yielded_from((Descend { inner: Node {} }).matches(doc, x), 0, r) <==> below(
                doc,
                r,
                x.last(),
            ),
{
    let sel = Descend { inner: Node {} };
    let st = Walk { out: Seq::empty(), seen: Set::empty() };
    let xs = seq![x];
    assert(xs.drop_last() =~= Seq::<PathView>::empty());
    assert(walk_all(doc, xs.drop_last()) == st);
    assert(sel.matches(doc, x) == walk(doc, x, st).out);
    let later = walk(doc, x, st);
    lemma_walk(doc, x, st);
    lemma_descend_distinct(sel, doc, x);
    assert forall|r: NodeRef| yielded_from(later.out, 0, r) <==> below(doc, r, x.last()) by {
        if yielded_from(later.out, 0, r) {
            lemma_yielded_is_below(doc, x.last(), later, r);
        }
        if below(doc, r, x.last()) {
            lemma_below_is_yielded(doc, x.last(), later, r);
        }
    }
}

/// In a tree, every node of the arena but the root lies below the root.
pub proof fn lemma_all_below_root(t: DocView, c: int)
    requires
        tree_wf(t),
        1 <= c < t.len(),
    ensures
        below(t, NodeRef::Doc(c as usize), NodeRef::Doc(0)),
    decreases c,
{
    assert(slot_attached(t, c));
    let p = t[c].parent->Some_0 as int;
    if p != 0 {
        lemma_all_below_root(t, p);
    }
}

/// On a tree, `descend()` from the root yields every node but the root,
/// each of them once: as many paths as the document has nodes, less one.
pub proof fn lemma_descend_from_root(doc: DocView)
    requires
        tree_wf(doc),
    ensures
        (Descend { inner: Node {} }).matches(doc, seq![NodeRef::Doc(0)]).len() == doc.len() - 1,
        forall|c: usize|
            1 <= c < doc.len() ==> #[trigger] yielded_from(
                (Descend { inner: Node {} }).matches(doc, seq![NodeRef::Doc(0)]),
                0,
                NodeRef::Doc(c),
            ),
{
    let root = seq![NodeRef::Doc(0)];
    let out = (Descend { inner: Node {} }).matches(doc, root);
    let nodes = nodes_of(out);
    lemma_descend_reaches(doc, root);
    lemma_distinct_nodes_no_duplicates(out);
    nodes.unique_seq_to_set();
    let range = vstd::set_lib::set_int_range(1, doc.len() as int);
    let name = |c: int| NodeRef::Doc(c as usize);
    vstd::set_lib::lemma_int_range(1, doc.len() as int);
    assert forall|c: usize| 1 <= c < doc.len() implies #[trigger] yielded_from(
        out,
        0,
        NodeRef::Doc(c),
    ) by {
        lemma_all_below_root(doc, c as int);
    }
    assert forall|r: NodeRef| nodes.to_set().contains(r) <==> range.map(name).contains(r) by {
        if nodes.to_set().contains(r) {
            let i = choose|i: int| 0 <= i < nodes.len() && nodes[i] == r;
            assert(out[i].last() == r);
            assert(yielded_from(out, 0, r));
            assert(below(doc, r, NodeRef::Doc(0)));
            let c = r->Doc_0 as int;
            assert(range.contains(c) && name(c) == r);
        }
        if range.map(name).contains(r) {
            let c = choose|c: int| range.contains(c) && name(c) == r;
            assert(yielded_from(out, 0, NodeRef::Doc(c as usize)));
            let i = choose|i: int| 0 <= i < out.len() && (#[trigger] out[i]).last() == r;
            assert(nodes[i] == r);
        }
    }
    assert(nodes.to_set() =~= range.map(name));
    assert(vstd::relations::injective_on(name, range));
    vstd::set_lib::lemma_map_size(range, nodes.to_set(), name);
}

} // verus!
