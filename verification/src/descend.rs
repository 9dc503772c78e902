//! The selector of all descendants.

use crate::document::{children_of, tree_wf, DocView, Document, NodeRef};
use crate::identity::IdentitySet;
use crate::path::{distinct_nodes, paths_view, JsonPath, PathView};
use crate::selector::{lemma_paths_view_push, Selector};
use vstd::prelude::*;

verus! {

/// The state of a traversal: the paths yielded so far, and the nodes whose
/// children have been, or are being, yielded.
pub struct Walk {
    pub out: Seq<PathView>,
    pub seen: Set<NodeRef>,
}

/// How far the node `r` is from the end of the arena; every child ranks
/// below its parent.
pub open spec fn rank(doc: DocView, r: NodeRef) -> nat {
    match r {
        NodeRef::Doc(i) => if i < doc.len() {
            (doc.len() - i) as nat
        } else {
            0
        },
        NodeRef::Truth => 0,
    }
}

/// The traversal below the path `x`: nothing where the node of `x` has been
/// expanded before; otherwise the node counts as expanded from now on, and
/// each of its children in turn is yielded and then traversed itself.
pub open spec fn walk(doc: DocView, x: PathView, st: Walk) -> Walk
    decreases rank(doc, x.last()), 1int, 0int,
    when tree_wf(doc)
{
    if st.seen.contains(x.last()) {
        st
    } else {
        walk_children(doc, x, 0, Walk { out: st.out, seen: st.seen.insert(x.last()) })
    }
}

/// The part of the traversal below `x` that starts at its child number `k`.
pub open spec fn walk_children(doc: DocView, x: PathView, k: int, st: Walk) -> Walk
    decreases rank(doc, x.last()), 0int, children_of(doc, x.last()).len() - k,
    when tree_wf(doc)
{
    let children = children_of(doc, x.last());
    if 0 <= k < children.len() {
        let c = x.push(children[k]);
        proof {
            lemma_child_ranks_lower(doc, x.last(), k);
        }
        walk_children(doc, x, k + 1, walk(doc, c, Walk { out: st.out.push(c), seen: st.seen }))
    } else {
        st
    }
}

/// The traversals below each of the paths `xs` in turn, one after the
/// other on a single state.
pub open spec fn walk_all(doc: DocView, xs: Seq<PathView>) -> Walk
    decreases xs.len(),
{
    if xs.len() == 0 {
        Walk { out: Seq::empty(), seen: Set::empty() }
    } else {
        walk(doc, xs.last(), walk_all(doc, xs.drop_last()))
    }
}

/// Traverses the document below the path `input`, appending to `out` each
/// path that it yields.
pub fn descend_helper(
    doc: &Document,
    input: &JsonPath,
    seen: &mut IdentitySet,
    out: &mut Vec<JsonPath>,
)
    requires
        doc.wf(),
    ensures
        (Walk { out: paths_view(final(out)@), seen: final(seen)@ }) == walk(
            doc@,
            input@,
            Walk { out: paths_view(old(out)@), seen: old(seen)@ },
        ),
    decreases rank(doc@, input@.last()),
{
    proof {
        doc.lemma_wf_tree();
        input.lemma_nonempty();
    }
    let j = input.node();
    if !seen.contains(j) {
        seen.insert(j);
        let n = doc.child_count(j);
        let ghost goal = walk_children(
            doc@,
            input@,
            0,
            Walk { out: paths_view(out@), seen: seen@ },
        );
        let mut k: usize = 0;
        while k < n
            invariant
                doc.wf(),
                k <= n,
                n == children_of(doc@, j).len(),
                j == input@.last(),
                walk_children(
                    doc@,
                    input@,
                    k as int,
                    Walk { out: paths_view(out@), seen: seen@ },
                ) == goal,
            decreases n - k,
        {
            let c = doc.child(j, k);
            let inner = input.descendant(c);
            let ghost before = Walk { out: paths_view(out@), seen: seen@ };
            let found = inner.clone();
            proof {
                doc.lemma_wf_tree();
                lemma_paths_view_push(out@, found);
                lemma_child_ranks_lower(doc@, j, k as int);
            }
            out.push(found);
            descend_helper(doc, &inner, seen, out);
            proof {
                let after = Walk { out: paths_view(out@), seen: seen@ };
                assert(after == walk(
                    doc@,
                    inner@,
                    Walk { out: before.out.push(inner@), seen: before.seen },
                ));
                assert(walk_children(doc@, input@, k as int, before) == walk_children(
                    doc@,
                    input@,
                    k + 1,
                    after,
                ));
            }
            k += 1;
        }
    }
}

/// In a tree, each child of a node ranks strictly below the node.
pub proof fn lemma_child_ranks_lower(doc: DocView, r: NodeRef, k: int)
    requires
        tree_wf(doc),
        0 <= k < children_of(doc, r).len(),
    ensures
        rank(doc, children_of(doc, r)[k]) < rank(doc, r),
{
    let i = r->Doc_0 as int;
    assert(crate::document::slot_wf(doc, i));
}

/// Selects every descendant of each match of `inner`: the children of a
/// node in document order, each followed by its own descendants. A node's
/// children are yielded once in an evaluation, however often the node is
/// reached.
pub struct Descend<S> {
    pub inner: S,
}

impl<S: Selector> Selector for Descend<S> {
    open spec fn matches(&self, doc: DocView, input: PathView) -> Seq<PathView> {
        walk_all(doc, self.inner.matches(doc, input)).out
    }

    fn select(&self, doc: &Document, input: &JsonPath) -> (out: Vec<JsonPath>)
        ensures
            distinct_nodes(paths_view(out@)),
    {
        let found = self.inner.select(doc, input);
        let ghost xs = paths_view(found@);
        proof {
            doc.lemma_wf_tree();
            crate::traversal::lemma_walk_all_tidy(doc@, xs);
        }
        let mut seen = IdentitySet::new();
        let mut out: Vec<JsonPath> = Vec::new();
        assert(paths_view(out@) =~= Seq::<PathView>::empty());
        let mut i: usize = 0;
        while i < found.len()
            invariant
                doc.wf(),
                i <= found.len(),
                xs == paths_view(found@),
                (Walk { out: paths_view(out@), seen: seen@ }) == walk_all(doc@, xs.take(i as int)),
            decreases found.len() - i,
        {
            descend_helper(doc, &found[i], &mut seen, &mut out);
            proof {
                assert(xs.take(i + 1).drop_last() =~= xs.take(i as int));
            }
            i += 1;
        }
        assert(xs.take(found.len() as int) =~= xs);
        out
    }
}

} // verus!
