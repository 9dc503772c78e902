//! Navigational selectors: structural moves from a node to its relatives.

use crate::document::{children_of, is_array, is_object, member_of, DocView, Document};
use crate::identity::IdentitySet;
use crate::matchset::{
    dedup_by_node, first_per_node, lemma_first_per_node, lemma_node_set_empty, node_set,
    push_if_new,
};
use crate::path::{distinct_nodes, paths_view, JsonPath, PathView};
use crate::selector::{lemma_paths_view_push, select_each, stepped, Selector, Step};
use vstd::prelude::*;

verus! {

/// Selects the element at `index`, counted from 0, of each match of `inner`
/// that is an array with more than `index` elements.
pub struct At<S> {
    pub inner: S,
    pub index: usize,
}

impl<S: Selector> Step for At<S> {
    open spec fn outputs(&self, doc: DocView, x: PathView) -> Seq<PathView> {
        let elements = children_of(doc, x.last());
        if is_array(doc, x.last()) && self.index < elements.len() {
            seq![x.push(elements[self.index as int])]
        } else {
            Seq::empty()
        }
    }

    fn emit(&self, doc: &Document, x: &JsonPath, out: &mut Vec<JsonPath>) {
        let r = x.node();
        if let Some(crate::document::Kind::Array) = doc.kind(r) {
            if doc.child_count(r) > self.index {
                let found = x.descendant(doc.child(r, self.index));
                proof {
                    lemma_paths_view_push(out@, found);
                }
                out.push(found);
            }
        }
        assert(paths_view(out@) =~= paths_view(old(out)@) + self.outputs(doc@, x@));
    }
}

impl<S: Selector> Selector for At<S> {
    open spec fn matches(&self, doc: DocView, input: PathView) -> Seq<PathView> {
        stepped(self, doc, self.inner.matches(doc, input))
    }

    fn select(&self, doc: &Document, input: &JsonPath) -> (out: Vec<JsonPath>) {
        select_each(&self.inner, self, doc, input)
    }
}

/// Selects the member named `name` of each match of `inner` that is an
/// object with a member of exactly that name.
pub struct Key<S> {
    pub inner: S,
    pub name: String,
}

impl<S: Selector> Step for Key<S> {
    open spec fn outputs(&self, doc: DocView, x: PathView) -> Seq<PathView> {
        match member_of(doc, x.last(), self.name@) {
            Some(m) => seq![x.push(m)],
            None => Seq::empty(),
        }
    }

    fn emit(&self, doc: &Document, x: &JsonPath, out: &mut Vec<JsonPath>) {
        match doc.member(x.node(), &self.name) {
            Some(m) => {
                let found = x.descendant(m);
                proof {
                    lemma_paths_view_push(out@, found);
                }
                out.push(found);
            },
            None => {},
        }
        assert(paths_view(out@) =~= paths_view(old(out)@) + self.outputs(doc@, x@));
    }
}

impl<S: Selector> Selector for Key<S> {
    open spec fn matches(&self, doc: DocView, input: PathView) -> Seq<PathView> {
        stepped(self, doc, self.inner.matches(doc, input))
    }

    fn select(&self, doc: &Document, input: &JsonPath) -> (out: Vec<JsonPath>) {
        select_each(&self.inner, self, doc, input)
    }
}

/// The paths from `x` to each child of its node, in document order.
pub open spec fn child_paths(doc: DocView, x: PathView) -> Seq<PathView> {
    let children = children_of(doc, x.last());
    Seq::new(children.len(), |k: int| x.push(children[k]))
}

/// Selects every child of each match of `inner`: the elements of an array
/// in array order, the members of an object in document order, and nothing
/// of any other node.
pub struct Child<S> {
    pub inner: S,
}

impl<S: Selector> Step for Child<S> {
    open spec fn outputs(&self, doc: DocView, x: PathView) -> Seq<PathView> {
        if is_array(doc, x.last()) || is_object(doc, x.last()) {
            child_paths(doc, x)
        } else {
            Seq::empty()
        }
    }

    fn emit(&self, doc: &Document, x: &JsonPath, out: &mut Vec<JsonPath>) {
        let r = x.node();
        let fans_out = match doc.kind(r) {
            Some(crate::document::Kind::Array) => true,
            Some(crate::document::Kind::Object) => true,
            _ => false,
        };
        if fans_out {
            let n = doc.child_count(r);
            let mut k: usize = 0;
            assert(paths_view(out@) =~= paths_view(old(out)@) + child_paths(doc@, x@).take(0));
            while k < n
                invariant
                    doc.wf(),
                    k <= n,
                    r == x@.last(),
                    n == children_of(doc@, r).len(),
                    paths_view(out@) == paths_view(old(out)@) + child_paths(doc@, x@).take(
                        k as int,
                    ),
                decreases n - k,
            {
                let found = x.descendant(doc.child(r, k));
                proof {
                    lemma_paths_view_push(out@, found);
                    assert(child_paths(doc@, x@).take(k + 1) =~= child_paths(doc@, x@).take(
                        k as int,
                    ).push(found@));
                }
                out.push(found);
                k += 1;
                assert(paths_view(out@) =~= paths_view(old(out)@) + child_paths(doc@, x@).take(
                    k as int,
                ));
            }
            assert(child_paths(doc@, x@).take(n as int) =~= child_paths(doc@, x@));
        } else {
            assert(paths_view(out@) =~= paths_view(old(out)@) + self.outputs(doc@, x@));
        }
    }
}

impl<S: Selector> Selector for Child<S> {
    open spec fn matches(&self, doc: DocView, input: PathView) -> Seq<PathView> {
        stepped(self, doc, self.inner.matches(doc, input))
    }

    fn select(&self, doc: &Document, input: &JsonPath) -> (out: Vec<JsonPath>) {
        select_each(&self.inner, self, doc, input)
    }
}

/// Selects the parent of each match of `inner` that is not a root. Over the
/// whole evaluation only the first path to each parent node is yielded.
pub struct Parent<S> {
    pub inner: S,
}

impl<S: Selector> Step for Parent<S> {
    /// The candidate from one match of `inner`, before duplicates are
    /// dropped.
    open spec fn outputs(&self, doc: DocView, x: PathView) -> Seq<PathView> {
        if x.len() > 1 {
            seq![x.drop_last()]
        } else {
            Seq::empty()
        }
    }

    fn emit(&self, doc: &Document, x: &JsonPath, out: &mut Vec<JsonPath>) {
        proof {
            x.lemma_nonempty();
        }
        match x.parent() {
            Some(p) => {
                proof {
                    lemma_paths_view_push(out@, p);
                }
                out.push(p);
            },
            None => {},
        }
        assert(paths_view(out@) =~= paths_view(old(out)@) + self.outputs(doc@, x@));
    }
}

impl<S: Selector> Selector for Parent<S> {
    open spec fn matches(&self, doc: DocView, input: PathView) -> Seq<PathView> {
        first_per_node(stepped(self, doc, self.inner.matches(doc, input)))
    }

    fn select(&self, doc: &Document, input: &JsonPath) -> (out: Vec<JsonPath>)
        ensures
            distinct_nodes(paths_view(out@)),
    {
        let candidates = select_each(&self.inner, self, doc, input);
        proof {
            lemma_first_per_node(paths_view(candidates@));
        }
        dedup_by_node(&candidates)
    }
}

/// The paths `out` followed by the ancestors of `x` from its parent
/// upwards, as far as the first one whose node `out` or an ancestor before
/// it designates already.
pub open spec fn climb(x: PathView, out: Seq<PathView>) -> Seq<PathView>
    decreases x.len(),
{
    if x.len() > 1 && !node_set(out).contains(x.drop_last().last()) {
        climb(x.drop_last(), out.push(x.drop_last()))
    } else {
        out
    }
}

/// The climbs from each of the paths `xs` in turn, each going on from what
/// the ones before it have yielded.
pub open spec fn climb_all(xs: Seq<PathView>) -> Seq<PathView>
    decreases xs.len(),
{
    if xs.len() == 0 {
        Seq::empty()
    } else {
        climb(xs.last(), climb_all(xs.drop_last()))
    }
}

/// Appends to `out` the ancestors of `input`, nearest first, and stops at
/// the first one whose node has been yielded already.
pub fn ascend_helper(input: &JsonPath, seen: &mut IdentitySet, out: &mut Vec<JsonPath>)
    requires
        old(seen)@ == node_set(paths_view(old(out)@)),
    ensures
        final(seen)@ == node_set(paths_view(final(out)@)),
        paths_view(final(out)@) == climb(input@, paths_view(old(out)@)),
{
    let ghost goal = climb(input@, paths_view(out@));
    let mut cur = input.clone();
    loop
        invariant
            seen@ == node_set(paths_view(out@)),
            climb(cur@, paths_view(out@)) == goal,
        ensures
            seen@ == node_set(paths_view(out@)),
            paths_view(out@) == goal,
        decreases cur@.len(),
    {
        proof {
            cur.lemma_nonempty();
        }
        match cur.parent() {
            Some(p) => {
                if push_if_new(&p, seen, out) {
                    cur = p;
                } else {
                    break ;
                }
            },
            None => {
                break ;
            },
        }
    }
}

/// Selects every ancestor of each match of `inner`, from its parent up to
/// the root. A climb stops at the first ancestor whose node the evaluation
/// has yielded already, so no node is yielded twice.
pub struct Ascend<S> {
    pub inner: S,
}

impl<S: Selector> Selector for Ascend<S> {
    open spec fn matches(&self, doc: DocView, input: PathView) -> Seq<PathView> {
        climb_all(self.inner.matches(doc, input))
    }

    fn select(&self, doc: &Document, input: &JsonPath) -> (out: Vec<JsonPath>)
        ensures
            distinct_nodes(paths_view(out@)),
    {
        let found = self.inner.select(doc, input);
        let ghost xs = paths_view(found@);
        proof {
            crate::laws::lemma_climb_all_distinct(xs);
        }
        let mut seen = IdentitySet::new();
        let mut out: Vec<JsonPath> = Vec::new();
        proof {
            assert(paths_view(out@) =~= Seq::<PathView>::empty());
            lemma_node_set_empty();
        }
        let mut i: usize = 0;
        while i < found.len()
            invariant
                i <= found.len(),
                xs == paths_view(found@),
                seen@ == node_set(paths_view(out@)),
                paths_view(out@) == climb_all(xs.take(i as int)),
            decreases found.len() - i,
        {
            ascend_helper(&found[i], &mut seen, &mut out);
            proof {
                assert(xs.take(i + 1).drop_last() =~= xs.take(i as int));
            }
            i += 1;
        }
        assert(xs.take(found.len() as int) =~= xs);
        out
    }
}

} // verus!
