//! Combinators: selectors built from other selectors.

use crate::document::{DocView, Document, NodeRef};
use crate::identity::IdentitySet;
use crate::matchset::{
    dedup_by_node, first_per_node, lemma_first_per_node, lemma_node_set_empty,
    lemma_node_set_push, node_set, without,
};
use crate::path::{distinct_nodes, paths_view, JsonPath, PathView};
use crate::selector::{keep_if, lemma_paths_view_push, select_each, stepped, Selector, Step};
use vstd::prelude::*;

verus! {

/// Appending path vectors appends their contents.
pub proof fn lemma_paths_view_add(a: Seq<JsonPath>, b: Seq<JsonPath>)
    ensures
        paths_view(a + b) == paths_view(a) + paths_view(b),
{
    assert(paths_view(a + b) =~= paths_view(a) + paths_view(b));
}

/// The step that runs a selector from each match and yields all that it
/// matches.
pub struct Apply<'a, T> {
    pub sel: &'a T,
}

impl<'a, T: Selector> Step for Apply<'a, T> {
    open spec fn outputs(&self, doc: DocView, x: PathView) -> Seq<PathView> {
        self.sel.matches(doc, x)
    }

    fn emit(&self, doc: &Document, x: &JsonPath, out: &mut Vec<JsonPath>) {
        let mut more = self.sel.select(doc, x);
        proof {
            lemma_paths_view_add(out@, more@);
        }
        out.append(&mut more);
    }
}

/// Selects each match of `inner` from which `filter` matches at least one
/// path. It yields the match itself, once, never what `filter` matched.
pub struct Wherein<S, T> {
    pub inner: S,
    pub filter: T,
}

impl<S: Selector, T: Selector> Step for Wherein<S, T> {
    open spec fn outputs(&self, doc: DocView, x: PathView) -> Seq<PathView> {
        keep_if(self.filter.matches(doc, x).len() > 0, x)
    }

    fn emit(&self, doc: &Document, x: &JsonPath, out: &mut Vec<JsonPath>) {
        let found = self.filter.select(doc, x);
        if found.len() > 0 {
            let copy = x.clone();
            proof {
                lemma_paths_view_push(out@, copy);
            }
            out.push(copy);
        }
        assert(paths_view(out@) =~= paths_view(old(out)@) + self.outputs(doc@, x@));
    }
}

impl<S: Selector, T: Selector> Selector for Wherein<S, T> {
    open spec fn matches(&self, doc: DocView, input: PathView) -> Seq<PathView> {
        stepped(self, doc, self.inner.matches(doc, input))
    }

    fn select(&self, doc: &Document, input: &JsonPath) -> (out: Vec<JsonPath>) {
        select_each(&self.inner, self, doc, input)
    }
}

/// Selects what `left` or `right` matches from each match of `inner`: for
/// each such match the matches of `left`, then those of `right`. Over the
/// whole evaluation only the first path to each node is yielded.
pub struct Union<I, S, T> {
    pub inner: I,
    pub left: S,
    pub right: T,
}

impl<I: Selector, S: Selector, T: Selector> Step for Union<I, S, T> {
    /// The candidates from one match of `inner`, before duplicates are
    /// dropped.
    open spec fn outputs(&self, doc: DocView, x: PathView) -> Seq<PathView> {
        self.left.matches(doc, x) + self.right.matches(doc, x)
    }

    fn emit(&self, doc: &Document, x: &JsonPath, out: &mut Vec<JsonPath>) {
        let mut from_left = self.left.select(doc, x);
        let mut from_right = self.right.select(doc, x);
        proof {
            lemma_paths_view_add(out@, from_left@);
            lemma_paths_view_add(out@ + from_left@, from_right@);
        }
        out.append(&mut from_left);
        out.append(&mut from_right);
        assert(paths_view(out@) =~= paths_view(old(out)@) + self.outputs(doc@, x@));
    }
}

impl<I: Selector, S: Selector, T: Selector> Selector for Union<I, S, T> {
    open spec fn matches(&self, doc: DocView, input: PathView) -> Seq<PathView> {
        first_per_node(stepped(self, doc, self.inner.matches(doc, input)))
    }

    fn select(&self, doc: &Document, input: &JsonPath) -> (out: Vec<JsonPath>)
        ensures
            distinct_nodes(paths_view(out@)),
    {
        let candidates = select_each(&self.inner, self, doc, input);
        proof {
            lemma_first_per_node(paths_view(candidates@));
        }
        dedup_by_node(&candidates)
    }
}

/// The state of an intersection: the paths yielded so far, the nodes that
/// the selector at hand has matched, and those that the other one has.
pub struct Meet {
    pub out: Seq<PathView>,
    pub own: Set<NodeRef>,
    pub other: Set<NodeRef>,
}

/// One selector's candidates taken into an intersection: each is recorded
/// as matched by this selector, and yielded where the other selector has
/// matched its node before.
pub open spec fn meet(candidates: Seq<PathView>, st: Meet) -> Meet
    decreases candidates.len(),
{
    if candidates.len() == 0 {
        st
    } else {
        let before = meet(candidates.drop_last(), st);
        let p = candidates.last();
        Meet {
            out: if before.other.contains(p.last()) {
                before.out.push(p)
            } else {
                before.out
            },
            own: before.own.insert(p.last()),
            other: before.other,
        }
    }
}

/// The intersection over the matches `xs` of the inner selector: from each
/// in turn the candidates of `left`, then those of `right`. In the result
/// `own` holds the nodes matched by `left`, `other` those matched by `right`.
pub open spec fn meet_all<S: Selector, T: Selector>(
    left: &S,
    right: &T,
    doc: DocView,
    xs: Seq<PathView>,
) -> Meet
    decreases xs.len(),
{
    if xs.len() == 0 {
        Meet { out: Seq::empty(), own: Set::empty(), other: Set::empty() }
    } else {
        let before = meet_all(left, right, doc, xs.drop_last());
        let l = meet(left.matches(doc, xs.last()), before);
        let r = meet(
            right.matches(doc, xs.last()),
            Meet { out: l.out, own: l.other, other: l.own },
        );
        Meet { out: r.out, own: r.other, other: r.own }
    }
}

/// Takes one selector's candidates into an intersection.
pub fn meet_pass(
    candidates: &Vec<JsonPath>,
    own: &mut IdentitySet,
    other: &IdentitySet,
    out: &mut Vec<JsonPath>,
)
    ensures
        (Meet { out: paths_view(final(out)@), own: final(own)@, other: other@ }) == meet(
            paths_view(candidates@),
            Meet { out: paths_view(old(out)@), own: old(own)@, other: other@ },
        ),
{
    let ghost cs = paths_view(candidates@);
    let ghost start = Meet { out: paths_view(out@), own: own@, other: other@ };
    let mut i: usize = 0;
    while i < candidates.len()
        invariant
            i <= candidates.len(),
            cs == paths_view(candidates@),
            (Meet { out: paths_view(out@), own: own@, other: other@ }) == meet(
                cs.take(i as int),
                start,
            ),
        decreases candidates.len() - i,
    {
        let p = &candidates[i];
        let r = p.node();
        own.insert(r);
        if other.contains(r) {
            let copy = p.clone();
            proof {
                lemma_paths_view_push(out@, copy);
            }
            out.push(copy);
        }
        proof {
            assert(cs.take(i + 1).drop_last() =~= cs.take(i as int));
        }
        i += 1;
    }
    assert(cs.take(candidates.len() as int) =~= cs);
}

/// Selects the nodes that both `left` and `right` match from matches of
/// `inner`. A path is yielded when either selector matches it and the other
/// one has matched its node earlier in the evaluation, so a node that both
/// match again and again is yielded again and again.
pub struct Intersect<I, S, T> {
    pub inner: I,
    pub left: S,
    pub right: T,
}

impl<I: Selector, S: Selector, T: Selector> Selector for Intersect<I, S, T> {
    open spec fn matches(&self, doc: DocView, input: PathView) -> Seq<PathView> {
        meet_all(&self.left, &self.right, doc, self.inner.matches(doc, input)).out
    }

    fn select(&self, doc: &Document, input: &JsonPath) -> (out: Vec<JsonPath>) {
        let found = self.inner.select(doc, input);
        let ghost xs = paths_view(found@);
        let mut seen_left = IdentitySet::new();
        let mut seen_right = IdentitySet::new();
        let mut out: Vec<JsonPath> = Vec::new();
        assert(paths_view(out@) =~= Seq::<PathView>::empty());
        let mut i: usize = 0;
        while i < found.len()
            invariant
                doc.wf(),
                i <= found.len(),
                xs == paths_view(found@),
                (Meet { out: paths_view(out@), own: seen_left@, other: seen_right@ }) == meet_all(
                    &self.left,
                    &self.right,
                    doc@,
                    xs.take(i as int),
                ),
            decreases found.len() - i,
        {
            let from_left = self.left.select(doc, &found[i]);
            meet_pass(&from_left, &mut seen_left, &seen_right, &mut out);
            let from_right = self.right.select(doc, &found[i]);
            meet_pass(&from_right, &mut seen_right, &seen_left, &mut out);
            proof {
                assert(xs.take(i + 1).drop_last() =~= xs.take(i as int));
            }
            i += 1;
        }
        assert(xs.take(found.len() as int) =~= xs);
        out
    }
}

/// Selects what `left` matches from matches of `inner`, less every path to
/// a node that `right` matches from any match of `inner`. The inner selector
/// is evaluated twice: once to collect what `right` matches, once more for
/// `left`.
pub struct Diff<I, S, T> {
    pub inner: I,
    pub left: S,
    pub right: T,
}

impl<I: Selector, S: Selector, T: Selector> Selector for Diff<I, S, T> {
    open spec fn matches(&self, doc: DocView, input: PathView) -> Seq<PathView> {
        let xs = self.inner.matches(doc, input);
        without(
            stepped(&Apply { sel: &self.left }, doc, xs),
            node_set(stepped(&Apply { sel: &self.right }, doc, xs)),
        )
    }

    fn select(&self, doc: &Document, input: &JsonPath) -> (out: Vec<JsonPath>) {
        let banned = select_each(&self.inner, &Apply { sel: &self.right }, doc, input);
        let ghost bs = paths_view(banned@);
        let mut seen = IdentitySet::new();
        let mut i: usize = 0;
        proof {
            lemma_node_set_empty();
        }
        while i < banned.len()
            invariant
                i <= banned.len(),
                bs == paths_view(banned@),
                seen@ == node_set(bs.take(i as int)),
            decreases banned.len() - i,
        {
            seen.insert(banned[i].node());
            proof {
                lemma_node_set_push(bs.take(i as int), bs[i as int]);
                assert(bs.take(i + 1) =~= bs.take(i as int).push(bs[i as int]));
            }
            i += 1;
        }
        assert(bs.take(banned.len() as int) =~= bs);
        let candidates = select_each(&self.inner, &Apply { sel: &self.left }, doc, input);
        let ghost cs = paths_view(candidates@);
        let mut out: Vec<JsonPath> = Vec::new();
        assert(paths_view(out@) =~= Seq::<PathView>::empty());
        let mut j: usize = 0;
        while j < candidates.len()
            invariant
                j <= candidates.len(),
                cs == paths_view(candidates@),
                paths_view(out@) == without(cs.take(j as int), seen@),
            decreases candidates.len() - j,
        {
            if !seen.contains(candidates[j].node()) {
                let copy = candidates[j].clone();
                proof {
                    lemma_paths_view_push(out@, copy);
                }
                out.push(copy);
            }
            proof {
                assert(cs.take(j + 1).drop_last() =~= cs.take(j as int));
            }
            j += 1;
        }
        assert(cs.take(candidates.len() as int) =~= cs);
        out
    }
}

/// Signals that from a match of `inner` both `left` and `right` match
/// something: for each such match it yields the canonical `true` leaf as a
/// child of that match.
pub struct AndSel<I, S, T> {
    pub inner: I,
    pub left: S,
    pub right: T,
}

impl<I: Selector, S: Selector, T: Selector> Step for AndSel<I, S, T> {
    open spec fn outputs(&self, doc: DocView, x: PathView) -> Seq<PathView> {
        keep_if(
            self.left.matches(doc, x).len() > 0 && self.right.matches(doc, x).len() > 0,
            x.push(NodeRef::Truth),
        )
    }

    fn emit(&self, doc: &Document, x: &JsonPath, out: &mut Vec<JsonPath>) {
        let found_left = self.left.select(doc, x).len() > 0;
        let found_right = self.right.select(doc, x).len() > 0;
        if found_left && found_right {
            let signal = x.descendant(NodeRef::Truth);
            proof {
                lemma_paths_view_push(out@, signal);
            }
            out.push(signal);
        }
        assert(paths_view(out@) =~= paths_view(old(out)@) + self.outputs(doc@, x@));
    }
}

impl<I: Selector, S: Selector, T: Selector> Selector for AndSel<I, S, T> {
    open spec fn matches(&self, doc: DocView, input: PathView) -> Seq<PathView> {
        stepped(self, doc, self.inner.matches(doc, input))
    }

    fn select(&self, doc: &Document, input: &JsonPath) -> (out: Vec<JsonPath>) {
        select_each(&self.inner, self, doc, input)
    }
}

/// Signals that from a match of `inner` at least one of `left` and `right`
/// matches something: for each such match it yields the canonical `true`
/// leaf as a child of that match.
pub struct OrSel<I, S, T> {
    pub inner: I,
    pub left: S,
    pub right: T,
}

impl<I: Selector, S: Selector, T: Selector> Step for OrSel<I, S, T> {
    open spec fn outputs(&self, doc: DocView, x: PathView) -> Seq<PathView> {
        keep_if(
            self.left.matches(doc, x).len() > 0 || self.right.matches(doc, x).len() > 0,
            x.push(NodeRef::Truth),
        )
    }

    fn emit(&self, doc: &Document, x: &JsonPath, out: &mut Vec<JsonPath>) {
        let found_left = self.left.select(doc, x).len() > 0;
        let found_right = self.right.select(doc, x).len() > 0;
        if found_left || found_right {
            let signal = x.descendant(NodeRef::Truth);
            proof {
                lemma_paths_view_push(out@, signal);
            }
            out.push(signal);
        }
        assert(paths_view(out@) =~= paths_view(old(out)@) + self.outputs(doc@, x@));
    }
}

impl<I: Selector, S: Selector, T: Selector> Selector for OrSel<I, S, T> {
    open spec fn matches(&self, doc: DocView, input: PathView) -> Seq<PathView> {
        stepped(self, doc, self.inner.matches(doc, input))
    }

    fn select(&self, doc: &Document, input: &JsonPath) -> (out: Vec<JsonPath>) {
        select_each(&self.inner, self, doc, input)
    }
}

} // verus!
