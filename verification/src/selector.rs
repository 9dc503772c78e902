//! The selector contract and the trivial selector.

use crate::combine::{AndSel, Diff, Intersect, OrSel, Union, Wherein};
use crate::descend::Descend;
use crate::document::{DocView, Document};
use crate::filter::{BooleanSel, F64Sel, I64Sel, ListSel, NullSel, ObjectSel, StringSel, U64Sel};
use crate::navigate::{Ascend, At, Child, Key, Parent};
use crate::path::{paths_view, JsonPath, PathView};
use vstd::prelude::*;

verus! {

/// A selector: given the path to one node, it matches a sequence of paths.
/// What it matches is a function of the selector, the document and the
/// input path alone.
pub trait Selector: Sized {
    /// The paths that this selector matches from `input`, in the order in
    /// which it yields them.
    spec fn matches(&self, doc: DocView, input: PathView) -> Seq<PathView>;

    /// Evaluates the selector from `input`.
    fn select(&self, doc: &Document, input: &JsonPath) -> (out: Vec<JsonPath>)
        requires
            doc.wf(),
        ensures
            paths_view(out@) == self.matches(doc@, input@),
    ;

    /// Selects the current node where it is a boolean.
    fn boolean(self) -> (r: BooleanSel<Self>)
        ensures
            r.inner == self,
    {
        BooleanSel { inner: self }
    }

    /// Selects the current node where it is an unsigned integer.
    fn uint64(self) -> (r: U64Sel<Self>)
        ensures
            r.inner == self,
    {
        U64Sel { inner: self }
    }

    /// Selects the current node where it is a signed integer.
    fn int64(self) -> (r: I64Sel<Self>)
        ensures
            r.inner == self,
    {
        I64Sel { inner: self }
    }

    /// Selects the current node where it is a binary64 number.
    fn float64(self) -> (r: F64Sel<Self>)
        ensures
            r.inner == self,
    {
        F64Sel { inner: self }
    }

    /// Selects the current node where it is a string.
    fn string(self) -> (r: StringSel<Self>)
        ensures
            r.inner == self,
    {
        StringSel { inner: self }
    }

    /// Selects the current node where it is an object.
    fn object(self) -> (r: ObjectSel<Self>)
        ensures
            r.inner == self,
    {
        ObjectSel { inner: self }
    }

    /// Selects the current node where it is an array.
    fn list(self) -> (r: ListSel<Self>)
        ensures
            r.inner == self,
    {
        ListSel { inner: self }
    }

    /// Selects the current node where it is null.
    fn null(self) -> (r: NullSel<Self>)
        ensures
            r.inner == self,
    {
        NullSel { inner: self }
    }

    /// Selects the children of the current node: the elements of an array,
    /// the members of an object.
    fn child(self) -> (r: Child<Self>)
        ensures
            r.inner == self,
    {
        Child { inner: self }
    }

    /// Selects the parent of the current node, where it has one.
    fn parent(self) -> (r: Parent<Self>)
        ensures
            r.inner == self,
    {
        Parent { inner: self }
    }

    /// Selects the children of the current node and all their descendants.
    fn descend(self) -> (r: Descend<Self>)
        ensures
            r.inner == self,
    {
        Descend { inner: self }
    }

    /// Selects the ancestors of the current node, from its parent up to the
    /// root.
    fn ascend(self) -> (r: Ascend<Self>)
        ensures
            r.inner == self,
    {
        Ascend { inner: self }
    }

    /// Selects the element at `index`, counted from 0, where the current
    /// node is an array with more than `index` elements.
    fn at(self, index: usize) -> (r: At<Self>)
        ensures
            r.inner == self,
            r.index == index,
    {
        At { inner: self, index }
    }

    /// Selects the member named `name`, where the current node is an object
    /// that has one.
    fn key(self, name: &str) -> (r: Key<Self>)
        ensures
            r.inner == self,
            r.name@ == name@,
    {
        Key { inner: self, name: name.to_owned() }
    }
}

/// The selectors that take a filter: every selector is one.
pub trait Filtering<T: Selector>: Selector {
    /// Selects the current node where `filter` selects something from it.
    fn wherein(self, filter: T) -> (r: Wherein<Self, T>)
        ensures
            r.inner == self,
            r.filter == filter,
    {
        Wherein { inner: self, filter }
    }
}

impl<S: Selector, T: Selector> Filtering<T> for S {

}

/// The selectors that combine two further selectors: every selector is one.
pub trait Combining<T1: Selector, T2: Selector>: Selector {
    /// Selects what `left` or `right` selects from the current node.
    fn union(self, left: T1, right: T2) -> (r: Union<Self, T1, T2>)
        ensures
            r.inner == self,
            r.left == left,
            r.right == right,
    {
        Union { inner: self, left, right }
    }

    /// Selects what both `left` and `right` select from the current node.
    fn intersect(self, left: T1, right: T2) -> (r: Intersect<Self, T1, T2>)
        ensures
            r.inner == self,
            r.left == left,
            r.right == right,
    {
        Intersect { inner: self, left, right }
    }

    /// Selects what `left` selects from the current node and `right` does
    /// not.
    fn diff(self, left: T1, right: T2) -> (r: Diff<Self, T1, T2>)
        ensures
            r.inner == self,
            r.left == left,
            r.right == right,
    {
        Diff { inner: self, left, right }
    }

    /// Signals, by one match, that both `left` and `right` select something
    /// from the current node.
    fn and(self, left: T1, right: T2) -> (r: AndSel<Self, T1, T2>)
        ensures
            r.inner == self,
            r.left == left,
            r.right == right,
    {
        AndSel { inner: self, left, right }
    }

    /// Signals, by one match, that `left` or `right` selects something from
    /// the current node.
    fn or(self, left: T1, right: T2) -> (r: OrSel<Self, T1, T2>)
        ensures
            r.inner == self,
            r.left == left,
            r.right == right,
    {
        OrSel { inner: self, left, right }
    }
}

impl<S: Selector, T1: Selector, T2: Selector> Combining<T1, T2> for S {

}

/// What a selector makes of one match of the selector that it wraps, where
/// each such match is treated on its own.
pub trait Step {
    /// The paths yielded for the match `x` of the wrapped selector.
    spec fn outputs(&self, doc: DocView, x: PathView) -> Seq<PathView>;

    /// Appends to `out` the paths yielded for the match `x`.
    fn emit(&self, doc: &Document, x: &JsonPath, out: &mut Vec<JsonPath>)
        requires
            doc.wf(),
        ensures
            paths_view(final(out)@) == paths_view(old(out)@) + self.outputs(doc@, x@),
    ;
}

/// The outputs of `step` for each of the matches `xs` in turn.
pub open spec fn stepped<T: Step>(step: &T, doc: DocView, xs: Seq<PathView>) -> Seq<PathView>
    decreases xs.len(),
{
    if xs.len() == 0 {
        Seq::empty()
    } else {
        stepped(step, doc, xs.drop_last()) + step.outputs(doc, xs.last())
    }
}

/// Just `x` where `cond` holds, nothing otherwise.
pub open spec fn keep_if(cond: bool, x: PathView) -> Seq<PathView> {
    if cond {
        seq![x]
    } else {
        Seq::empty()
    }
}

/// Pushing a path onto a vector pushes its content onto the vector's content.
pub proof fn lemma_paths_view_push(paths: Seq<JsonPath>, p: JsonPath)
    ensures
        paths_view(paths.push(p)) == paths_view(paths).push(p@),
{
    assert(paths_view(paths.push(p)) =~= paths_view(paths).push(p@));
}

/// Runs `inner` from `input` and lets `step` treat each of its matches.
pub fn select_each<S: Selector, T: Step>(
    inner: &S,
    step: &T,
    doc: &Document,
    input: &JsonPath,
) -> (out: Vec<JsonPath>)
    requires
        doc.wf(),
    ensures
        paths_view(out@) == stepped(step, doc@, inner.matches(doc@, input@)),
{
    let found = inner.select(doc, input);
    let ghost xs = paths_view(found@);
    let mut out: Vec<JsonPath> = Vec::new();
    let mut i: usize = 0;
    assert(paths_view(out@) =~= Seq::<PathView>::empty());
    while i < found.len()
        invariant
            doc.wf(),
            i <= found.len(),
            xs == paths_view(found@),
            paths_view(out@) == stepped(step, doc@, xs.take(i as int)),
        decreases found.len() - i,
    {
        step.emit(doc, &found[i], &mut out);
        proof {
            assert(xs.take(i + 1).drop_last() =~= xs.take(i as int));
        }
        i += 1;
    }
    assert(xs.take(found.len() as int) =~= xs);
    out
}

/// The trivial selector: it matches the input path and nothing else.
#[derive(Clone, Copy, Debug)]
pub struct Node {}

impl Selector for Node {
    open spec fn matches(&self, doc: DocView, input: PathView) -> Seq<PathView> {
        seq![input]
    }

    fn select(&self, doc: &Document, input: &JsonPath) -> (out: Vec<JsonPath>) {
        let mut out: Vec<JsonPath> = Vec::new();
        out.push(input.clone());
        assert(paths_view(out@) =~= seq![input@]);
        out
    }
}

/// The trivial selector, from which every chain of selectors starts.
pub fn node() -> (s: Node)
    ensures
        s == (Node {}),
{
    Node {}
}

/// The selector `node().boolean()`.
pub fn boolean() -> (r: BooleanSel<Node>)
    ensures
        r == (BooleanSel { inner: Node {} }),
{
    node().boolean()
}

/// The selector `node().uint64()`.
pub fn uint64() -> (r: U64Sel<Node>)
    ensures
        r == (U64Sel { inner: Node {} }),
{
    node().uint64()
}

/// The selector `node().int64()`.
pub fn int64() -> (r: I64Sel<Node>)
    ensures
        r == (I64Sel { inner: Node {} }),
{
    node().int64()
}

/// The selector `node().float64()`.
pub fn float64() -> (r: F64Sel<Node>)
    ensures
        r == (F64Sel { inner: Node {} }),
{
    node().float64()
}

/// The selector `node().string()`.
pub fn string() -> (r: StringSel<Node>)
    ensures
        r == (StringSel { inner: Node {} }),
{
    node().string()
}

/// The selector `node().object()`.
pub fn object() -> (r: ObjectSel<Node>)
    ensures
        r == (ObjectSel { inner: Node {} }),
{
    node().object()
}

/// The selector `node().list()`.
pub fn list() -> (r: ListSel<Node>)
    ensures
        r == (ListSel { inner: Node {} }),
{
    node().list()
}

/// The selector `node().null()`.
pub fn null() -> (r: NullSel<Node>)
    ensures
        r == (NullSel { inner: Node {} }),
{
    node().null()
}

/// The selector `node().child()`.
pub fn child() -> (r: Child<Node>)
    ensures
        r == (Child { inner: Node {} }),
{
    node().child()
}

/// The selector `node().parent()`.
pub fn parent() -> (r: Parent<Node>)
    ensures
        r == (Parent { inner: Node {} }),
{
    node().parent()
}

/// The selector `node().descend()`.
pub fn descend() -> (r: Descend<Node>)
    ensures
        r == (Descend { inner: Node {} }),
{
    node().descend()
}

/// The selector `node().ascend()`.
pub fn ascend() -> (r: Ascend<Node>)
    ensures
        r == (Ascend { inner: Node {} }),
{
    node().ascend()
}

/// The selector `node().at(index)`.
pub fn at(index: usize) -> (r: At<Node>)
    ensures
        r == (At { inner: Node {}, index }),
{
    node().at(index)
}

/// The selector `node().key(name)`.
pub fn key(name: &str) -> (r: Key<Node>)
    ensures
        r.inner == (Node {}),
        r.name@ == name@,
{
    node().key(name)
}

/// The selector `node().wherein(filter)`.
pub fn wherein<T: Selector>(filter: T) -> (r: Wherein<Node, T>)
    ensures
        r == (Wherein { inner: Node {}, filter }),
{
    node().wherein(filter)
}

/// The selector `node().union(left, right)`.
pub fn union<T1: Selector, T2: Selector>(left: T1, right: T2) -> (r: Union<Node, T1, T2>)
    ensures
        r == (Union { inner: Node {}, left, right }),
{
    node().union(left, right)
}

/// The selector `node().intersect(left, right)`.
pub fn intersect<T1: Selector, T2: Selector>(left: T1, right: T2) -> (r: Intersect<Node, T1, T2>)
    ensures
        r == (Intersect { inner: Node {}, left, right }),
{
    node().intersect(left, right)
}

/// The selector `node().diff(left, right)`.
pub fn diff<T1: Selector, T2: Selector>(left: T1, right: T2) -> (r: Diff<Node, T1, T2>)
    ensures
        r == (Diff { inner: Node {}, left, right }),
{
    node().diff(left, right)
}

/// The selector `node().and(left, right)`.
pub fn and<T1: Selector, T2: Selector>(left: T1, right: T2) -> (r: AndSel<Node, T1, T2>)
    ensures
        r == (AndSel { inner: Node {}, left, right }),
{
    node().and(left, right)
}

/// The selector `node().or(left, right)`.
pub fn or<T1: Selector, T2: Selector>(left: T1, right: T2) -> (r: OrSel<Node, T1, T2>)
    ensures
        r == (OrSel { inner: Node {}, left, right }),
{
    node().or(left, right)
}

} // verus!
