//! Breadcrumb paths: a node together with the chain of nodes that led to it.

use crate::document::NodeRef;
use vstd::prelude::*;

verus! {

/// The mathematical content of a path: the nodes from the path's root down
/// to the node it designates, which comes last.
pub type PathView = Seq<NodeRef>;

/// A path to a node: the node, and how it was reached.
#[derive(Debug)]
pub struct JsonPath {
    above: Vec<NodeRef>,
    node: NodeRef,
}

impl View for JsonPath {
    type V = PathView;

    closed spec fn view(&self) -> PathView {
        self.above@.push(self.node)
    }
}

/// The contents of a sequence of paths.
pub open spec fn paths_view(paths: Seq<JsonPath>) -> Seq<PathView> {
    Seq::new(paths.len(), |i: int| paths[i]@)
}

/// The nodes that a sequence of paths designate, in order.
pub open spec fn nodes_of(paths: Seq<PathView>) -> Seq<NodeRef> {
    Seq::new(paths.len(), |i: int| paths[i].last())
}

/// No two paths of the sequence designate the same node.
pub open spec fn distinct_nodes(paths: Seq<PathView>) -> bool {
    forall|i: int, j: int|
        0 <= i < j < paths.len() ==> (#[trigger] paths[i]).last() != (#[trigger] paths[j]).last()
}

fn copy_prefix(v: &Vec<NodeRef>, n: usize) -> (r: Vec<NodeRef>)
    requires
        n <= v@.len(),
    ensures
        r@ == v@.take(n as int),
{
    let mut r: Vec<NodeRef> = Vec::new();
    let mut i: usize = 0;
    while i < n
        invariant
            i <= n <= v@.len(),
            r@ == v@.take(i as int),
        decreases n - i,
    {
        r.push(v[i]);
        i += 1;
        assert(r@ =~= v@.take(i as int));
    }
    r
}

impl JsonPath {
    /// Every path holds at least the node it designates.
    pub proof fn lemma_nonempty(&self)
        ensures
            self@.len() >= 1,
    {
    }

    /// The path that consists of `r` alone: it has no parent.
    pub fn root(r: NodeRef) -> (p: JsonPath)
        ensures
            p@ == seq![r],
    {
        let p = JsonPath { above: Vec::new(), node: r };
        assert(p@ =~= seq![r]);
        p
    }

    /// The path to `child` whose parent is this path.
    pub fn descendant(&self, child: NodeRef) -> (p: JsonPath)
        ensures
            p@ == self@.push(child),
    {
        let mut above = copy_prefix(&self.above, self.above.len());
        above.push(self.node);
        assert(above@ =~= self@);
        JsonPath { above, node: child }
    }

    /// The node that this path designates.
    pub fn node(&self) -> (r: NodeRef)
        ensures
            r == self@.last(),
    {
        self.node
    }

    /// The path one level up, or `None` where this path is a root.
    pub fn parent(&self) -> (p: Option<JsonPath>)
        ensures
            self@.len() == 1 ==> p is None,
            self@.len() > 1 ==> p is Some && p->Some_0@ == self@.drop_last(),
    {
        let n = self.above.len();
        if n == 0 {
            None
        } else {
            let above = copy_prefix(&self.above, n - 1);
            let p = JsonPath { above, node: self.above[n - 1] };
            assert(p@ =~= self@.drop_last());
            Some(p)
        }
    }

    /// The nodes on the path, from its root down to the designated node.
    pub fn nodes(&self) -> (v: Vec<NodeRef>)
        ensures
            v@ == self@,
    {
        let mut v = copy_prefix(&self.above, self.above.len());
        v.push(self.node);
        assert(v@ =~= self@);
        v
    }
}

impl Clone for JsonPath {
    fn clone(&self) -> (p: JsonPath)
        ensures
            p@ == self@,
    {
        let above = copy_prefix(&self.above, self.above.len());
        assert(above@ =~= self.above@);
        JsonPath { above, node: self.node }
    }
}

} // verus!
