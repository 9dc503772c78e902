//! The query entry point: one selector run against one document.

use crate::document::{Document, NodeRef};
use crate::path::{nodes_of, paths_view, JsonPath};
use crate::selector::Selector;
use vstd::prelude::*;

verus! {

impl Document {
    /// Runs the selector `s` from the root of the document and returns the
    /// node of each path that it matches, in the order of the matches.
    pub fn query<S: Selector>(&self, s: S) -> (out: Vec<NodeRef>)
        requires
            self.wf(),
        ensures
            out@ == nodes_of(s.matches(self@, seq![NodeRef::Doc(0)])),
    {
        let root = JsonPath::root(self.root());
        let found = s.select(self, &root);
        let ghost paths = paths_view(found@);
        let mut out: Vec<NodeRef> = Vec::new();
        let mut i: usize = 0;
        while i < found.len()
            invariant
                i <= found.len(),
                paths == paths_view(found@),
                out@ == nodes_of(paths.take(i as int)),
            decreases found.len() - i,
        {
            out.push(found[i].node());
            i += 1;
            assert(out@ =~= nodes_of(paths.take(i as int)));
        }
        assert(paths.take(found.len() as int) =~= paths);
        out
    }
}

} // verus!
