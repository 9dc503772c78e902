//! Match sets: sequences of paths in which each node is to occur once.

use crate::document::NodeRef;
use crate::identity::IdentitySet;
use crate::path::{distinct_nodes, paths_view, JsonPath, PathView};
use crate::selector::lemma_paths_view_push;
use vstd::prelude::*;

verus! {

/// The set of nodes that the paths designate.
pub open spec fn node_set(paths: Seq<PathView>) -> Set<NodeRef> {
    Set::new(|r: NodeRef| exists|i: int| 0 <= i < paths.len() && (#[trigger] paths[i]).last() == r)
}

/// The paths without every path whose node an earlier path designates
/// already: the first path to each node, in the order given.
pub open spec fn first_per_node(paths: Seq<PathView>) -> Seq<PathView>
    decreases paths.len(),
{
    if paths.len() == 0 {
        Seq::empty()
    } else {
        let head = first_per_node(paths.drop_last());
        if node_set(head).contains(paths.last().last()) {
            head
        } else {
            head.push(paths.last())
        }
    }
}

/// The paths whose node is not in `banned`, in the order given.
pub open spec fn without(paths: Seq<PathView>, banned: Set<NodeRef>) -> Seq<PathView>
    decreases paths.len(),
{
    if paths.len() == 0 {
        Seq::empty()
    } else {
        let head = without(paths.drop_last(), banned);
        if banned.contains(paths.last().last()) {
            head
        } else {
            head.push(paths.last())
        }
    }
}

/// One more path adds its node to the set.
pub proof fn lemma_node_set_push(paths: Seq<PathView>, p: PathView)
    ensures
        node_set(paths.push(p)) == node_set(paths).insert(p.last()),
{
    let longer = paths.push(p);
    assert forall|r: NodeRef| node_set(longer).contains(r) <==> node_set(paths).insert(
        p.last(),
    ).contains(r) by {
        if node_set(longer).contains(r) {
            let i = choose|i: int| 0 <= i < longer.len() && (#[trigger] longer[i]).last() == r;
            if i < paths.len() {
                assert(paths[i].last() == r);
            }
        }
        if node_set(paths).contains(r) {
            let i = choose|i: int| 0 <= i < paths.len() && (#[trigger] paths[i]).last() == r;
            assert(longer[i].last() == r);
        }
        if r == p.last() {
            assert(longer[paths.len() as int].last() == r);
        }
    }
    assert(node_set(longer) =~= node_set(paths).insert(p.last()));
}

/// No paths designate no nodes.
pub proof fn lemma_node_set_empty()
    ensures
        node_set(Seq::<PathView>::empty()) == Set::<NodeRef>::empty(),
{
    assert(node_set(Seq::<PathView>::empty()) =~= Set::<NodeRef>::empty());
}

/// Keeping the first path to each node loses no node and repeats none.
pub proof fn lemma_first_per_node(paths: Seq<PathView>)
    ensures
        distinct_nodes(first_per_node(paths)),
        node_set(first_per_node(paths)) == node_set(paths),
    decreases paths.len(),
{
    if paths.len() == 0 {
        assert(node_set(first_per_node(paths)) =~= node_set(paths));
    } else {
        let front = paths.drop_last();
        let head = first_per_node(front);
        lemma_first_per_node(front);
        assert(front.push(paths.last()) =~= paths);
        lemma_node_set_push(front, paths.last());
        if node_set(head).contains(paths.last().last()) {
            assert(node_set(paths) =~= node_set(head));
        } else {
            lemma_node_set_push(head, paths.last());
            let kept = head.push(paths.last());
            assert forall|i: int, j: int| 0 <= i < j < kept.len() implies (#[trigger] kept[i]).last()
                != (#[trigger] kept[j]).last() by {
                if j == head.len() {
                    assert(head[i].last() == kept[i].last());
                } else {
                    assert(head[i] == kept[i] && head[j] == kept[j]);
                }
            }
        }
    }
}

/// The nodes of two sequences of paths put together are those of the one
/// and those of the other.
pub proof fn lemma_node_set_add(a: Seq<PathView>, b: Seq<PathView>)
    ensures
        node_set(a + b) == node_set(a).union(node_set(b)),
    decreases b.len(),
{
    if b.len() == 0 {
        assert(a + b =~= a);
        lemma_node_set_empty();
        assert(node_set(a).union(node_set(b)) =~= node_set(a));
    } else {
        let front = b.drop_last();
        lemma_node_set_add(a, front);
        assert(a + b =~= (a + front).push(b.last()));
        assert(b =~= front.push(b.last()));
        lemma_node_set_push(a + front, b.last());
        lemma_node_set_push(front, b.last());
        assert(node_set(a + b) =~= node_set(a).union(node_set(b)));
    }
}

/// Dropping the paths to banned nodes leaves the paths to the other nodes.
pub proof fn lemma_without(paths: Seq<PathView>, banned: Set<NodeRef>)
    ensures
        node_set(without(paths, banned)) == node_set(paths).difference(banned),
    decreases paths.len(),
{
    if paths.len() == 0 {
        lemma_node_set_empty();
        assert(node_set(without(paths, banned)) =~= node_set(paths).difference(banned));
    } else {
        let front = paths.drop_last();
        lemma_without(front, banned);
        assert(paths =~= front.push(paths.last()));
        lemma_node_set_push(front, paths.last());
        if !banned.contains(paths.last().last()) {
            lemma_node_set_push(without(front, banned), paths.last());
        }
        assert(node_set(without(paths, banned)) =~= node_set(paths).difference(banned));
    }
}

/// Appends `p` to `out` unless `out` holds a path to the same node.
pub fn push_if_new(p: &JsonPath, seen: &mut IdentitySet, out: &mut Vec<JsonPath>) -> (added: bool)
    requires
        old(seen)@ == node_set(paths_view(old(out)@)),
    ensures
        final(seen)@ == node_set(paths_view(final(out)@)),
        added == !old(seen)@.contains(p@.last()),
        added ==> paths_view(final(out)@) == paths_view(old(out)@).push(p@),
        !added ==> paths_view(final(out)@) == paths_view(old(out)@),
{
    let r = p.node();
    if seen.contains(r) {
        false
    } else {
        let copy = p.clone();
        proof {
            lemma_paths_view_push(out@, copy);
            lemma_node_set_push(paths_view(out@), p@);
        }
        seen.insert(r);
        out.push(copy);
        true
    }
}

/// The first path to each node among `paths`, in the order given.
pub fn dedup_by_node(paths: &Vec<JsonPath>) -> (out: Vec<JsonPath>)
    ensures
        paths_view(out@) == first_per_node(paths_view(paths@)),
{
    let ghost xs = paths_view(paths@);
    let mut seen = IdentitySet::new();
    let mut out: Vec<JsonPath> = Vec::new();
    proof {
        assert(paths_view(out@) =~= Seq::<PathView>::empty());
        lemma_node_set_empty();
    }
    let mut i: usize = 0;
    while i < paths.len()
        invariant
            i <= paths.len(),
            xs == paths_view(paths@),
            seen@ == node_set(paths_view(out@)),
            paths_view(out@) == first_per_node(xs.take(i as int)),
        decreases paths.len() - i,
    {
        push_if_new(&paths[i], &mut seen, &mut out);
        proof {
            assert(xs.take(i + 1).drop_last() =~= xs.take(i as int));
        }
        i += 1;
    }
    assert(xs.take(paths.len() as int) =~= xs);
    out
}

} // verus!
