//! Laws of the selectors: what holds of their matches on every document.

use crate::combine::{meet, meet_all, Apply, Diff, Intersect, Meet, Union};
use crate::document::{
    children_of, is_array, is_object, keys_of, kind_of, member_of, DocView, Kind, NodeRef,
};
use crate::filter::StringEquals;
use crate::matchset::{
    first_per_node, lemma_first_per_node, lemma_node_set_add, lemma_node_set_empty,
    lemma_node_set_push, lemma_without, node_set,
};
use crate::navigate::{child_paths, climb, climb_all, Ascend, At, Child, Key, Parent};
use crate::path::{distinct_nodes, nodes_of, PathView};
use crate::selector::{keep_if, stepped, Node, Selector, Step};
use vstd::prelude::*;

verus! {

/// A step over a single match yields the outputs for that match.
pub proof fn lemma_stepped_one<T: Step>(step: &T, doc: DocView, x: PathView)
    ensures
        stepped(step, doc, seq![x]) == step.outputs(doc, x),
{
    let xs = seq![x];
    assert(xs.drop_last() =~= Seq::<PathView>::empty());
    assert(stepped(step, doc, xs.drop_last()) =~= Seq::<PathView>::empty());
    assert(stepped(step, doc, xs) =~= step.outputs(doc, x));
}

/// Paths to pairwise different nodes designate a sequence of nodes without
/// repetition.
pub proof fn lemma_distinct_nodes_no_duplicates(paths: Seq<PathView>)
    requires
        distinct_nodes(paths),
    ensures
        nodes_of(paths).no_duplicates(),
{
    let nodes = nodes_of(paths);
    assert forall|i: int, j: int| 0 <= i < nodes.len() && 0 <= j < nodes.len() && i != j implies nodes[i]
        != nodes[j] by {
        if i < j {
            assert(paths[i].last() != paths[j].last());
        } else {
            assert(paths[j].last() != paths[i].last());
        }
    }
}

/// `child()` matches nothing from a node that is neither an array nor an
/// object.
pub proof fn lemma_child_of_leaf(doc: DocView, x: PathView)
    requires
        !is_array(doc, x.last()),
        !is_object(doc, x.last()),
    ensures
        (Child { inner: Node {} }).matches(doc, x) == Seq::<PathView>::empty(),
{
    let sel = Child { inner: Node {} };
    lemma_stepped_one(&sel, doc, x);
}

/// `at(index)` matches, from an array, the element at `index` and nothing
/// else where the array has more than `index` elements, and nothing where
/// it has not.
pub proof fn lemma_at_on_array(doc: DocView, x: PathView, index: usize)
    requires
        is_array(doc, x.last()),
    ensures
        index < children_of(doc, x.last()).len() ==> (At { inner: Node {}, index }).matches(
            doc,
            x,
        ) == seq![x.push(children_of(doc, x.last())[index as int])],
        index >= children_of(doc, x.last()).len() ==> (At { inner: Node {}, index }).matches(
            doc,
            x,
        ) == Seq::<PathView>::empty(),
        (At { inner: Node {}, index }).matches(doc, x).len() == 1 <==> index < children_of(
            doc,
            x.last(),
        ).len(),
{
    let sel = At { inner: Node {}, index };
    lemma_stepped_one(&sel, doc, x);
}

/// `key(name)` matches, from an object, the member of that name and nothing
/// else where the object has such a member, and nothing where it has not.
pub proof fn lemma_key_on_object(doc: DocView, x: PathView, sel: Key<Node>)
    requires
        is_object(doc, x.last()),
    ensures
        sel.matches(doc, x).len() == 1 <==> keys_of(doc, x.last()).contains(sel.name@),
        sel.matches(doc, x).len() == 0 <==> !keys_of(doc, x.last()).contains(sel.name@),
        keys_of(doc, x.last()).contains(sel.name@) ==> sel.matches(doc, x) == seq![
            x.push(member_of(doc, x.last(), sel.name@)->Some_0),
        ],
{
    lemma_stepped_one(&sel, doc, x);
}

/// `string().equals(comp)` matches the input where its node is a string
/// whose whole content is that of `comp`, and nothing otherwise.
pub proof fn lemma_string_equals(doc: DocView, x: PathView, sel: StringEquals<Node>)
    ensures
        sel.matches(doc, x) == keep_if(
            match kind_of(doc, x.last()) {
                Some(Kind::String(s)) => s@ == sel.comp@,
                _ => false,
            },
            x,
        ),
{
    lemma_stepped_one(&sel, doc, x);
}

/// `parent()` never yields two paths to one node, whatever it wraps.
pub proof fn lemma_parent_distinct<S: Selector>(sel: Parent<S>, doc: DocView, input: PathView)
    ensures
        distinct_nodes(sel.matches(doc, input)),
        nodes_of(sel.matches(doc, input)).no_duplicates(),
{
    lemma_first_per_node(stepped(&sel, doc, sel.inner.matches(doc, input)));
    lemma_distinct_nodes_no_duplicates(sel.matches(doc, input));
}

/// `union(left, right)` never yields two paths to one node, and the nodes
/// it yields are those that `left` or `right` matches from a match of the
/// selector it wraps.
pub proof fn lemma_union_distinct<I: Selector, S: Selector, T: Selector>(
    sel: Union<I, S, T>,
    doc: DocView,
    input: PathView,
)
    ensures
        distinct_nodes(sel.matches(doc, input)),
        nodes_of(sel.matches(doc, input)).no_duplicates(),
        node_set(sel.matches(doc, input)) == node_set(
            stepped(&sel, doc, sel.inner.matches(doc, input)),
        ),
{
    lemma_first_per_node(stepped(&sel, doc, sel.inner.matches(doc, input)));
    lemma_distinct_nodes_no_duplicates(sel.matches(doc, input));
}

/// A climb that starts from paths to pairwise different nodes ends with
/// paths to pairwise different nodes.
pub proof fn lemma_climb_distinct(x: PathView, out: Seq<PathView>)
    requires
        distinct_nodes(out),
    ensures
        distinct_nodes(climb(x, out)),
    decreases x.len(),
{
    if x.len() > 1 && !node_set(out).contains(x.drop_last().last()) {
        let p = x.drop_last();
        let more = out.push(p);
        assert forall|i: int, j: int| 0 <= i < j < more.len() implies (#[trigger] more[i]).last() != (
        #[trigger] more[j]).last() by {
            if j == out.len() {
                assert(more[i] == out[i]);
                if out[i].last() == p.last() {
                    assert(node_set(out).contains(p.last()));
                }
            } else {
                assert(more[i] == out[i] && more[j] == out[j]);
            }
        }
        lemma_climb_distinct(p, more);
    }
}

/// Climbs from any paths, one after the other, yield no node twice.
pub proof fn lemma_climb_all_distinct(xs: Seq<PathView>)
    ensures
        distinct_nodes(climb_all(xs)),
    decreases xs.len(),
{
    if xs.len() > 0 {
        lemma_climb_all_distinct(xs.drop_last());
        lemma_climb_distinct(xs.last(), climb_all(xs.drop_last()));
    }
}

/// `ascend()` never yields two paths to one node, whatever it wraps.
pub proof fn lemma_ascend_distinct<S: Selector>(sel: Ascend<S>, doc: DocView, input: PathView)
    ensures
        distinct_nodes(sel.matches(doc, input)),
        nodes_of(sel.matches(doc, input)).no_duplicates(),
{
    lemma_climb_all_distinct(sel.inner.matches(doc, input));
    lemma_distinct_nodes_no_duplicates(sel.matches(doc, input));
}

/// What a selector matches depends on nothing but the selector, the
/// document and the input: selectors built alike match alike.
pub proof fn lemma_built_alike_match_alike<S: Selector>(
    first: S,
    second: S,
    doc: DocView,
    input: PathView,
)
    requires
        first == second,
    ensures
        first.matches(doc, input) == second.matches(doc, input),
        nodes_of(first.matches(doc, input)) == nodes_of(second.matches(doc, input)),
{
}

/// Steps that yield alike for every match yield alike over any matches.
pub proof fn lemma_stepped_alike<A: Step, B: Step>(a: &A, b: &B, doc: DocView, xs: Seq<PathView>)
    requires
        forall|x: PathView| #[trigger] a.outputs(doc, x) == b.outputs(doc, x),
    ensures
        stepped(a, doc, xs) == stepped(b, doc, xs),
    decreases xs.len(),
{
    if xs.len() > 0 {
        lemma_stepped_alike(a, b, doc, xs.drop_last());
    }
}

/// Two `key` selectors on the same selector match alike where their names
/// have the same content.
pub proof fn lemma_key_by_content<S: Selector>(
    first: Key<S>,
    second: Key<S>,
    doc: DocView,
    input: PathView,
)
    requires
        first.inner == second.inner,
        first.name@ == second.name@,
    ensures
        first.matches(doc, input) == second.matches(doc, input),
{
    lemma_stepped_alike(&first, &second, doc, first.inner.matches(doc, input));
}

/// Two string comparisons on the same selector match alike where the
/// strings they compare with have the same content.
pub proof fn lemma_string_equals_by_content<S: Selector>(
    first: StringEquals<S>,
    second: StringEquals<S>,
    doc: DocView,
    input: PathView,
)
    requires
        first.inner == second.inner,
        first.comp@ == second.comp@,
    ensures
        first.matches(doc, input) == second.matches(doc, input),
{
    lemma_stepped_alike(&first, &second, doc, first.inner.matches(doc, input));
}

/// The first path to each node among copies of one path is that path.
pub proof fn lemma_first_of_copies(x: PathView, n: nat)
    requires
        n >= 1,
    ensures
        first_per_node(Seq::new(n, |k: int| x)) == seq![x],
    decreases n,
{
    let copies = Seq::new(n, |k: int| x);
    let fewer = Seq::new((n - 1) as nat, |k: int| x);
    assert(copies.drop_last() =~= fewer);
    if n == 1 {
        assert(first_per_node(fewer) =~= Seq::<PathView>::empty());
        assert(node_set(Seq::<PathView>::empty()) =~= Set::<NodeRef>::empty());
        assert(first_per_node(copies) =~= seq![x]);
    } else {
        lemma_first_of_copies(x, (n - 1) as nat);
        assert(seq![x][0].last() == x.last());
        assert(node_set(seq![x]).contains(x.last()));
    }
}

/// From a node with children, `child().parent()` matches the input once,
/// however many children there are, and `child().parent().child()` matches
/// what `child()` matches: each child once.
pub proof fn lemma_parent_of_children(doc: DocView, x: PathView)
    requires
        x.len() >= 1,
        is_array(doc, x.last()) || is_object(doc, x.last()),
        children_of(doc, x.last()).len() >= 1,
    ensures
        (Parent { inner: Child { inner: Node {} } }).matches(doc, x) == seq![x],
        (Child { inner: Parent { inner: Child { inner: Node {} } } }).matches(doc, x) == (Child {
            inner: Node {},
        }).matches(doc, x),
        (Child { inner: Node {} }).matches(doc, x).len() == children_of(doc, x.last()).len(),
{
    let down = Child { inner: Node {} };
    let up = Parent { inner: down };
    let again = Child { inner: up };
    let fan = child_paths(doc, x);
    let n = fan.len();
    lemma_stepped_one(&down, doc, x);
    assert(down.matches(doc, x) == fan);
    lemma_parents_of_children(&up, doc, x, n as int);
    assert(fan.take(n as int) =~= fan);
    lemma_first_of_copies(x, n);
    assert(up.matches(doc, x) == seq![x]);
    lemma_stepped_one(&again, doc, x);
}

/// The candidates of `parent()` for the first `n` children of the node of
/// `x` are `n` copies of `x`.
proof fn lemma_parents_of_children<S: Selector>(up: &Parent<S>, doc: DocView, x: PathView, n: int)
    requires
        x.len() >= 1,
        0 <= n <= child_paths(doc, x).len(),
    ensures
        stepped(up, doc, child_paths(doc, x).take(n)) == Seq::new(n as nat, |k: int| x),
    decreases n,
{
    let fan = child_paths(doc, x);
    if n == 0 {
        assert(stepped(up, doc, fan.take(n)) =~= Seq::new(n as nat, |k: int| x));
    } else {
        lemma_parents_of_children(up, doc, x, n - 1);
        assert(fan.take(n).drop_last() =~= fan.take(n - 1));
        assert(fan.take(n).last().drop_last() =~= x);
        assert(stepped(up, doc, fan.take(n)) =~= Seq::new(n as nat, |k: int| x));
    }
}

/// One selector's candidates, taken into an intersection that has yielded
/// the nodes both selectors have matched, leave it so: the selector has
/// now matched their nodes too.
pub proof fn lemma_meet(candidates: Seq<PathView>, st: Meet)
    requires
        node_set(st.out) == st.own.intersect(st.other),
    ensures
        meet(candidates, st).other == st.other,
        meet(candidates, st).own == st.own.union(node_set(candidates)),
        node_set(meet(candidates, st).out) == meet(candidates, st).own.intersect(st.other),
    decreases candidates.len(),
{
    let after = meet(candidates, st);
    if candidates.len() == 0 {
        lemma_node_set_empty();
        assert(after.own =~= st.own.union(node_set(candidates)));
    } else {
        let front = candidates.drop_last();
        let p = candidates.last();
        let before = meet(front, st);
        lemma_meet(front, st);
        assert(candidates =~= front.push(p));
        lemma_node_set_push(front, p);
        assert(after.own =~= st.own.union(node_set(candidates)));
        if before.other.contains(p.last()) {
            lemma_node_set_push(before.out, p);
        }
        assert(node_set(after.out) =~= after.own.intersect(st.other));
    }
}

/// An intersection has yielded exactly the nodes that both selectors have
/// matched from the matches of the inner selector.
pub proof fn lemma_meet_all<S: Selector, T: Selector>(
    left: &S,
    right: &T,
    doc: DocView,
    xs: Seq<PathView>,
)
    ensures
        meet_all(left, right, doc, xs).own == node_set(stepped(&Apply { sel: left }, doc, xs)),
        meet_all(left, right, doc, xs).other == node_set(stepped(&Apply { sel: right }, doc, xs)),
        node_set(meet_all(left, right, doc, xs).out) == meet_all(left, right, doc, xs).own.intersect(
            meet_all(left, right, doc, xs).other,
        ),
    decreases xs.len(),
{
    let after = meet_all(left, right, doc, xs);
    if xs.len() == 0 {
        lemma_node_set_empty();
        assert(node_set(after.out) =~= after.own.intersect(after.other));
    } else {
        let before = meet_all(left, right, doc, xs.drop_last());
        lemma_meet_all(left, right, doc, xs.drop_last());
        let l = meet(left.matches(doc, xs.last()), before);
        lemma_meet(left.matches(doc, xs.last()), before);
        let turned = Meet { out: l.out, own: l.other, other: l.own };
        assert(node_set(turned.out) =~= turned.own.intersect(turned.other));
        lemma_meet(right.matches(doc, xs.last()), turned);
        lemma_node_set_add(
            stepped(&Apply { sel: left }, doc, xs.drop_last()),
            left.matches(doc, xs.last()),
        );
        lemma_node_set_add(
            stepped(&Apply { sel: right }, doc, xs.drop_last()),
            right.matches(doc, xs.last()),
        );
        assert(node_set(after.out) =~= after.own.intersect(after.other));
    }
}

/// `intersect(left, right)` yields the nodes that both `left` and `right`
/// match from matches of the selector it wraps, and no others.
pub proof fn lemma_intersect_nodes<I: Selector, S: Selector, T: Selector>(
    sel: Intersect<I, S, T>,
    doc: DocView,
    input: PathView,
)
    ensures
        node_set(sel.matches(doc, input)) == node_set(
            stepped(&Apply { sel: &sel.left }, doc, sel.inner.matches(doc, input)),
        ).intersect(
            node_set(stepped(&Apply { sel: &sel.right }, doc, sel.inner.matches(doc, input))),
        ),
{
    lemma_meet_all(&sel.left, &sel.right, doc, sel.inner.matches(doc, input));
}

/// `diff(left, right)` yields the nodes that `left` matches from matches of
/// the selector it wraps and `right` matches from none of them, and no
/// others.
pub proof fn lemma_diff_nodes<I: Selector, S: Selector, T: Selector>(
    sel: Diff<I, S, T>,
    doc: DocView,
    input: PathView,
)
    ensures
        node_set(sel.matches(doc, input)) == node_set(
            stepped(&Apply { sel: &sel.left }, doc, sel.inner.matches(doc, input)),
        ).difference(
            node_set(stepped(&Apply { sel: &sel.right }, doc, sel.inner.matches(doc, input))),
        ),
{
    let xs = sel.inner.matches(doc, input);
    lemma_without(
        stepped(&Apply { sel: &sel.left }, doc, xs),
        node_set(stepped(&Apply { sel: &sel.right }, doc, xs)),
    );
}

/// The nearest `m` ancestors of the path `x`, nearest first.
pub open spec fn ancestors(x: PathView, m: int) -> Seq<PathView> {
    Seq::new(m as nat, |k: int| x.take(x.len() - 1 - k))
}

/// A climb from the ancestor that is `m` levels up, after the ancestors
/// nearer than it have been yielded, yields the remaining ones.
proof fn lemma_climb_rest(x: PathView, m: int)
    requires
        x.no_duplicates(),
        0 <= m < x.len(),
    ensures
        climb(x.take(x.len() - m), ancestors(x, m)) == ancestors(x, x.len() - 1),
    decreases x.len() - m,
{
    let cur = x.take(x.len() - m);
    let out = ancestors(x, m);
    if m < x.len() - 1 {
        let up = cur.drop_last();
        assert(up =~= x.take(x.len() - 1 - m));
        assert(up.last() == x[x.len() - 2 - m]);
        if node_set(out).contains(up.last()) {
            let i = choose|i: int| 0 <= i < out.len() && (#[trigger] out[i]).last() == up.last();
            assert(out[i].last() == x[x.len() - 2 - i]);
        }
        assert(out.push(up) =~= ancestors(x, m + 1));
        lemma_climb_rest(x, m + 1);
    }
}

/// From a path that passes no node twice, `ascend()` yields every ancestor
/// once, from the parent up to the root of the path.
pub proof fn lemma_ascend_from(doc: DocView, x: PathView)
    requires
        x.len() >= 1,
        x.no_duplicates(),
    ensures
        (Ascend { inner: Node {} }).matches(doc, x) == ancestors(x, x.len() - 1),
{
    let xs = seq![x];
    assert(xs.drop_last() =~= Seq::<PathView>::empty());
    assert(climb_all(xs.drop_last()) =~= Seq::<PathView>::empty());
    assert(ancestors(x, 0) =~= Seq::<PathView>::empty());
    assert(x.take(x.len() - 0) =~= x);
    lemma_climb_rest(x, 0);
}

} // verus!
