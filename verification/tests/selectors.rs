use jlens::{
    and, ascend, at, boolean, child, descend, diff, float64, int64, intersect, key, list, node,
    null, object, or, parent, string, uint64, union, wherein,
};
use jlens::{Combining, Document, Filtering, JsonPath, Kind, NodeRef, Selector};

fn d(i: usize) -> NodeRef {
    NodeRef::Doc(i)
}

fn ds(ids: &[usize]) -> Vec<NodeRef> {
    ids.iter().map(|i| NodeRef::Doc(*i)).collect()
}

fn text(s: &str) -> Kind {
    Kind::String(s.to_string())
}

/// `[null, true, false, 42, -7, 3.5, "Hello, world!", "Hello", [], {}]`
fn mixed() -> Document {
    let mut doc = Document::new(Kind::Array);
    for kind in [
        Kind::Null,
        Kind::Boolean(true),
        Kind::Boolean(false),
        Kind::U64(42),
        Kind::I64(-7),
        Kind::F64(3.5f64.to_bits()),
        text("Hello, world!"),
        text("Hello"),
        Kind::Array,
        Kind::Object,
    ] {
        doc.push_element(d(0), kind).unwrap();
    }
    doc
}

/// An array of the given scalars.
fn array_of(kinds: Vec<Kind>) -> Document {
    let mut doc = Document::new(Kind::Array);
    for kind in kinds {
        doc.push_element(d(0), kind).unwrap();
    }
    doc
}

/// `[{"a": [[{"x": [1], "y": null}], true]}, null]`, six levels deep.
fn deep() -> Document {
    let mut doc = Document::new(Kind::Array);
    assert_eq!(doc.push_element(d(0), Kind::Object), Some(d(1)));
    assert_eq!(doc.insert_member(d(1), "a".to_string(), Kind::Array), Some(d(2)));
    assert_eq!(doc.push_element(d(2), Kind::Array), Some(d(3)));
    assert_eq!(doc.push_element(d(3), Kind::Object), Some(d(4)));
    assert_eq!(doc.insert_member(d(4), "x".to_string(), Kind::Array), Some(d(5)));
    assert_eq!(doc.push_element(d(5), Kind::U64(1)), Some(d(6)));
    assert_eq!(doc.push_element(d(0), Kind::Null), Some(d(7)));
    assert_eq!(doc.push_element(d(2), Kind::Boolean(true)), Some(d(8)));
    assert_eq!(doc.insert_member(d(4), "y".to_string(), Kind::Null), Some(d(9)));
    doc
}

/// `[[{}],[{}],[{}],[{}]]`: the inner arrays are 1, 3, 5, 7.
fn nested_arrays() -> Document {
    let mut doc = Document::new(Kind::Array);
    for _ in 0..4 {
        let inner = doc.push_element(d(0), Kind::Array).unwrap();
        doc.push_element(inner, Kind::Object).unwrap();
    }
    doc
}

/// `[[1],[2],[3],[1,2]]`: the inner arrays are 1, 3, 5, 7.
fn number_lists() -> Document {
    let mut doc = Document::new(Kind::Array);
    for items in [vec![1u64], vec![2], vec![3], vec![1, 2]] {
        let inner = doc.push_element(d(0), Kind::Array).unwrap();
        for n in items {
            doc.push_element(inner, Kind::U64(n)).unwrap();
        }
    }
    doc
}

fn has_duplicates(found: &[NodeRef]) -> bool {
    (0..found.len()).any(|i| (0..i).any(|j| found[i] == found[j]))
}

#[test]
fn node_selects_the_input() {
    let doc = mixed();
    assert_eq!(doc.query(node()), ds(&[0]));
    let input = JsonPath::root(d(0)).descendant(d(9));
    let found = node().select(&doc, &input);
    assert_eq!(found.len(), 1);
    assert_eq!(found[0].nodes(), ds(&[0, 9]));
}

#[test]
fn type_filters_keep_their_kind_alone() {
    let doc = mixed();
    assert_eq!(doc.query(child().null()), ds(&[1]));
    assert_eq!(doc.query(child().boolean()), ds(&[2, 3]));
    assert_eq!(doc.query(child().uint64()), ds(&[4]));
    assert_eq!(doc.query(child().int64()), ds(&[5]));
    assert_eq!(doc.query(child().float64()), ds(&[6]));
    assert_eq!(doc.query(child().string()), ds(&[7, 8]));
    assert_eq!(doc.query(child().list()), ds(&[9]));
    assert_eq!(doc.query(child().object()), ds(&[10]));
}

#[test]
fn type_filters_from_the_root() {
    let doc = mixed();
    assert_eq!(doc.query(list()), ds(&[0]));
    assert_eq!(doc.query(object()), ds(&[]));
    assert_eq!(doc.query(null()), ds(&[]));
    assert_eq!(doc.query(boolean()), ds(&[]));
    assert_eq!(doc.query(uint64()), ds(&[]));
    assert_eq!(doc.query(int64()), ds(&[]));
    assert_eq!(doc.query(float64()), ds(&[]));
    assert_eq!(doc.query(string()), ds(&[]));
    assert_eq!(Document::new(Kind::Object).query(object()), ds(&[0]));
    assert_eq!(Document::new(Kind::Null).query(null()), ds(&[0]));
    assert_eq!(Document::new(Kind::I64(3)).query(int64()), ds(&[0]));
}

#[test]
fn string_equality_is_on_the_whole_content() {
    let doc = mixed();
    assert_eq!(doc.query(child().string().equals("Hello, world!")), ds(&[7]));
    assert_eq!(doc.query(child().string().equals("Hello")), ds(&[8]));
    assert_eq!(doc.query(child().string().equals("Hello, ")), ds(&[]));
    assert_eq!(doc.query(child().string().equals("hello")), ds(&[]));
    assert_eq!(doc.query(child().string().equals("")), ds(&[]));
    assert_eq!(Document::new(text("x")).query(string().equals("x")), ds(&[0]));
    assert_eq!(Document::new(text("x")).query(string().equals("y")), ds(&[]));
}

#[test]
fn boolean_and_integer_equality() {
    let doc = mixed();
    assert_eq!(doc.query(child().boolean().equals(true)), ds(&[2]));
    assert_eq!(doc.query(child().boolean().equals(false)), ds(&[3]));
    assert_eq!(doc.query(child().uint64().equals(42)), ds(&[4]));
    assert_eq!(doc.query(child().uint64().equals(7)), ds(&[]));
    assert_eq!(doc.query(child().int64().equals(-7)), ds(&[5]));
    assert_eq!(doc.query(child().int64().equals(42)), ds(&[]));
}

#[test]
fn kinds_of_numbers_are_kept_apart() {
    let doc = array_of(vec![Kind::U64(1), Kind::I64(1), Kind::F64(1f64.to_bits())]);
    assert_eq!(doc.query(child().uint64().equals(1)), ds(&[1]));
    assert_eq!(doc.query(child().int64().equals(1)), ds(&[2]));
    assert_eq!(doc.query(child().float64().equals(1f64.to_bits())), ds(&[3]));
}

#[test]
fn float_equality_is_that_of_the_numbers() {
    let doc = array_of(vec![
        Kind::F64(0f64.to_bits()),
        Kind::F64((-0f64).to_bits()),
        Kind::F64(f64::NAN.to_bits()),
        Kind::F64(3.5f64.to_bits()),
        Kind::F64(3.5f64.to_bits() + 1),
    ]);
    assert_eq!(doc.query(child().float64().equals(0f64.to_bits())), ds(&[1, 2]));
    assert_eq!(doc.query(child().float64().equals((-0f64).to_bits())), ds(&[1, 2]));
    assert_eq!(doc.query(child().float64().equals(f64::NAN.to_bits())), ds(&[]));
    assert_eq!(doc.query(child().float64().equals(3.5f64.to_bits())), ds(&[4]));
    assert_eq!(doc.query(child().float64()), ds(&[1, 2, 3, 4, 5]));
}

#[test]
fn at_selects_the_element_when_the_index_is_in_range() {
    let doc = mixed();
    assert_eq!(doc.query(at(0)), ds(&[1]));
    assert_eq!(doc.query(at(9)), ds(&[10]));
    assert_eq!(doc.query(at(10)), ds(&[]));
    assert_eq!(doc.query(at(11)), ds(&[]));
    assert_eq!(doc.query(at(usize::MAX)), ds(&[]));
    assert_eq!(doc.query(at(8).at(0)), ds(&[]));
    assert_eq!(doc.query(at(3).at(0)), ds(&[]));
}

#[test]
fn at_selects_nothing_of_an_object() {
    let mut doc = Document::new(Kind::Object);
    doc.insert_member(d(0), "a".to_string(), Kind::Null).unwrap();
    assert_eq!(doc.query(at(0)), ds(&[]));
    assert_eq!(doc.query(key("a")), ds(&[1]));
}

#[test]
fn key_selects_the_member_of_that_name() {
    let doc = deep();
    assert_eq!(doc.query(at(0).key("a")), ds(&[2]));
    assert_eq!(doc.query(at(0).key("b")), ds(&[]));
    assert_eq!(doc.query(at(0).key("")), ds(&[]));
    assert_eq!(doc.query(key("a")), ds(&[]));
    assert_eq!(doc.query(at(1).key("a")), ds(&[]));
    assert_eq!(doc.query(at(0).key("a").at(0).at(0).key("y")), ds(&[9]));
    assert_eq!(doc.query(at(0).key("a").at(0).at(0).key("x").at(0)), ds(&[6]));
}

#[test]
fn key_yields_the_path_through_the_object() {
    let doc = deep();
    let found = at(0).key("a").select(&doc, &JsonPath::root(d(0)));
    assert_eq!(found.len(), 1);
    assert_eq!(found[0].nodes(), ds(&[0, 1, 2]));
}

#[test]
fn child_of_a_leaf_is_nothing() {
    for kind in [
        Kind::Null,
        Kind::Boolean(true),
        Kind::U64(1),
        Kind::I64(-1),
        Kind::F64(0),
        text("leaf"),
    ] {
        assert_eq!(Document::new(kind).query(child()), ds(&[]));
    }
    let doc = mixed();
    assert_eq!(doc.query(child().child()), ds(&[]));
}

#[test]
fn child_follows_the_document_order() {
    let doc = deep();
    assert_eq!(doc.query(child()), ds(&[1, 7]));
    assert_eq!(doc.query(child().child()), ds(&[2]));
    assert_eq!(doc.query(child().child().child()), ds(&[3, 8]));
    assert_eq!(doc.query(at(0).key("a").at(0).at(0).child()), ds(&[5, 9]));
}

#[test]
fn parent_of_the_root_is_nothing() {
    let doc = mixed();
    assert_eq!(doc.query(parent()), ds(&[]));
    assert_eq!(doc.query(child().parent().parent()), ds(&[]));
}

#[test]
fn parent_yields_each_parent_once() {
    let doc = nested_arrays();
    assert_eq!(doc.query(child().parent()), ds(&[0]));
    assert_eq!(doc.query(child().child().parent()), ds(&[1, 3, 5, 7]));
    assert_eq!(doc.query(child().child().parent().parent()), ds(&[0]));
    assert_eq!(doc.query(child().parent().child()), ds(&[1, 3, 5, 7]));
    assert_eq!(doc.query(child().parent().child()), doc.query(child()));
}

#[test]
fn parent_is_taken_from_the_path() {
    let doc = nested_arrays();
    let input = JsonPath::root(d(3)).descendant(d(4));
    let found = parent().select(&doc, &input);
    assert_eq!(found.len(), 1);
    assert_eq!(found[0].nodes(), ds(&[3]));
    assert_eq!(parent().select(&doc, &JsonPath::root(d(4))).len(), 0);
}

#[test]
fn ascend_goes_from_the_parent_to_the_root() {
    let doc = deep();
    assert_eq!(doc.query(at(0).key("a").at(0).at(0).key("x").at(0).ascend()), ds(&[5, 4, 3, 2, 1, 0]));
    assert_eq!(doc.query(ascend()), ds(&[]));
    assert_eq!(doc.query(child().ascend()), ds(&[0]));
}

#[test]
fn ascend_stops_at_what_it_has_yielded() {
    let doc = nested_arrays();
    let found = doc.query(child().child().ascend());
    assert_eq!(found, ds(&[1, 0, 3, 5, 7]));
    assert!(!has_duplicates(&found));
}

#[test]
fn descend_visits_every_descendant_once_in_preorder() {
    let doc = deep();
    let found = doc.query(descend());
    assert_eq!(found, ds(&[1, 2, 3, 4, 5, 6, 9, 8, 7]));
    assert_eq!(found.len(), doc.len() - 1);
    assert!(!has_duplicates(&found));
}

#[test]
fn descend_from_inside_the_document() {
    let doc = deep();
    assert_eq!(doc.query(at(0).key("a").at(0).descend()), ds(&[4, 5, 6, 9]));
    assert_eq!(doc.query(at(1).descend()), ds(&[]));
    let found = descend().select(&doc, &JsonPath::root(d(4)));
    assert_eq!(found.len(), 3);
    assert_eq!(found[0].nodes(), ds(&[4, 5]));
    assert_eq!(found[1].nodes(), ds(&[4, 5, 6]));
    assert_eq!(found[2].nodes(), ds(&[4, 9]));
}

#[test]
fn descend_yields_nothing_twice_when_its_inputs_overlap() {
    let doc = deep();
    let found = doc.query(descend().descend());
    assert_eq!(found, ds(&[2, 3, 4, 5, 6, 9, 8]));
    assert_eq!(doc.query(child().descend()), ds(&[2, 3, 4, 5, 6, 9, 8]));

    let found = doc.query(union(child().child(), node()).descend());
    assert_eq!(found, ds(&[3, 4, 5, 6, 9, 8, 1, 2, 7]));
    assert!(!has_duplicates(&found));
}

#[test]
fn descend_of_the_canonical_leaf_is_nothing() {
    let doc = deep();
    assert_eq!(doc.query(and(node(), node()).descend()), Vec::<NodeRef>::new());
}

#[test]
fn wherein_yields_the_match_itself_once() {
    let mut doc = Document::new(Kind::Array);
    let a = doc.push_element(d(0), Kind::Array).unwrap();
    doc.push_element(a, Kind::U64(1)).unwrap();
    doc.push_element(a, Kind::U64(2)).unwrap();
    let b = doc.push_element(d(0), Kind::Array).unwrap();
    let c = doc.push_element(d(0), Kind::Array).unwrap();
    doc.push_element(c, Kind::U64(3)).unwrap();
    assert_eq!(doc.query(child().wherein(child())), vec![a, c]);
    assert_eq!(doc.query(child().wherein(child().uint64().equals(2))), vec![a]);
    assert_eq!(doc.query(child().wherein(child().uint64().equals(9))), ds(&[]));
    assert_eq!(doc.query(wherein(child())), ds(&[0]));
    assert_eq!(doc.query(at(1).wherein(child())), ds(&[]));
    assert_eq!(b, d(4));
}

#[test]
fn union_yields_left_then_right_and_each_node_once() {
    let doc = mixed();
    assert_eq!(doc.query(union(at(3), at(1))), ds(&[4, 2]));
    assert_eq!(doc.query(union(at(1), at(1))), ds(&[2]));
    assert_eq!(doc.query(union(child().boolean(), child().string())), ds(&[2, 3, 7, 8]));
    assert_eq!(doc.query(union(child().string(), child())), ds(&[7, 8, 1, 2, 3, 4, 5, 6, 9, 10]));
    assert_eq!(doc.query(union(at(20), at(30))), ds(&[]));
}

#[test]
fn union_drops_duplicates_across_the_matches_it_starts_from() {
    let doc = number_lists();
    assert_eq!(doc.query(child().union(parent(), node())), ds(&[0, 1, 3, 5, 7]));
    let found = doc.query(child().union(
        wherein(child().uint64().equals(1)),
        wherein(child().uint64().equals(2)),
    ));
    assert_eq!(found, ds(&[1, 3, 7]));
}

#[test]
fn intersect_yields_what_both_match() {
    let doc = array_of(vec![Kind::U64(1), Kind::U64(2), Kind::U64(3)]);
    assert_eq!(doc.query(intersect(child(), child().uint64().equals(2))), ds(&[2]));
    assert_eq!(doc.query(intersect(child().uint64().equals(2), child())), ds(&[2]));
    assert_eq!(doc.query(intersect(child(), child())), ds(&[1, 2, 3]));
    assert_eq!(doc.query(intersect(at(0), at(1))), ds(&[]));
    assert_eq!(doc.query(intersect(child(), node())), ds(&[]));
}

#[test]
fn intersect_yields_on_the_pass_that_completes_a_match() {
    let doc = array_of(vec![Kind::U64(1), Kind::U64(2), Kind::U64(3)]);
    assert_eq!(doc.query(intersect(union(at(2), at(0)), child())), ds(&[1, 3]));
    assert_eq!(doc.query(intersect(child(), union(at(2), at(0)))), ds(&[3, 1]));
}

#[test]
fn intersect_yields_again_what_both_match_again() {
    let doc = array_of(vec![Kind::U64(10), Kind::U64(20)]);
    assert_eq!(doc.query(child().intersect(parent(), parent())), ds(&[0, 0, 0]));
}

#[test]
fn diff_yields_what_left_matches_and_right_does_not() {
    let doc = array_of(vec![Kind::U64(1), Kind::U64(2), Kind::U64(3)]);
    assert_eq!(doc.query(diff(child(), child().uint64().equals(2))), ds(&[1, 3]));
    assert_eq!(doc.query(diff(child(), child())), ds(&[]));
    assert_eq!(doc.query(diff(child(), node())), ds(&[1, 2, 3]));
    assert_eq!(doc.query(diff(child().uint64().equals(2), child())), ds(&[]));
}

#[test]
fn diff_takes_the_right_side_from_every_match_first() {
    let doc = number_lists();
    // From each inner array: its elements, less the first element of any inner array.
    assert_eq!(doc.query(child().diff(child(), at(0))), ds(&[9]));
    // Nothing is dropped for being yielded twice.
    let doc = array_of(vec![Kind::U64(10), Kind::U64(20)]);
    assert_eq!(doc.query(child().diff(parent(), child())), ds(&[0, 0]));
}

#[test]
fn and_signals_with_the_canonical_leaf() {
    let doc = mixed();
    assert_eq!(doc.query(and(at(0), at(1))), vec![NodeRef::Truth]);
    assert_eq!(doc.query(and(at(0), at(10))), Vec::<NodeRef>::new());
    assert_eq!(doc.query(and(at(10), at(0))), Vec::<NodeRef>::new());
    assert_eq!(doc.query(and(at(10), at(11))), Vec::<NodeRef>::new());
}

#[test]
fn or_signals_with_the_canonical_leaf() {
    let doc = mixed();
    assert_eq!(doc.query(or(at(0), at(1))), vec![NodeRef::Truth]);
    assert_eq!(doc.query(or(at(0), at(10))), vec![NodeRef::Truth]);
    assert_eq!(doc.query(or(at(10), at(0))), vec![NodeRef::Truth]);
    assert_eq!(doc.query(or(at(10), at(11))), Vec::<NodeRef>::new());
}

#[test]
fn the_signal_is_a_child_of_the_match_it_speaks_of() {
    let doc = number_lists();
    let sel = child().and(child().uint64().equals(1), child().uint64().equals(2));
    let found = sel.select(&doc, &JsonPath::root(d(0)));
    assert_eq!(found.len(), 1);
    assert_eq!(found[0].nodes(), vec![d(0), d(7), NodeRef::Truth]);

    let sel = child().or(child().uint64().equals(1), child().uint64().equals(2));
    let found = sel.select(&doc, &JsonPath::root(d(0)));
    assert_eq!(found.len(), 3);
    assert_eq!(found[0].nodes(), vec![d(0), d(1), NodeRef::Truth]);
    assert_eq!(found[1].nodes(), vec![d(0), d(3), NodeRef::Truth]);
    assert_eq!(found[2].nodes(), vec![d(0), d(7), NodeRef::Truth]);
    assert_eq!(
        doc.query(child().or(child().uint64().equals(1), child().uint64().equals(2)).parent()),
        ds(&[1, 3, 7])
    );
}

#[test]
fn the_canonical_leaf_is_a_true_boolean() {
    let doc = mixed();
    assert_eq!(doc.query(or(node(), node()).boolean().equals(true)), vec![NodeRef::Truth]);
    assert_eq!(doc.query(or(node(), node()).boolean().equals(false)), Vec::<NodeRef>::new());
    assert_eq!(doc.query(or(node(), node()).child()), Vec::<NodeRef>::new());
}

#[test]
fn logical_signals_serve_as_filters() {
    let doc = number_lists();
    assert_eq!(
        doc.query(child().wherein(and(child().uint64().equals(1), child().uint64().equals(2)))),
        ds(&[7])
    );
    assert_eq!(
        doc.query(child().wherein(or(child().uint64().equals(1), child().uint64().equals(2)))),
        ds(&[1, 3, 7])
    );
    assert_eq!(
        doc.query(child().wherein(and(child().uint64().equals(3), child().uint64().equals(1)))),
        ds(&[])
    );
}

#[test]
fn selectors_built_alike_match_alike() {
    let doc = deep();
    let build = || list().child().wherein(key("a").list().child().or(boolean(), string().equals("x")));
    assert_eq!(doc.query(build()), doc.query(build()));
    assert_eq!(doc.query(build()), ds(&[1]));
    let sel = descend();
    let first = sel.select(&doc, &JsonPath::root(d(0)));
    let second = sel.select(&doc, &JsonPath::root(d(0)));
    assert_eq!(first.len(), second.len());
    for (a, b) in first.iter().zip(second.iter()) {
        assert_eq!(a.nodes(), b.nodes());
    }
}

#[test]
fn a_selector_serves_many_documents() {
    let count = |doc: &Document| doc.query(descend().uint64()).len();
    assert_eq!(count(&deep()), 1);
    assert_eq!(count(&number_lists()), 5);
    assert_eq!(count(&mixed()), 1);
}

#[test]
fn deduplicating_selectors_yield_no_node_twice() {
    for doc in [deep(), nested_arrays(), number_lists(), mixed()] {
        assert!(!has_duplicates(&doc.query(descend().parent())));
        assert!(!has_duplicates(&doc.query(descend().ascend())));
        assert!(!has_duplicates(&doc.query(descend().descend())));
        assert!(!has_duplicates(&doc.query(descend().union(parent(), node()))));
        assert_eq!(doc.query(descend()).len(), doc.len() - 1);
    }
}

#[test]
fn a_foreign_node_matches_no_filter_and_has_no_relatives() {
    let doc = Document::new(Kind::Array);
    let input = JsonPath::root(d(99));
    assert_eq!(node().select(&doc, &input).len(), 1);
    assert_eq!(child().select(&doc, &input).len(), 0);
    assert_eq!(list().select(&doc, &input).len(), 0);
    assert_eq!(null().select(&doc, &input).len(), 0);
    assert_eq!(at(0).select(&doc, &input).len(), 0);
    assert_eq!(key("a").select(&doc, &input).len(), 0);
    assert_eq!(descend().select(&doc, &input).len(), 0);
}
