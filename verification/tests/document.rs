use jlens::identity::IdentitySet;
use jlens::{Document, JsonPath, Kind, NodeRef};

fn text(s: &str) -> Kind {
    Kind::String(s.to_string())
}

#[test]
fn a_new_document_holds_its_root_alone() {
    let doc = Document::new(Kind::U64(7));
    assert_eq!(doc.len(), 1);
    assert_eq!(doc.root(), NodeRef::Doc(0));
    assert!(matches!(doc.kind(NodeRef::Doc(0)), Some(Kind::U64(7))));
    assert_eq!(doc.child_count(NodeRef::Doc(0)), 0);
}

#[test]
fn elements_are_numbered_in_the_order_they_are_pushed() {
    let mut doc = Document::new(Kind::Array);
    assert_eq!(doc.push_element(NodeRef::Doc(0), Kind::Null), Some(NodeRef::Doc(1)));
    assert_eq!(doc.push_element(NodeRef::Doc(0), Kind::Array), Some(NodeRef::Doc(2)));
    assert_eq!(doc.push_element(NodeRef::Doc(2), text("deep")), Some(NodeRef::Doc(3)));
    assert_eq!(doc.push_element(NodeRef::Doc(0), Kind::I64(-4)), Some(NodeRef::Doc(4)));
    assert_eq!(doc.len(), 5);
    assert_eq!(doc.child_count(NodeRef::Doc(0)), 3);
    assert_eq!(doc.child(NodeRef::Doc(0), 0), NodeRef::Doc(1));
    assert_eq!(doc.child(NodeRef::Doc(0), 1), NodeRef::Doc(2));
    assert_eq!(doc.child(NodeRef::Doc(0), 2), NodeRef::Doc(4));
    assert_eq!(doc.child_count(NodeRef::Doc(2)), 1);
    assert_eq!(doc.child(NodeRef::Doc(2), 0), NodeRef::Doc(3));
    assert!(matches!(doc.kind(NodeRef::Doc(3)), Some(Kind::String(s)) if s == "deep"));
    assert!(matches!(doc.kind(NodeRef::Doc(4)), Some(Kind::I64(-4))));
}

#[test]
fn only_an_array_of_the_document_takes_elements() {
    let mut doc = Document::new(Kind::Array);
    doc.push_element(NodeRef::Doc(0), Kind::Object).unwrap();
    doc.push_element(NodeRef::Doc(0), Kind::Boolean(false)).unwrap();
    assert_eq!(doc.push_element(NodeRef::Doc(1), Kind::Null), None);
    assert_eq!(doc.push_element(NodeRef::Doc(2), Kind::Null), None);
    assert_eq!(doc.push_element(NodeRef::Doc(3), Kind::Null), None);
    assert_eq!(doc.push_element(NodeRef::Truth, Kind::Null), None);
    assert_eq!(doc.len(), 3);
    assert_eq!(doc.child_count(NodeRef::Doc(0)), 2);
}

#[test]
fn only_an_object_takes_members_and_each_name_once() {
    let mut doc = Document::new(Kind::Object);
    assert_eq!(
        doc.insert_member(NodeRef::Doc(0), "a".to_string(), Kind::Array),
        Some(NodeRef::Doc(1))
    );
    assert_eq!(
        doc.insert_member(NodeRef::Doc(0), "b".to_string(), Kind::Null),
        Some(NodeRef::Doc(2))
    );
    assert_eq!(doc.insert_member(NodeRef::Doc(0), "a".to_string(), Kind::Null), None);
    assert_eq!(doc.insert_member(NodeRef::Doc(1), "c".to_string(), Kind::Null), None);
    assert_eq!(doc.insert_member(NodeRef::Doc(2), "c".to_string(), Kind::Null), None);
    assert_eq!(doc.insert_member(NodeRef::Doc(9), "c".to_string(), Kind::Null), None);
    assert_eq!(doc.insert_member(NodeRef::Truth, "c".to_string(), Kind::Null), None);
    assert_eq!(doc.len(), 3);
    assert_eq!(doc.child_count(NodeRef::Doc(0)), 2);
}

#[test]
fn members_are_found_by_their_exact_name() {
    let mut doc = Document::new(Kind::Object);
    doc.insert_member(NodeRef::Doc(0), "foo".to_string(), Kind::U64(1)).unwrap();
    doc.insert_member(NodeRef::Doc(0), "foobar".to_string(), Kind::U64(2)).unwrap();
    doc.insert_member(NodeRef::Doc(0), "".to_string(), Kind::U64(3)).unwrap();
    assert_eq!(doc.member(NodeRef::Doc(0), &"foo".to_string()), Some(NodeRef::Doc(1)));
    assert_eq!(doc.member(NodeRef::Doc(0), &"foobar".to_string()), Some(NodeRef::Doc(2)));
    assert_eq!(doc.member(NodeRef::Doc(0), &"".to_string()), Some(NodeRef::Doc(3)));
    assert_eq!(doc.member(NodeRef::Doc(0), &"fo".to_string()), None);
    assert_eq!(doc.member(NodeRef::Doc(0), &"Foo".to_string()), None);
    assert_eq!(doc.member(NodeRef::Doc(1), &"foo".to_string()), None);
    assert_eq!(doc.member(NodeRef::Doc(7), &"foo".to_string()), None);
    assert_eq!(doc.member(NodeRef::Truth, &"foo".to_string()), None);
}

#[test]
fn the_canonical_leaf_is_true_and_childless() {
    let doc = Document::new(Kind::Null);
    assert!(matches!(doc.kind(NodeRef::Truth), Some(Kind::Boolean(true))));
    assert_eq!(doc.child_count(NodeRef::Truth), 0);
}

#[test]
fn a_position_outside_the_document_has_no_kind_and_no_children() {
    let doc = Document::new(Kind::Array);
    assert!(doc.kind(NodeRef::Doc(1)).is_none());
    assert_eq!(doc.child_count(NodeRef::Doc(1)), 0);
}

#[test]
fn a_root_path_has_no_parent() {
    let p = JsonPath::root(NodeRef::Doc(3));
    assert_eq!(p.node(), NodeRef::Doc(3));
    assert!(p.parent().is_none());
    assert_eq!(p.nodes(), vec![NodeRef::Doc(3)]);
}

#[test]
fn a_descendant_path_remembers_how_it_was_reached() {
    let root = JsonPath::root(NodeRef::Doc(0));
    let mid = root.descendant(NodeRef::Doc(4));
    let leaf = mid.descendant(NodeRef::Truth);
    assert_eq!(leaf.node(), NodeRef::Truth);
    assert_eq!(leaf.nodes(), vec![NodeRef::Doc(0), NodeRef::Doc(4), NodeRef::Truth]);
    let up = leaf.parent().unwrap();
    assert_eq!(up.node(), NodeRef::Doc(4));
    assert_eq!(up.nodes(), vec![NodeRef::Doc(0), NodeRef::Doc(4)]);
    let top = up.parent().unwrap();
    assert_eq!(top.nodes(), vec![NodeRef::Doc(0)]);
    assert!(top.parent().is_none());
    assert_eq!(mid.nodes(), vec![NodeRef::Doc(0), NodeRef::Doc(4)]);
    assert_eq!(leaf.clone().nodes(), leaf.nodes());
}

#[test]
fn an_identity_set_holds_what_was_inserted() {
    let mut set = IdentitySet::new();
    assert!(!set.contains(NodeRef::Doc(0)));
    assert!(!set.contains(NodeRef::Truth));
    set.insert(NodeRef::Doc(5));
    assert!(set.contains(NodeRef::Doc(5)));
    assert!(!set.contains(NodeRef::Doc(4)));
    assert!(!set.contains(NodeRef::Truth));
    set.insert(NodeRef::Truth);
    set.insert(NodeRef::Doc(5));
    assert!(set.contains(NodeRef::Truth));
    assert!(set.contains(NodeRef::Doc(5)));
}
