//! The document model: a tree of JSON-like nodes held in an arena.
//!
//! A node is known by its position in the arena, which is its identity: two
//! nodes with equal content at different positions are different nodes.

use vstd::prelude::*;

verus! {

/// The identity of a node that a path can designate.
#[derive(Clone, Copy, PartialEq, Eq, Structural, Debug, Hash)]
pub enum NodeRef {
    /// The node stored at this position of a document's arena.
    Doc(usize),
    /// The canonical `true` leaf yielded by the logical combinators. It
    /// belongs to no document and has no children.
    Truth,
}

/// What a node is, with the payload of a scalar. The elements of an array
/// and the members of an object are nodes of their own.
#[derive(Clone, Debug, PartialEq, Eq)]
pub enum Kind {
    Null,
    Boolean(bool),
    I64(i64),
    U64(u64),
    /// A binary64 number, held as its bit pattern.
    F64(u64),
    String(String),
    Array,
    Object,
}

/// The mathematical content of one arena slot.
pub struct NodeView {
    pub kind: Kind,
    /// The arena position of the parent; `None` for the root.
    pub parent: Option<usize>,
    /// The arena positions of the children, in document order.
    pub children: Seq<usize>,
    /// For an object, the member names, parallel to `children`.
    pub keys: Seq<Seq<char>>,
}

/// The mathematical content of a document: its arena, slot by slot.
pub type DocView = Seq<NodeView>;

/// Every child of slot `i` lies later in the arena, names `i` as its parent,
/// and the children are listed in increasing position; keys belong to objects
/// only and name each member once; scalars have no children.
pub open spec fn slot_wf(t: DocView, i: int) -> bool {
    let n = t[i];
    &&& forall|k: int|
        0 <= k < n.children.len() ==> i < #[trigger] n.children[k] < t.len()
            && t[n.children[k] as int].parent == Some(i as usize)
    &&& forall|k: int, l: int|
        0 <= k < l < n.children.len() ==> n.children[k] < n.children[l]
    &&& (n.kind is Object ==> n.keys.len() == n.children.len())
    &&& (!(n.kind is Object) ==> n.keys.len() == 0)
    &&& forall|k: int, l: int| 0 <= k < l < n.keys.len() ==> n.keys[k] != n.keys[l]
    &&& (!(n.kind is Object) && !(n.kind is Array) ==> n.children.len() == 0)
}

/// Slot `i` has a parent earlier in the arena that lists it as a child.
pub open spec fn slot_attached(t: DocView, i: int) -> bool {
    match t[i].parent {
        Some(p) => p < i && t[p as int].children.contains(i as usize),
        None => false,
    }
}

/// The arena is a tree rooted at slot 0.
pub open spec fn tree_wf(t: DocView) -> bool {
    &&& 1 <= t.len() <= usize::MAX
    &&& t[0].parent is None
    &&& forall|i: int| 1 <= i < t.len() ==> #[trigger] slot_attached(t, i)
    &&& forall|i: int| 0 <= i < t.len() ==> #[trigger] slot_wf(t, i)
}

/// The kind of the node `r`: that of its slot, `Boolean(true)` for the
/// canonical leaf, and none for a position outside the arena.
pub open spec fn kind_of(t: DocView, r: NodeRef) -> Option<Kind> {
    match r {
        NodeRef::Truth => Some(Kind::Boolean(true)),
        NodeRef::Doc(i) => if i < t.len() {
            Some(t[i as int].kind)
        } else {
            None
        },
    }
}

/// The node `r` is an array.
pub open spec fn is_array(t: DocView, r: NodeRef) -> bool {
    match kind_of(t, r) {
        Some(Kind::Array) => true,
        _ => false,
    }
}

/// The node `r` is an object.
pub open spec fn is_object(t: DocView, r: NodeRef) -> bool {
    match kind_of(t, r) {
        Some(Kind::Object) => true,
        _ => false,
    }
}

/// The children of the node `r` in document order; empty for the canonical
/// leaf and for a position outside the arena.
pub open spec fn children_of(t: DocView, r: NodeRef) -> Seq<NodeRef> {
    match r {
        NodeRef::Doc(i) => if i < t.len() {
            Seq::new(t[i as int].children.len(), |k: int| NodeRef::Doc(t[i as int].children[k]))
        } else {
            Seq::empty()
        },
        NodeRef::Truth => Seq::empty(),
    }
}

/// The parent of the node `r` in the document, if `r` is a node of the
/// arena other than the root.
pub open spec fn parent_of(t: DocView, r: NodeRef) -> Option<NodeRef> {
    match r {
        NodeRef::Doc(i) => if i < t.len() {
            match t[i as int].parent {
                Some(p) => Some(NodeRef::Doc(p)),
                None => None,
            }
        } else {
            None
        },
        NodeRef::Truth => None,
    }
}

/// The member names of the node `r` in document order; empty unless `r` is
/// an object of the arena.
pub open spec fn keys_of(t: DocView, r: NodeRef) -> Seq<Seq<char>> {
    match r {
        NodeRef::Doc(i) => if i < t.len() && t[i as int].kind is Object {
            t[i as int].keys
        } else {
            Seq::empty()
        },
        NodeRef::Truth => Seq::empty(),
    }
}

/// The member of the object `r` named `key`, if `r` is an object of the
/// arena that has one.
pub open spec fn member_of(t: DocView, r: NodeRef, key: Seq<char>) -> Option<NodeRef> {
    match r {
        NodeRef::Doc(i) => if i < t.len() && t[i as int].kind is Object
            && t[i as int].keys.contains(key) {
            Some(NodeRef::Doc(t[i as int].children[t[i as int].keys.index_of(key)]))
        } else {
            None
        },
        NodeRef::Truth => None,
    }
}

/// The arena `t` after a leaf-to-be of kind `kind` has been appended as the
/// last child of slot `p`, under the name `key` if one is given.
pub open spec fn grown(t: DocView, p: int, key: Option<Seq<char>>, kind: Kind) -> DocView {
    let old_parent = t[p];
    let new_parent = NodeView {
        kind: old_parent.kind,
        parent: old_parent.parent,
        children: old_parent.children.push(t.len() as usize),
        keys: match key {
            Some(name) => old_parent.keys.push(name),
            None => old_parent.keys,
        },
    };
    t.update(p, new_parent).push(
        NodeView { kind, parent: Some(p as usize), children: Seq::empty(), keys: Seq::empty() },
    )
}

/// Appending a child to an array, or a fresh name to an object, keeps the
/// arena a tree.
pub proof fn lemma_grown_wf(t: DocView, p: int, key: Option<Seq<char>>, kind: Kind)
    requires
        tree_wf(t),
        0 <= p < t.len() < usize::MAX,
        match key {
            Some(name) => t[p].kind is Object && !t[p].keys.contains(name),
            None => t[p].kind is Array,
        },
    ensures
        tree_wf(grown(t, p, key, kind)),
{
    let g = grown(t, p, key, kind);
    let id = t.len() as int;
    assert(slot_wf(t, p));
    assert forall|i: int| 0 <= i < g.len() implies #[trigger] slot_wf(g, i) by {
        if i == id {
        } else {
            assert(slot_wf(t, i));
            if i == p {
                assert forall|k: int, l: int| 0 <= k < l < g[i].keys.len() implies g[i].keys[k]
                    != g[i].keys[l] by {
                    if l == t[p].keys.len() {
                        assert(t[p].keys.contains(t[p].keys[k]));
                    }
                }
            }
        }
    }
    assert forall|i: int| 1 <= i < g.len() implies #[trigger] slot_attached(g, i) by {
        if i == id {
            assert(g[p].children[t[p].children.len() as int] == i as usize);
        } else {
            assert(slot_attached(t, i));
            let q = t[i].parent->Some_0 as int;
            let k = choose|k: int| 0 <= k < t[q].children.len() && t[q].children[k] == i as usize;
            assert(g[q].children[k] == i as usize);
        }
    }
}

struct Slot {
    kind: Kind,
    parent: Option<usize>,
    children: Vec<usize>,
    keys: Vec<String>,
}

impl Slot {
    spec fn model(self) -> NodeView {
        NodeView {
            kind: self.kind,
            parent: self.parent,
            children: self.children@,
            keys: Seq::new(self.keys@.len(), |k: int| self.keys@[k]@),
        }
    }
}

/// A document: an immutable-once-built tree of nodes, grown from the root
/// down by appending children to nodes that are already there.
pub struct Document {
    slots: Vec<Slot>,
    truth: Kind,
}

impl View for Document {
    type V = DocView;

    closed spec fn view(&self) -> DocView {
        Seq::new(self.slots@.len(), |i: int| self.slots@[i].model())
    }
}

impl Document {
    /// The document is a tree rooted at slot 0.
    pub closed spec fn wf(&self) -> bool {
        &&& tree_wf(self@)
        &&& self.truth == Kind::Boolean(true)
    }

    /// A well-formed document is a tree.
    pub proof fn lemma_wf_tree(&self)
        requires
            self.wf(),
        ensures
            tree_wf(self@),
    {
    }

    /// A document that holds the single node `root`.
    pub fn new(root: Kind) -> (doc: Document)
        ensures
            doc.wf(),
            doc@ == seq![
                NodeView { kind: root, parent: None, children: Seq::empty(), keys: Seq::empty() },
            ],
    {
        let mut slots: Vec<Slot> = Vec::new();
        slots.push(Slot { kind: root, parent: None, children: Vec::new(), keys: Vec::new() });
        let doc = Document { slots, truth: Kind::Boolean(true) };
        proof {
            let v = NodeView {
                kind: root,
                parent: None,
                children: Seq::empty(),
                keys: Seq::empty(),
            };
            assert(doc.slots@[0].model().keys =~= v.keys);
            assert(doc@ =~= seq![v]);
            assert(slot_wf(doc@, 0));
        }
        doc
    }

    /// The root of the document.
    pub fn root(&self) -> (r: NodeRef)
        ensures
            r == NodeRef::Doc(0),
    {
        NodeRef::Doc(0)
    }

    /// The number of nodes in the document.
    pub fn len(&self) -> (n: usize)
        ensures
            n == self@.len(),
    {
        self.slots.len()
    }

    /// The kind of the node `r`.
    pub fn kind(&self, r: NodeRef) -> (k: Option<&Kind>)
        requires
            self.wf(),
        ensures
            match k {
                Some(kind) => kind_of(self@, r) == Some(*kind),
                None => kind_of(self@, r) is None,
            },
    {
        match r {
            NodeRef::Truth => Some(&self.truth),
            NodeRef::Doc(i) => if i < self.slots.len() {
                Some(&self.slots[i].kind)
            } else {
                None
            },
        }
    }

    /// The number of children of the node `r`.
    pub fn child_count(&self, r: NodeRef) -> (n: usize)
        ensures
            n == children_of(self@, r).len(),
    {
        match r {
            NodeRef::Doc(i) => if i < self.slots.len() {
                self.slots[i].children.len()
            } else {
                0
            },
            NodeRef::Truth => 0,
        }
    }

    /// The child of the node `r` at position `k`, counted from 0 in
    /// document order.
    pub fn child(&self, r: NodeRef, k: usize) -> (c: NodeRef)
        requires
            k < children_of(self@, r).len(),
        ensures
            c == children_of(self@, r)[k as int],
    {
        match r {
            NodeRef::Doc(i) => NodeRef::Doc(self.slots[i].children[k]),
            NodeRef::Truth => NodeRef::Truth,
        }
    }

    /// The member named `key` of the node `r`: present exactly when `r` is
    /// an object of this document with a member of that name.
    pub fn member(&self, r: NodeRef, key: &String) -> (m: Option<NodeRef>)
        requires
            self.wf(),
        ensures
            m == member_of(self@, r, key@),
    {
        match r {
            NodeRef::Doc(i) => {
                if i >= self.slots.len() {
                    return None;
                }
                let slot = &self.slots[i];
                match slot.kind {
                    Kind::Object => {},
                    _ => {
                        return None;
                    },
                }
                let ghost keys = self@[i as int].keys;
                assert(slot_wf(self@, i as int));
                assert(self@[i as int] == slot.model());
                let mut k: usize = 0;
                while k < slot.keys.len()
                    invariant
                        k <= slot.keys.len(),
                        r == NodeRef::Doc(i),
                        i < self@.len(),
                        self@[i as int] == slot.model(),
                        slot.kind is Object,
                        keys == slot.model().keys,
                        keys.len() == slot.children@.len(),
                        forall|a: int, b: int| 0 <= a < b < keys.len() ==> keys[a] != keys[b],
                        forall|l: int| 0 <= l < k ==> keys[l] != key@,
                    decreases slot.keys.len() - k,
                {
                    if slot.keys[k] == *key {
                        assert(keys[k as int] == key@);
                        assert(keys.contains(key@));
                        assert(keys.index_of(key@) == k as int);
                        return Some(NodeRef::Doc(slot.children[k]));
                    }
                    k += 1;
                }
                assert(!keys.contains(key@));
                None
            },
            NodeRef::Truth => None,
        }
    }

    /// Appends a node of kind `kind` as the last element of the array
    /// `parent`. Succeeds exactly when `parent` is an array of this document,
    /// and then returns the new node; otherwise the document is unchanged.
    pub fn push_element(&mut self, parent: NodeRef, kind: Kind) -> (r: Option<NodeRef>)
        requires
            old(self).wf(),
        ensures
            final(self).wf(),
            r is Some <==> is_array(old(self)@, parent),
            r is None ==> final(self)@ == old(self)@,
            r is Some ==> r == Some(NodeRef::Doc(old(self)@.len() as usize))
                && final(self)@ == grown(old(self)@, parent->Doc_0 as int, None, kind),
    {
        let p = match parent {
            NodeRef::Doc(p) => p,
            NodeRef::Truth => {
                return None;
            },
        };
        if p >= self.slots.len() {
            return None;
        }
        match self.slots[p].kind {
            Kind::Array => {},
            _ => {
                return None;
            },
        }
        let id = self.slots.len();
        self.slots[p].children.push(id);
        self.slots.push(Slot { kind, parent: Some(p), children: Vec::new(), keys: Vec::new() });
        let _len = self.slots.len();
        proof {
            let g = grown(old(self)@, p as int, None, kind);
            assert(self.slots@[p as int].model().keys =~= old(self).slots@[p as int].model().keys);
            assert(self.slots@[id as int].model().keys =~= Seq::<Seq<char>>::empty());
            assert forall|i: int| 0 <= i < g.len() implies self@[i] == g[i] by {
                if i != p && i != id {
                    assert(self.slots@[i] == old(self).slots@[i]);
                }
            }
            assert(self@ =~= g);
            lemma_grown_wf(old(self)@, p as int, None, kind);
        }
        Some(NodeRef::Doc(id))
    }

    /// Appends a node of kind `kind` as the last member of the object
    /// `parent`, under the name `key`. Succeeds exactly when `parent` is an
    /// object of this document that has no member of that name, and then
    /// returns the new node; otherwise the document is unchanged.
    pub fn insert_member(&mut self, parent: NodeRef, key: String, kind: Kind) -> (r: Option<
        NodeRef,
    >)
        requires
            old(self).wf(),
        ensures
            final(self).wf(),
            r is Some <==> is_object(old(self)@, parent) && member_of(old(self)@, parent, key@)
                is None,
            r is None ==> final(self)@ == old(self)@,
            r is Some ==> r == Some(NodeRef::Doc(old(self)@.len() as usize))
                && final(self)@ == grown(old(self)@, parent->Doc_0 as int, Some(key@), kind),
    {
        let p = match parent {
            NodeRef::Doc(p) => p,
            NodeRef::Truth => {
                return None;
            },
        };
        if p >= self.slots.len() {
            return None;
        }
        match self.slots[p].kind {
            Kind::Object => {},
            _ => {
                return None;
            },
        }
        if self.member(parent, &key).is_some() {
            return None;
        }
        let id = self.slots.len();
        let ghost name = key@;
        self.slots[p].children.push(id);
        self.slots[p].keys.push(key);
        self.slots.push(Slot { kind, parent: Some(p), children: Vec::new(), keys: Vec::new() });
        let _len = self.slots.len();
        proof {
            let g = grown(old(self)@, p as int, Some(name), kind);
            assert(self.slots@[p as int].model().keys =~= old(self).slots@[p as int].model().keys.push(
                name,
            ));
            assert(self.slots@[id as int].model().keys =~= Seq::<Seq<char>>::empty());
            assert forall|i: int| 0 <= i < g.len() implies self@[i] == g[i] by {
                if i != p && i != id {
                    assert(self.slots@[i] == old(self).slots@[i]);
                }
            }
            assert(self@ =~= g);
            lemma_grown_wf(old(self)@, p as int, Some(name), kind);
        }
        Some(NodeRef::Doc(id))
    }
}

} // verus!
