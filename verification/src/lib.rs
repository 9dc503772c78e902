//! Composable selectors over JSON-like documents.
//!
//! A document is an arena of nodes forming a tree; a selector maps one
//! breadcrumb path into the document to the sequence of paths it matches.
//! Selectors are built by chaining, starting from [`node`], and run with
//! [`Document::query`].

pub mod combine;
pub mod descend;
pub mod document;
pub mod filter;
pub mod identity;
pub mod laws;
pub mod matchset;
pub mod navigate;
pub mod number;
pub mod path;
pub mod query;
pub mod selector;
pub mod traversal;

pub use combine::{AndSel, Diff, Intersect, OrSel, Union, Wherein};
pub use descend::Descend;
pub use document::{Document, Kind, NodeRef};
pub use filter::{
    BooleanEquals, BooleanSel, F64Equals, F64Sel, I64Equals, I64Sel, ListSel, NullSel, ObjectSel,
    StringEquals, StringSel, U64Equals, U64Sel,
};
pub use navigate::{Ascend, At, Child, Key, Parent};
pub use path::JsonPath;
pub use selector::{
    and, ascend, at, boolean, child, descend, diff, float64, int64, intersect, key, list, node,
    null, object, or, parent, string, uint64, union, wherein, Combining, Filtering, Node, Selector,
    Step,
};
