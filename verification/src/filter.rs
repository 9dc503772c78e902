//! Filters: selectors that keep a match of the selector they wrap, or drop
//! it, by the kind and value of its node.

use crate::document::{is_array, is_object, kind_of, DocView, Document, Kind};
use crate::number::{bits_equal, ieee_equal};
use crate::path::{paths_view, JsonPath, PathView};
use crate::selector::{keep_if, lemma_paths_view_push, select_each, stepped, Selector, Step};
use vstd::prelude::*;

verus! {

/// Appends `x` to `out` where `cond` holds.
pub fn push_where(cond: bool, x: &JsonPath, out: &mut Vec<JsonPath>)
    ensures
        paths_view(final(out)@) == paths_view(old(out)@) + keep_if(cond, x@),
{
    if cond {
        let copy = x.clone();
        proof {
            lemma_paths_view_push(out@, copy);
        }
        out.push(copy);
    }
    assert(paths_view(out@) =~= paths_view(old(out)@) + keep_if(cond, x@));
}

/// Selects each match of `inner` that is an object.
pub struct ObjectSel<S> {
    pub inner: S,
}

impl<S: Selector> Step for ObjectSel<S> {
    open spec fn outputs(&self, doc: DocView, x: PathView) -> Seq<PathView> {
        keep_if(
            is_object(doc, x.last()),
            x,
        )
    }

    fn emit(&self, doc: &Document, x: &JsonPath, out: &mut Vec<JsonPath>) {
        let keep = match doc.kind(x.node()) {
            Some(Kind::Object) => true,
            _ => false,
        };
        push_where(keep, x, out);
    }
}

impl<S: Selector> Selector for ObjectSel<S> {
    open spec fn matches(&self, doc: DocView, input: PathView) -> Seq<PathView> {
        stepped(self, doc, self.inner.matches(doc, input))
    }

    fn select(&self, doc: &Document, input: &JsonPath) -> (out: Vec<JsonPath>) {
        select_each(&self.inner, self, doc, input)
    }
}

/// Selects each match of `inner` that is an array.
pub struct ListSel<S> {
    pub inner: S,
}

impl<S: Selector> Step for ListSel<S> {
    open spec fn outputs(&self, doc: DocView, x: PathView) -> Seq<PathView> {
        keep_if(
            is_array(doc, x.last()),
            x,
        )
    }

    fn emit(&self, doc: &Document, x: &JsonPath, out: &mut Vec<JsonPath>) {
        let keep = match doc.kind(x.node()) {
            Some(Kind::Array) => true,
            _ => false,
        };
        push_where(keep, x, out);
    }
}

impl<S: Selector> Selector for ListSel<S> {
    open spec fn matches(&self, doc: DocView, input: PathView) -> Seq<PathView> {
        stepped(self, doc, self.inner.matches(doc, input))
    }

    fn select(&self, doc: &Document, input: &JsonPath) -> (out: Vec<JsonPath>) {
        select_each(&self.inner, self, doc, input)
    }
}

/// Selects each match of `inner` that is a string.
pub struct StringSel<S> {
    pub inner: S,
}

impl<S: Selector> Step for StringSel<S> {
    open spec fn outputs(&self, doc: DocView, x: PathView) -> Seq<PathView> {
        keep_if(
            match kind_of(doc, x.last()) {
                Some(Kind::String(_)) => true,
                _ => false,
            },
            x,
        )
    }

    fn emit(&self, doc: &Document, x: &JsonPath, out: &mut Vec<JsonPath>) {
        let keep = match doc.kind(x.node()) {
            Some(Kind::String(_)) => true,
            _ => false,
        };
        push_where(keep, x, out);
    }
}

impl<S: Selector> Selector for StringSel<S> {
    open spec fn matches(&self, doc: DocView, input: PathView) -> Seq<PathView> {
        stepped(self, doc, self.inner.matches(doc, input))
    }

    fn select(&self, doc: &Document, input: &JsonPath) -> (out: Vec<JsonPath>) {
        select_each(&self.inner, self, doc, input)
    }
}

impl<S: Selector> StringSel<S> {
    /// Selects each string that has exactly the content `comp`.
    pub fn equals(self, comp: &str) -> (r: StringEquals<S>)
        ensures
            r.inner == self.inner,
            r.comp@ == comp@,
    {
        StringEquals { inner: self.inner, comp: comp.to_owned() }
    }
}

/// Selects each match of `inner` that is a string whose whole content is
/// `comp`.
pub struct StringEquals<S> {
    pub inner: S,
    pub comp: String,
}

impl<S: Selector> Step for StringEquals<S> {
    open spec fn outputs(&self, doc: DocView, x: PathView) -> Seq<PathView> {
        keep_if(
            match kind_of(doc, x.last()) {
                Some(Kind::String(s)) => s@ == self.comp@,
                _ => false,
            },
            x,
        )
    }

    fn emit(&self, doc: &Document, x: &JsonPath, out: &mut Vec<JsonPath>) {
        let keep = match doc.kind(x.node()) {
            Some(Kind::String(s)) => *s == self.comp,
            _ => false,
        };
        push_where(keep, x, out);
    }
}

impl<S: Selector> Selector for StringEquals<S> {
    open spec fn matches(&self, doc: DocView, input: PathView) -> Seq<PathView> {
        stepped(self, doc, self.inner.matches(doc, input))
    }

    fn select(&self, doc: &Document, input: &JsonPath) -> (out: Vec<JsonPath>) {
        select_each(&self.inner, self, doc, input)
    }
}

/// Selects each match of `inner` that is a boolean.
pub struct BooleanSel<S> {
    pub inner: S,
}

impl<S: Selector> Step for BooleanSel<S> {
    open spec fn outputs(&self, doc: DocView, x: PathView) -> Seq<PathView> {
        keep_if(
            match kind_of(doc, x.last()) {
                Some(Kind::Boolean(_)) => true,
                _ => false,
            },
            x,
        )
    }

    fn emit(&self, doc: &Document, x: &JsonPath, out: &mut Vec<JsonPath>) {
        let keep = match doc.kind(x.node()) {
            Some(Kind::Boolean(_)) => true,
            _ => false,
        };
        push_where(keep, x, out);
    }
}

impl<S: Selector> Selector for BooleanSel<S> {
    open spec fn matches(&self, doc: DocView, input: PathView) -> Seq<PathView> {
        stepped(self, doc, self.inner.matches(doc, input))
    }

    fn select(&self, doc: &Document, input: &JsonPath) -> (out: Vec<JsonPath>) {
        select_each(&self.inner, self, doc, input)
    }
}

impl<S: Selector> BooleanSel<S> {
    /// Selects each boolean that equals `comp`.
    pub fn equals(self, comp: bool) -> (r: BooleanEquals<S>)
        ensures
            r.inner == self.inner,
            r.comp == comp,
    {
        BooleanEquals { inner: self.inner, comp: comp }
    }
}

/// Selects each match of `inner` that is the boolean `comp`.
pub struct BooleanEquals<S> {
    pub inner: S,
    pub comp: bool,
}

impl<S: Selector> Step for BooleanEquals<S> {
    open spec fn outputs(&self, doc: DocView, x: PathView) -> Seq<PathView> {
        keep_if(
            match kind_of(doc, x.last()) {
                Some(Kind::Boolean(b)) => b == self.comp,
                _ => false,
            },
            x,
        )
    }

    fn emit(&self, doc: &Document, x: &JsonPath, out: &mut Vec<JsonPath>) {
        let keep = match doc.kind(x.node()) {
            Some(Kind::Boolean(b)) => *b == self.comp,
            _ => false,
        };
        push_where(keep, x, out);
    }
}

impl<S: Selector> Selector for BooleanEquals<S> {
    open spec fn matches(&self, doc: DocView, input: PathView) -> Seq<PathView> {
        stepped(self, doc, self.inner.matches(doc, input))
    }

    fn select(&self, doc: &Document, input: &JsonPath) -> (out: Vec<JsonPath>) {
        select_each(&self.inner, self, doc, input)
    }
}

/// Selects each match of `inner` that is an unsigned integer.
pub struct U64Sel<S> {
    pub inner: S,
}

impl<S: Selector> Step for U64Sel<S> {
    open spec fn outputs(&self, doc: DocView, x: PathView) -> Seq<PathView> {
        keep_if(
            match kind_of(doc, x.last()) {
                Some(Kind::U64(_)) => true,
                _ => false,
            },
            x,
        )
    }

    fn emit(&self, doc: &Document, x: &JsonPath, out: &mut Vec<JsonPath>) {
        let keep = match doc.kind(x.node()) {
            Some(Kind::U64(_)) => true,
            _ => false,
        };
        push_where(keep, x, out);
    }
}

impl<S: Selector> Selector for U64Sel<S> {
    open spec fn matches(&self, doc: DocView, input: PathView) -> Seq<PathView> {
        stepped(self, doc, self.inner.matches(doc, input))
    }

    fn select(&self, doc: &Document, input: &JsonPath) -> (out: Vec<JsonPath>) {
        select_each(&self.inner, self, doc, input)
    }
}

impl<S: Selector> U64Sel<S> {
    /// Selects each unsigned integer that equals `comp`.
    pub fn equals(self, comp: u64) -> (r: U64Equals<S>)
        ensures
            r.inner == self.inner,
            r.comp == comp,
    {
        U64Equals { inner: self.inner, comp: comp }
    }
}

/// Selects each match of `inner` that is the unsigned integer `comp`.
pub struct U64Equals<S> {
    pub inner: S,
    pub comp: u64,
}

impl<S: Selector> Step for U64Equals<S> {
    open spec fn outputs(&self, doc: DocView, x: PathView) -> Seq<PathView> {
        keep_if(
            match kind_of(doc, x.last()) {
                Some(Kind::U64(n)) => n == self.comp,
                _ => false,
            },
            x,
        )
    }

    fn emit(&self, doc: &Document, x: &JsonPath, out: &mut Vec<JsonPath>) {
        let keep = match doc.kind(x.node()) {
            Some(Kind::U64(n)) => *n == self.comp,
            _ => false,
        };
        push_where(keep, x, out);
    }
}

impl<S: Selector> Selector for U64Equals<S> {
    open spec fn matches(&self, doc: DocView, input: PathView) -> Seq<PathView> {
        stepped(self, doc, self.inner.matches(doc, input))
    }

    fn select(&self, doc: &Document, input: &JsonPath) -> (out: Vec<JsonPath>) {
        select_each(&self.inner, self, doc, input)
    }
}

/// Selects each match of `inner` that is a signed integer.
pub struct I64Sel<S> {
    pub inner: S,
}

impl<S: Selector> Step for I64Sel<S> {
    open spec fn outputs(&self, doc: DocView, x: PathView) -> Seq<PathView> {
        keep_if(
            match kind_of(doc, x.last()) {
                Some(Kind::I64(_)) => true,
                _ => false,
            },
            x,
        )
    }

    fn emit(&self, doc: &Document, x: &JsonPath, out: &mut Vec<JsonPath>) {
        let keep = match doc.kind(x.node()) {
            Some(Kind::I64(_)) => true,
            _ => false,
        };
        push_where(keep, x, out);
    }
}

impl<S: Selector> Selector for I64Sel<S> {
    open spec fn matches(&self, doc: DocView, input: PathView) -> Seq<PathView> {
        stepped(self, doc, self.inner.matches(doc, input))
    }

    fn select(&self, doc: &Document, input: &JsonPath) -> (out: Vec<JsonPath>) {
        select_each(&self.inner, self, doc, input)
    }
}

impl<S: Selector> I64Sel<S> {
    /// Selects each signed integer that equals `comp`.
    pub fn equals(self, comp: i64) -> (r: I64Equals<S>)
        ensures
            r.inner == self.inner,
            r.comp == comp,
    {
        I64Equals { inner: self.inner, comp: comp }
    }
}

/// Selects each match of `inner` that is the signed integer `comp`.
pub struct I64Equals<S> {
    pub inner: S,
    pub comp: i64,
}

impl<S: Selector> Step for I64Equals<S> {
    open spec fn outputs(&self, doc: DocView, x: PathView) -> Seq<PathView> {
        keep_if(
            match kind_of(doc, x.last()) {
                Some(Kind::I64(n)) => n == self.comp,
                _ => false,
            },
            x,
        )
    }

    fn emit(&self, doc: &Document, x: &JsonPath, out: &mut Vec<JsonPath>) {
        let keep = match doc.kind(x.node()) {
            Some(Kind::I64(n)) => *n == self.comp,
            _ => false,
        };
        push_where(keep, x, out);
    }
}

impl<S: Selector> Selector for I64Equals<S> {
    open spec fn matches(&self, doc: DocView, input: PathView) -> Seq<PathView> {
        stepped(self, doc, self.inner.matches(doc, input))
    }

    fn select(&self, doc: &Document, input: &JsonPath) -> (out: Vec<JsonPath>) {
        select_each(&self.inner, self, doc, input)
    }
}

/// Selects each match of `inner` that is a binary64 number.
pub struct F64Sel<S> {
    pub inner: S,
}

impl<S: Selector> Step for F64Sel<S> {
    open spec fn outputs(&self, doc: DocView, x: PathView) -> Seq<PathView> {
        keep_if(
            match kind_of(doc, x.last()) {
                Some(Kind::F64(_)) => true,
                _ => false,
            },
            x,
        )
    }

    fn emit(&self, doc: &Document, x: &JsonPath, out: &mut Vec<JsonPath>) {
        let keep = match doc.kind(x.node()) {
            Some(Kind::F64(_)) => true,
            _ => false,
        };
        push_where(keep, x, out);
    }
}

impl<S: Selector> Selector for F64Sel<S> {
    open spec fn matches(&self, doc: DocView, input: PathView) -> Seq<PathView> {
        stepped(self, doc, self.inner.matches(doc, input))
    }

    fn select(&self, doc: &Document, input: &JsonPath) -> (out: Vec<JsonPath>) {
        select_each(&self.inner, self, doc, input)
    }
}

impl<S: Selector> F64Sel<S> {
    /// Selects each binary64 number that equals the number with the bit
    /// pattern `comp`.
    pub fn equals(self, comp: u64) -> (r: F64Equals<S>)
        ensures
            r.inner == self.inner,
            r.comp == comp,
    {
        F64Equals { inner: self.inner, comp: comp }
    }
}

/// Selects each match of `inner` that is a binary64 number equal to the
/// number with the bit pattern `comp`. The comparison is that of the
/// numbers, exact and without tolerance.
pub struct F64Equals<S> {
    pub inner: S,
    pub comp: u64,
}

impl<S: Selector> Step for F64Equals<S> {
    open spec fn outputs(&self, doc: DocView, x: PathView) -> Seq<PathView> {
        keep_if(
            match kind_of(doc, x.last()) {
                Some(Kind::F64(bits)) => ieee_equal(bits, self.comp),
                _ => false,
            },
            x,
        )
    }

    fn emit(&self, doc: &Document, x: &JsonPath, out: &mut Vec<JsonPath>) {
        let keep = match doc.kind(x.node()) {
            Some(Kind::F64(bits)) => bits_equal(*bits, self.comp),
            _ => false,
        };
        push_where(keep, x, out);
    }
}

impl<S: Selector> Selector for F64Equals<S> {
    open spec fn matches(&self, doc: DocView, input: PathView) -> Seq<PathView> {
        stepped(self, doc, self.inner.matches(doc, input))
    }

    fn select(&self, doc: &Document, input: &JsonPath) -> (out: Vec<JsonPath>) {
        select_each(&self.inner, self, doc, input)
    }
}

/// Selects each match of `inner` that is null.
pub struct NullSel<S> {
    pub inner: S,
}

impl<S: Selector> Step for NullSel<S> {
    open spec fn outputs(&self, doc: DocView, x: PathView) -> Seq<PathView> {
        keep_if(
            match kind_of(doc, x.last()) {
                Some(Kind::Null) => true,
                _ => false,
            },
            x,
        )
    }

    fn emit(&self, doc: &Document, x: &JsonPath, out: &mut Vec<JsonPath>) {
        let keep = match doc.kind(x.node()) {
            Some(Kind::Null) => true,
            _ => false,
        };
        push_where(keep, x, out);
    }
}

impl<S: Selector> Selector for NullSel<S> {
    open spec fn matches(&self, doc: DocView, input: PathView) -> Seq<PathView> {
        stepped(self, doc, self.inner.matches(doc, input))
    }

    fn select(&self, doc: &Document, input: &JsonPath) -> (out: Vec<JsonPath>) {
        select_each(&self.inner, self, doc, input)
    }
}

} // verus!
