//! Plain-value records and record-shape metadata.
//!
//! The storage engine is generic over the record type only through its
//! ordered field descriptors; a record value crosses the engine's boundary
//! as one byte vector per field, in declaration order.

use vstd::prelude::*;
use crate::layout::FieldDesc;

verus! {

/// A record decomposed into its per-field values: entry `i` holds the bytes
/// of field `i`, exactly that field's declared size.
pub struct Record {
    /// One byte vector per field, in declaration order.
    pub values: Vec<Vec<u8>>,
}

/// The record has one value per descriptor and each value has its field's
/// declared size.
pub open spec fn record_matches(fields: Seq<FieldDesc>, r: Record) -> bool {
    &&& r.values@.len() == fields.len()
    &&& forall|i: int| 0 <= i < fields.len() ==> #[trigger] r.values@[i]@.len() == fields[i].size
}

/// A borrowed row materialised as plain bytes: the value of every field at
/// one index, bundled in declaration order.  It never owns the underlying
/// slots; dropping it does not touch the storage it was read from.
pub struct RowView {
    /// One byte vector per field, in declaration order.
    pub values: Vec<Vec<u8>>,
}

impl RowView {
    /// The row-as-value adapter: turns the snapshot into an owned record
    /// value, field by field, while the storage keeps the original slots.
    pub fn to_record(self) -> (r: Record)
        ensures
            r.values == self.values,
    {
        Record { values: self.values }
    }

    /// Field-by-field equality between this row and a record value.
    pub fn eq_record(&self, other: &Record) -> (r: bool)
        ensures
            r <==> (self.values@.len() == other.values@.len() && forall|f: int|
                0 <= f < self.values@.len() ==> #[trigger] self.values@[f]@
                    == other.values@[f]@),
    {
        values_eq(&self.values, &other.values)
    }
}

/// One contiguous sub-range of every field's array, materialised as plain
/// bytes, field by field.
pub struct SliceView {
    /// For each field, the bytes of its elements over the requested index
    /// range, contiguous in element order.
    pub values: Vec<Vec<u8>>,
}

/// Compares two byte vectors for equality of contents.
fn bytes_eq(a: &Vec<u8>, b: &Vec<u8>) -> (r: bool)
    ensures
        r <==> a@ == b@,
{
    if a.len() != b.len() {
        return false;
    }
    let n = a.len();
    let mut i: usize = 0;
    while i < n
        invariant
            n == a@.len() == b@.len(),
            0 <= i <= n,
            forall|k: int| 0 <= k < i ==> a@[k] == #[trigger] b@[k],
        decreases n - i,
    {
        if a[i] != b[i] {
            return false;
        }
        i += 1;
    }
    proof {
        assert(a@ =~= b@);
    }
    true
}

/// Compares two field-value bundles for equality of contents.
fn values_eq(a: &Vec<Vec<u8>>, b: &Vec<Vec<u8>>) -> (r: bool)
    ensures
        r <==> (a@.len() == b@.len() && forall|f: int|
            0 <= f < a@.len() ==> #[trigger] a@[f]@ == b@[f]@),
{
    if a.len() != b.len() {
        return false;
    }
    let n = a.len();
    let mut f: usize = 0;
    while f < n
        invariant
            n == a@.len() == b@.len(),
            0 <= f <= n,
            forall|k: int| 0 <= k < f ==> #[trigger] a@[k]@ == b@[k]@,
        decreases n - f,
    {
        if !bytes_eq(&a[f], &b[f]) {
            return false;
        }
        f += 1;
    }
    true
}

/// Whether a record type's fields are named or positional (tuple-like).
/// The packing itself depends only on declaration order, never on names.
#[derive(Debug, Copy, Clone, PartialEq, Eq, PartialOrd, Ord)]
pub enum FieldKind {
    /// Fields addressed by name.
    Named,
    /// Fields addressed by position.
    Unnamed,
}

/// Optional behaviours a record type opts into beyond plain storage:
/// formatted output and equality between rows and record values.
#[derive(Debug, Copy, Clone, Default)]
pub struct ExtraImpl {
    /// The record supports formatted output.
    pub debug: bool,
    /// Rows of the record compare equal field by field.
    pub partial_eq: bool,
}

} // verus!
