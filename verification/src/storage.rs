//! Raw storage: one owned allocation holding every field's array.
//!
//! The allocation is modelled as an owned byte buffer; the per-field base
//! addresses are the planned offsets into that buffer, recomputed from the
//! field descriptors and the current capacity whenever they are needed.
//! Element `j` of field `f` occupies the bytes
//! `[offset(f) + j*size(f), offset(f) + (j+1)*size(f))`.

use vstd::prelude::*;
use crate::layout::{
    FieldDesc, LayoutPlan, SoaError, fields_wf, plan, plan_matches, spec_offset, spec_total,
    lemma_plan_disjoint, lemma_plan_monotone_cap, lemma_plan_at_zero_cap, lemma_slot_in_field
};
use crate::record::{Record, RowView, SliceView, record_matches};

verus! {

/// The storage engine's state: the field descriptors of the record type,
/// the current capacity, and the single allocation backing every field's
/// array at that capacity.
pub struct RawStorage {
    /// Field descriptors of the record type, in declaration order.
    pub fields: Vec<FieldDesc>,
    /// Number of slots each field's array has room for; 0 means no
    /// allocation exists.
    pub capacity: usize,
    /// The single allocation, sized by the plan for the current capacity.
    pub buf: Vec<u8>,
}

impl RawStorage {
    /// Well-formedness: the descriptors are valid and the buffer is exactly
    /// as large as the plan for the current capacity demands.
    pub open spec fn wf(self) -> bool {
        &&& fields_wf(self.fields@)
        &&& spec_total(self.fields@, self.capacity as int) <= usize::MAX
        &&& self.buf@.len() == spec_total(self.fields@, self.capacity as int)
    }

    /// The bytes of element `j` of field `f` at the current capacity.
    pub open spec fn slot_bytes(self, f: int, j: int) -> Seq<u8> {
        slot_bytes_of(self.fields@, self.capacity as int, self.buf@, f, j)
    }

    /// Creates the empty storage for a record type: capacity zero, no
    /// allocation.
    pub fn new(fields: Vec<FieldDesc>) -> (s: Self)
        requires
            fields_wf(fields@),
        ensures
            s.wf(),
            s.capacity == 0,
            s.fields@ == fields@,
            s.buf@.len() == 0,
    {
        proof {
            lemma_plan_at_zero_cap(fields@);
        }
        Self { fields, capacity: 0, buf: Vec::new() }
    }

    /// Allocates storage for `capacity` slots of every field.  Returns
    /// `Overflow`, without allocating, exactly when the layout for
    /// `capacity` does not fit in a `usize`; an allocation the platform
    /// refuses aborts, as runaway growth of a dynamic array does.
    pub fn allocate(fields: Vec<FieldDesc>, capacity: usize) -> (r: Result<Self, SoaError>)
        requires
            fields_wf(fields@),
            capacity > 0,
        ensures
            r matches Ok(s) ==> s.wf() && s.capacity == capacity && s.fields@ == fields@,
            r is Ok <==> spec_total(fields@, capacity as int) <= usize::MAX,
            r is Err ==> r == Err::<Self, SoaError>(SoaError::Overflow),
    {
        let p = match plan(&fields, capacity) {
            Ok(p) => p,
            Err(e) => {
                return Err(e);
            },
        };
        let mut buf: Vec<u8> = Vec::new();
        zero_extend(&mut buf, p.total_size);
        Ok(Self { fields, capacity, buf })
    }

    /// Releases the allocation.  The caller must pass exactly the capacity
    /// the storage currently has; with capacity zero nothing was ever
    /// allocated and the call does nothing.
    pub fn deallocate(&mut self, capacity: usize)
        requires
            old(self).wf(),
            capacity == old(self).capacity,
        ensures
            final(self).wf(),
            final(self).capacity == 0,
            final(self).fields@ == old(self).fields@,
            final(self).buf@.len() == 0,
    {
        self.buf.clear();
        self.capacity = 0;
        proof {
            lemma_plan_at_zero_cap(self.fields@);
        }
    }

    /// Dismantles the storage into its descriptors, capacity and raw bytes,
    /// for callers that manage the allocation themselves.
    pub fn into_parts(self) -> (r: (Vec<FieldDesc>, usize, Vec<u8>))
        ensures
            r.0 == self.fields,
            r.1 == self.capacity,
            r.2 == self.buf,
    {
        let Self { fields, capacity, buf } = self;
        (fields, capacity, buf)
    }

    /// Rebuilds a storage handle from raw bytes and the capacity they were
    /// laid out for: the counterpart of `into_parts`.
    pub fn from_parts(fields: Vec<FieldDesc>, capacity: usize, buf: Vec<u8>) -> (s: Self)
        requires
            fields_wf(fields@),
            spec_total(fields@, capacity as int) <= usize::MAX,
            buf@.len() == spec_total(fields@, capacity as int),
        ensures
            s.wf(),
            s.fields == fields,
            s.capacity == capacity,
            s.buf == buf,
    {
        Self { fields, capacity, buf }
    }
    /// For every field independently, moves `count` contiguous elements
    /// from index `src` to index `dst` within that field's own array, with
    /// the semantics of one overlap-safe move per field; slots outside the
    /// destination range keep their bytes.
    pub fn copy_within(&mut self, src: usize, dst: usize, count: usize)
        requires
            old(self).wf(),
            old(self).capacity > 0,
            src + count <= old(self).capacity,
            dst + count <= old(self).capacity,
        ensures
            final(self).wf(),
            final(self).fields@ == old(self).fields@,
            final(self).capacity == old(self).capacity,
            forall|f: int, k: int|
                0 <= f < old(self).fields@.len() && 0 <= k < count
                    ==> #[trigger] final(self).slot_bytes(f, dst + k) == old(self).slot_bytes(
                    f,
                    src + k,
                ),
            forall|f: int, j: int|
                0 <= f < old(self).fields@.len() && 0 <= j < old(self).capacity && !(dst <= j
                    < dst + count) ==> #[trigger] final(self).slot_bytes(f, j) == old(
                    self,
                ).slot_bytes(f, j),
    {
        let ghost gfields = self.fields@;
        let ghost gcap = self.capacity as int;
        proof {
            lemma_plan_disjoint(gfields, gcap);
        }
        let p = self.plan_current();
        let n = self.fields.len();
        let mut f: usize = 0;
        while f < n
            invariant
                self.wf(),
                self.fields@ == gfields,
                self.capacity as int == gcap,
                src + count <= gcap,
                dst + count <= gcap,
                n == gfields.len(),
                0 <= f <= n,
                plan_matches(p, gfields, gcap),
                self.buf@.len() == old(self).buf@.len(),
                forall|g: int, k: int|
                    0 <= g < f && 0 <= k < count
                        ==> #[trigger] slot_bytes_of(gfields, gcap, self.buf@, g, dst + k)
                            == slot_bytes_of(gfields, gcap, old(self).buf@, g, src + k),
                forall|g: int, j: int|
                    0 <= g < gfields.len() && 0 <= j < gcap && (g >= f || !(dst <= j < dst
                        + count)) ==> #[trigger] slot_bytes_of(gfields, gcap, self.buf@, g, j)
                        == slot_bytes_of(gfields, gcap, old(self).buf@, g, j),
            decreases n - f,
        {
            let sz = self.fields[f].size;
            let off = p.offsets[f];
            proof {
                lemma_range_in_field(gfields, gcap, f as int, src as int, count as int);
                lemma_range_in_field(gfields, gcap, f as int, dst as int, count as int);
            }
            let cnt = count * sz;
            let sbase = off + src * sz;
            let dbase = off + dst * sz;
            let ghost pre = self.buf@;
            move_bytes(&mut self.buf, sbase, dbase, cnt);
            proof {
                lemma_copy_step(gfields, gcap, pre, self.buf@, f as int, src as int, dst as int,
                    count as int);
                assert forall|g: int, k: int|
                    0 <= g < f + 1 && 0 <= k < count
                    implies #[trigger] slot_bytes_of(gfields, gcap, self.buf@, g, dst + k)
                    == slot_bytes_of(gfields, gcap, old(self).buf@, g, src + k) by {
                    if g < f {
                        assert(slot_bytes_of(gfields, gcap, self.buf@, g, dst + k)
                            == slot_bytes_of(gfields, gcap, pre, g, dst + k));
                        assert(slot_bytes_of(gfields, gcap, pre, g, dst + k)
                            == slot_bytes_of(gfields, gcap, old(self).buf@, g, src + k));
                    } else {
                        assert(slot_bytes_of(gfields, gcap, self.buf@, g, dst + k)
                            == slot_bytes_of(gfields, gcap, pre, g, src + k));
                        assert(slot_bytes_of(gfields, gcap, pre, g, src + k)
                            == slot_bytes_of(gfields, gcap, old(self).buf@, g, src + k));
                    }
                }
                assert forall|g: int, j: int|
                    0 <= g < gfields.len() && 0 <= j < gcap && (g >= f + 1 || !(dst <= j < dst
                        + count)) implies #[trigger] slot_bytes_of(gfields, gcap, self.buf@, g, j)
                    == slot_bytes_of(gfields, gcap, old(self).buf@, g, j) by {
                    assert(slot_bytes_of(gfields, gcap, self.buf@, g, j)
                        == slot_bytes_of(gfields, gcap, pre, g, j));
                }
            }
            f += 1;
        }
        proof {
            assert forall|f0: int, k: int|
                0 <= f0 < gfields.len() && 0 <= k < count
                implies #[trigger] self.slot_bytes(f0, dst + k) == old(self).slot_bytes(
                f0,
                src + k,
            ) by {
                assert(slot_bytes_of(gfields, gcap, self.buf@, f0, dst + k)
                    == slot_bytes_of(gfields, gcap, old(self).buf@, f0, src + k));
            }
            assert forall|f0: int, j: int|
                0 <= f0 < gfields.len() && 0 <= j < gcap && !(dst <= j < dst + count)
                implies #[trigger] self.slot_bytes(f0, j) == old(self).slot_bytes(f0, j) by {
                assert(slot_bytes_of(gfields, gcap, self.buf@, f0, j)
                    == slot_bytes_of(gfields, gcap, old(self).buf@, f0, j));
            }
        }
    }

    /// Grows the storage to `new_capacity` slots, keeping the first
    /// `length` elements of every field.  The allocation is resized first;
    /// fields are then relocated in reverse declaration order, because
    /// growing never moves an offset backwards, so moving the last field
    /// out of the way first protects not-yet-moved data from being
    /// overwritten.  Returns `Overflow`, leaving the storage untouched,
    /// exactly when the layout for `new_capacity` does not fit in a
    /// `usize`.
    pub fn grow(&mut self, new_capacity: usize, length: usize) -> (r: Result<(), SoaError>)
        requires
            old(self).wf(),
            old(self).capacity > 0,
            new_capacity > old(self).capacity,
            length <= old(self).capacity,
        ensures
            final(self).fields@ == old(self).fields@,
            r is Ok <==> spec_total(old(self).fields@, new_capacity as int) <= usize::MAX,
            r is Err ==> *final(self) == *old(self) && r == Err::<(), SoaError>(SoaError::Overflow),
            r is Ok ==> final(self).wf() && final(self).capacity == new_capacity,
            r is Ok ==> slots_preserved(*old(self), *final(self), length as int),
    {
        let ghost gfields = self.fields@;
        let ghost oldcap = self.capacity as int;
        let ghost newcap = new_capacity as int;
        let ghost glen = length as int;
        let new_plan = match plan(&self.fields, new_capacity) {
            Ok(p) => p,
            Err(e) => {
                return Err(e);
            },
        };
        let old_plan = self.plan_current();
        proof {
            lemma_plan_disjoint(gfields, oldcap);
            lemma_plan_disjoint(gfields, newcap);
            lemma_plan_monotone_cap(gfields, oldcap, newcap);
        }
        let ghost snap = self.buf@;
        zero_extend(&mut self.buf, new_plan.total_size);
        proof {
            assert forall|g: int|
                0 <= g < gfields.len() implies #[trigger] field_prefix_of(
                gfields,
                oldcap,
                self.buf@,
                g,
                glen,
            ) == field_prefix_of(gfields, oldcap, snap, g, glen) by {
                lemma_prefix_in_field(gfields, oldcap, g, glen);
                lemma_prefix_frame(gfields, oldcap, snap, self.buf@, g, glen);
            }
        }
        let n = self.fields.len();
        let mut f: usize = n;
        while f > 0
            invariant
                self.fields@ == gfields,
                fields_wf(gfields),
                self.capacity as int == oldcap,
                0 < oldcap < newcap,
                glen == length as int,
                glen <= oldcap,
                n == gfields.len(),
                0 <= f <= n,
                plan_matches(old_plan, gfields, oldcap),
                plan_matches(new_plan, gfields, newcap),
                self.buf@.len() == spec_total(gfields, newcap),
                spec_total(gfields, newcap) <= usize::MAX,
                snap.len() == spec_total(gfields, oldcap),
                forall|g: int|
                    0 <= g < f ==> #[trigger] field_prefix_of(gfields, oldcap, self.buf@, g, glen)
                        == field_prefix_of(gfields, oldcap, snap, g, glen),
                forall|g: int|
                    f <= g < n ==> #[trigger] field_prefix_of(gfields, newcap, self.buf@, g, glen)
                        == field_prefix_of(gfields, oldcap, snap, g, glen),
            decreases f,
        {
            f -= 1;
            let sz = self.fields[f].size;
            let src = old_plan.offsets[f];
            let dst = new_plan.offsets[f];
            proof {
                lemma_plan_monotone_cap(gfields, oldcap, newcap);
                lemma_prefix_in_field(gfields, oldcap, f as int, glen);
                lemma_prefix_in_field(gfields, newcap, f as int, glen);
                assert(spec_total(gfields, oldcap) <= spec_total(gfields, newcap));
            }
            let cnt = length * sz;
            let ghost pre = self.buf@;
            move_bytes(&mut self.buf, src, dst, cnt);
            proof {
                lemma_grow_move_step(gfields, oldcap, newcap, pre, self.buf@, snap, f as int, glen);
            }
        }
        self.capacity = new_capacity;
        proof {
            assert forall|f0: int, j: int|
                0 <= f0 < gfields.len() && 0 <= j < glen implies #[trigger] self.slot_bytes(f0, j)
                == old(self).slot_bytes(f0, j) by {
                lemma_prefix_in_field(gfields, oldcap, f0, glen);
                lemma_prefix_in_field(gfields, newcap, f0, glen);
                lemma_prefix_to_slots(gfields, newcap, self.buf@, oldcap, snap, f0, glen);
                assert(slot_bytes_of(gfields, newcap, self.buf@, f0, j) == slot_bytes_of(
                    gfields,
                    oldcap,
                    snap,
                    f0,
                    j,
                ));
            }
        }
        Ok(())
    }

    /// Shrinks the storage to `new_capacity` slots, keeping the first
    /// `length` elements of every field.  Relocation happens before the
    /// allocation is cut down, since data may sit past the new end, and in
    /// forward declaration order: shrinking never moves an offset forwards,
    /// so moving the first field out of the way first protects
    /// not-yet-moved data of later fields.  A smaller capacity always has a
    /// layout no larger than the current one, so this cannot overflow.
    pub fn shrink(&mut self, new_capacity: usize, length: usize)
        requires
            old(self).wf(),
            old(self).capacity > 0,
            new_capacity < old(self).capacity,
            length <= new_capacity,
        ensures
            final(self).wf(),
            final(self).fields@ == old(self).fields@,
            final(self).capacity == new_capacity,
            slots_preserved(*old(self), *final(self), length as int),
    {
        let ghost gfields = self.fields@;
        let ghost oldcap = self.capacity as int;
        let ghost newcap = new_capacity as int;
        let ghost glen = length as int;
        proof {
            lemma_plan_monotone_cap(gfields, newcap, oldcap);
        }
        let new_plan = match plan(&self.fields, new_capacity) {
            Ok(p) => p,
            Err(_) => {
                proof {
                    assert(false);
                }
                return ;
            },
        };
        let old_plan = self.plan_current();
        proof {
            lemma_plan_disjoint(gfields, oldcap);
            lemma_plan_disjoint(gfields, newcap);
        }
        let ghost snap = self.buf@;
        let n = self.fields.len();
        let mut f: usize = 0;
        while f < n
            invariant
                self.fields@ == gfields,
                fields_wf(gfields),
                self.capacity as int == oldcap,
                0 <= newcap < oldcap,
                glen == length as int,
                glen <= newcap,
                n == gfields.len(),
                0 <= f <= n,
                plan_matches(old_plan, gfields, oldcap),
                plan_matches(new_plan, gfields, newcap),
                self.buf@.len() == spec_total(gfields, oldcap),
                spec_total(gfields, oldcap) <= usize::MAX,
                snap.len() == spec_total(gfields, oldcap),
                forall|g: int|
                    0 <= g < f ==> #[trigger] field_prefix_of(gfields, newcap, self.buf@, g, glen)
                        == field_prefix_of(gfields, oldcap, snap, g, glen),
                forall|g: int|
                    f <= g < n ==> #[trigger] field_prefix_of(gfields, oldcap, self.buf@, g, glen)
                        == field_prefix_of(gfields, oldcap, snap, g, glen),
            decreases n - f,
        {
            let sz = self.fields[f].size;
            let src = old_plan.offsets[f];
            let dst = new_plan.offsets[f];
            proof {
                lemma_plan_monotone_cap(gfields, newcap, oldcap);
                lemma_prefix_in_field(gfields, oldcap, f as int, glen);
                lemma_prefix_in_field(gfields, newcap, f as int, glen);
            }
            let cnt = length * sz;
            let ghost pre = self.buf@;
            move_bytes(&mut self.buf, src, dst, cnt);
            proof {
                lemma_shrink_move_step(gfields, oldcap, newcap, pre, self.buf@, snap, f as int,
                    glen);
            }
            f += 1;
        }
        let ghost before = self.buf@;
        self.buf.truncate(new_plan.total_size);
        self.capacity = new_capacity;
        proof {
            lemma_plan_monotone_cap(gfields, newcap, oldcap);
            assert(self.buf@ == before.subrange(0, spec_total(gfields, newcap)));
            assert forall|f0: int, j: int|
                0 <= f0 < gfields.len() && 0 <= j < glen implies #[trigger] self.slot_bytes(f0, j)
                == old(self).slot_bytes(f0, j) by {
                lemma_prefix_in_field(gfields, oldcap, f0, glen);
                lemma_prefix_in_field(gfields, newcap, f0, glen);
                assert(field_prefix_of(gfields, newcap, before, f0, glen) == field_prefix_of(
                    gfields,
                    oldcap,
                    snap,
                    f0,
                    glen,
                ));
                assert forall|k: int|
                    spec_offset(gfields, newcap, f0) <= k < spec_offset(gfields, newcap, f0)
                        + glen * (gfields[f0].size as int) implies self.buf@[k]
                    == #[trigger] before[k] by {
                    assert(before.subrange(0, spec_total(gfields, newcap))[k] == before[k]);
                }
                lemma_prefix_frame(gfields, newcap, before, self.buf@, f0, glen);
                lemma_prefix_to_slots(gfields, newcap, self.buf@, oldcap, snap, f0, glen);
                assert(slot_bytes_of(gfields, newcap, self.buf@, f0, j) == slot_bytes_of(
                    gfields,
                    oldcap,
                    snap,
                    f0,
                    j,
                ));
            }
        }
    }

    /// Returns the row at `index`: a bundle holding every field's bytes at
    /// that index, without disturbing the stored slots.
    pub fn row(&self, index: usize) -> (r: RowView)
        requires
            self.wf(),
            self.capacity > 0,
            index < self.capacity,
        ensures
            r.values@.len() == self.fields@.len(),
            forall|f: int|
                0 <= f < self.fields@.len()
                    ==> #[trigger] r.values@[f]@ == self.slot_bytes(f, index as int),
    {
        let rec = self.read(index);
        RowView { values: rec.values }
    }

    /// Returns, per field, the contiguous bytes of elements `start` up to
    /// `end` of that field's array.
    pub fn slice(&self, start: usize, end: usize) -> (r: SliceView)
        requires
            self.wf(),
            start <= end,
            end <= self.capacity,
        ensures
            r.values@.len() == self.fields@.len(),
            forall|f: int|
                0 <= f < self.fields@.len() ==> #[trigger] r.values@[f]@ == field_range_of(
                    self.fields@,
                    self.capacity as int,
                    self.buf@,
                    f,
                    start as int,
                    end as int,
                ),
    {
        let ghost gfields = self.fields@;
        let ghost gcap = self.capacity as int;
        proof {
            lemma_plan_disjoint(gfields, gcap);
        }
        let p = self.plan_current();
        let n = self.fields.len();
        let mut values: Vec<Vec<u8>> = Vec::new();
        let mut f: usize = 0;
        while f < n
            invariant
                self.wf(),
                self.fields@ == gfields,
                self.capacity as int == gcap,
                start <= end <= gcap,
                n == gfields.len(),
                0 <= f <= n,
                plan_matches(p, gfields, gcap),
                values@.len() == f,
                forall|g: int|
                    0 <= g < f ==> #[trigger] values@[g]@ == field_range_of(gfields, gcap,
                    self.buf@, g, start as int, end as int),
            decreases n - f,
        {
            let sz = self.fields[f].size;
            let off = p.offsets[f];
            proof {
                lemma_range_in_field(gfields, gcap, f as int, start as int, end as int
                    - start as int);
            }
            let lo = off + start * sz;
            let cnt = (end - start) * sz;
            let mut value: Vec<u8> = Vec::new();
            let mut t: usize = 0;
            while t < cnt
                invariant
                    0 <= t <= cnt,
                    lo + cnt <= self.buf@.len() <= usize::MAX,
                    value@.len() == t,
                    forall|k: int| 0 <= k < t ==> #[trigger] value@[k] == self.buf@[lo + k],
                decreases cnt - t,
            {
                let byte = self.buf[lo + t];
                value.push(byte);
                t += 1;
            }
            proof {
                assert(value@ =~= field_range_of(gfields, gcap, self.buf@, f as int,
                    start as int, end as int));
            }
            values.push(value);
            f += 1;
        }
        SliceView { values }
    }

    /// Writes, per field, the contiguous bytes of elements `start` up to
    /// `end` of that field's array: the mutating counterpart of `slice`.
    /// Slots outside the range keep their bytes in every field.
    pub fn write_slice(&mut self, start: usize, end: usize, v: &SliceView)
        requires
            old(self).wf(),
            start <= end,
            end <= old(self).capacity,
            v.values@.len() == old(self).fields@.len(),
            forall|f: int|
                0 <= f < old(self).fields@.len() ==> #[trigger] v.values@[f]@.len() == (end
                    - start) * (old(self).fields@[f].size as int),
        ensures
            final(self).wf(),
            final(self).fields@ == old(self).fields@,
            final(self).capacity == old(self).capacity,
            forall|f: int|
                0 <= f < old(self).fields@.len() ==> #[trigger] field_range_of(
                    final(self).fields@,
                    final(self).capacity as int,
                    final(self).buf@,
                    f,
                    start as int,
                    end as int,
                ) == v.values@[f]@,
            forall|f: int, j: int|
                0 <= f < old(self).fields@.len() && 0 <= j < old(self).capacity && !(start <= j
                    < end) ==> #[trigger] final(self).slot_bytes(f, j) == old(self).slot_bytes(
                    f,
                    j,
                ),
    {
        let ghost gfields = self.fields@;
        let ghost gcap = self.capacity as int;
        proof {
            lemma_plan_disjoint(gfields, gcap);
        }
        let p = self.plan_current();
        let n = self.fields.len();
        let mut f: usize = 0;
        while f < n
            invariant
                self.wf(),
                self.fields@ == gfields,
                self.capacity as int == gcap,
                start <= end <= gcap,
                n == gfields.len(),
                0 <= f <= n,
                plan_matches(p, gfields, gcap),
                self.buf@.len() == old(self).buf@.len(),
                v.values@.len() == gfields.len(),
                forall|g: int|
                    0 <= g < gfields.len() ==> #[trigger] v.values@[g]@.len() == (end - start) * (
                    gfields[g].size as int),
                forall|g: int|
                    0 <= g < f ==> #[trigger] field_range_of(gfields, gcap, self.buf@, g,
                    start as int, end as int) == v.values@[g]@,
                forall|g: int, j: int|
                    0 <= g < gfields.len() && 0 <= j < gcap && (g >= f || !(start <= j < end))
                        ==> #[trigger] slot_bytes_of(gfields, gcap, self.buf@, g, j)
                        == slot_bytes_of(gfields, gcap, old(self).buf@, g, j),
            decreases n - f,
        {
            let sz = self.fields[f].size;
            let off = p.offsets[f];
            proof {
                lemma_range_in_field(gfields, gcap, f as int, start as int, end as int
                    - start as int);
            }
            let lo = off + start * sz;
            let cnt = (end - start) * sz;
            let ghost pre = self.buf@;
            let ghost val = v.values@[f as int]@;
            let value = &v.values[f];
            let mut t: usize = 0;
            while t < cnt
                invariant
                    self.fields@ == gfields,
                    self.capacity as int == gcap,
                    0 <= f < n == gfields.len(),
                    0 <= t <= cnt,
                    lo + cnt <= self.buf@.len() <= usize::MAX,
                    self.buf@.len() == pre.len(),
                    value@ == val,
                    val.len() == cnt,
                    forall|k: int| 0 <= k < t ==> self.buf@[lo + k] == #[trigger] val[k],
                    forall|k: int|
                        0 <= k < pre.len() && !(lo <= k < lo + cnt) ==> self.buf@[k]
                            == #[trigger] pre[k],
                    forall|k: int|
                        lo + t <= k < lo + cnt ==> self.buf@[k] == #[trigger] pre[k],
                decreases cnt - t,
            {
                let byte = value[t];
                self.buf.set(lo + t, byte);
                t += 1;
            }
            proof {
                lemma_range_write_step(gfields, gcap, pre, self.buf@, val, f as int,
                    start as int, end as int);
                assert forall|g: int|
                    0 <= g < f + 1 implies #[trigger] field_range_of(gfields, gcap, self.buf@, g,
                    start as int, end as int) == v.values@[g]@ by {
                    if g < f {
                        assert(field_range_of(gfields, gcap, self.buf@, g, start as int,
                            end as int) == field_range_of(gfields, gcap, pre, g, start as int,
                            end as int));
                    }
                }
                assert forall|g: int, j: int|
                    0 <= g < gfields.len() && 0 <= j < gcap && (g >= f + 1 || !(start <= j
                        < end)) implies #[trigger] slot_bytes_of(gfields, gcap, self.buf@, g, j)
                    == slot_bytes_of(gfields, gcap, old(self).buf@, g, j) by {
                    assert(slot_bytes_of(gfields, gcap, self.buf@, g, j) == slot_bytes_of(
                        gfields, gcap, pre, g, j));
                }
            }
            f += 1;
        }
        proof {
            assert forall|f0: int, j: int|
                0 <= f0 < gfields.len() && 0 <= j < gcap && !(start <= j < end)
                implies #[trigger] self.slot_bytes(f0, j) == old(self).slot_bytes(f0, j) by {
                assert(slot_bytes_of(gfields, gcap, self.buf@, f0, j) == slot_bytes_of(gfields,
                    gcap, old(self).buf@, f0, j));
            }
        }
    }

    /// Recomputes the layout plan for the storage's current capacity; under
    /// `wf` the plan always fits.
    fn plan_current(&self) -> (p: LayoutPlan)
        requires
            self.wf(),
        ensures
            plan_matches(p, self.fields@, self.capacity as int),
    {
        match plan(&self.fields, self.capacity) {
            Ok(p) => p,
            Err(_) => {
                proof {
                    assert(false);
                }
                LayoutPlan { total_size: 0, total_align: 1, offsets: Vec::new() }
            },
        }
    }

    /// Writes a record into slot `index`: each field's value goes into that
    /// field's array, overwriting the slot's previous bytes without looking
    /// at them; every other slot keeps its bytes.
    pub fn write(&mut self, index: usize, record: &Record)
        requires
            old(self).wf(),
            old(self).capacity > 0,
            index < old(self).capacity,
            record_matches(old(self).fields@, *record),
        ensures
            final(self).wf(),
            final(self).fields@ == old(self).fields@,
            final(self).capacity == old(self).capacity,
            forall|f: int|
                0 <= f < old(self).fields@.len()
                    ==> #[trigger] final(self).slot_bytes(f, index as int) == record.values@[f]@,
            forall|f: int, j: int|
                0 <= f < old(self).fields@.len() && 0 <= j < old(self).capacity && j != index
                    ==> #[trigger] final(self).slot_bytes(f, j) == old(self).slot_bytes(f, j),
    {
        let ghost gfields = self.fields@;
        let ghost gcap = self.capacity as int;
        proof {
            lemma_plan_disjoint(gfields, gcap);
        }
        let p = self.plan_current();
        let n = self.fields.len();
        let mut f: usize = 0;
        while f < n
            invariant
                self.wf(),
                self.fields@ == gfields,
                self.capacity as int == gcap,
                record_matches(gfields, *record),
                index < gcap,
                n == gfields.len(),
                0 <= f <= n,
                plan_matches(p, gfields, gcap),
                self.buf@.len() == old(self).buf@.len(),
                forall|g: int|
                    0 <= g < f
                        ==> #[trigger] slot_bytes_of(gfields, gcap, self.buf@, g, index as int)
                            == record.values@[g]@,
                forall|g: int, j: int|
                    0 <= g < gfields.len() && 0 <= j < gcap && (g >= f || j != index)
                        ==> #[trigger] slot_bytes_of(gfields, gcap, self.buf@, g, j)
                            == slot_bytes_of(gfields, gcap, old(self).buf@, g, j),
            decreases n - f,
        {
            let sz = self.fields[f].size;
            let off = p.offsets[f];
            proof {
                lemma_slot_in_field(gfields, gcap, f as int, index as int);
            }
            let base = off + index * sz;
            let ghost pre = self.buf@;
            let ghost val = record.values@[f as int]@;
            let value = &record.values[f];
            let mut b: usize = 0;
            while b < sz
                invariant
                    self.fields@ == gfields,
                    self.capacity as int == gcap,
                    0 <= f < n == gfields.len(),
                    sz == gfields[f as int].size,
                    0 <= b <= sz,
                    base + sz <= self.buf@.len() <= usize::MAX,
                    self.buf@.len() == pre.len(),
                    value@ == val,
                    val.len() == sz,
                    forall|t: int| 0 <= t < b ==> self.buf@[base + t] == #[trigger] val[t],
                    forall|k: int|
                        0 <= k < pre.len() && !(base <= k < base + b) ==> self.buf@[k] == #[trigger] pre[k],
                decreases sz - b,
            {
                let byte = value[b];
                self.buf.set(base + b, byte);
                b += 1;
            }
            proof {
                lemma_write_step(gfields, gcap, pre, self.buf@, val, f as int, index as int);
                assert forall|g: int|
                    0 <= g < f + 1 implies #[trigger] slot_bytes_of(gfields, gcap, self.buf@, g, index as int)
                    == record.values@[g]@ by {
                    if g < f {
                        assert(slot_bytes_of(gfields, gcap, self.buf@, g, index as int)
                            == slot_bytes_of(gfields, gcap, pre, g, index as int));
                        assert(slot_bytes_of(gfields, gcap, pre, g, index as int)
                            == record.values@[g]@);
                    } else {
                        assert(slot_bytes_of(gfields, gcap, self.buf@, g, index as int) == val);
                    }
                }
                assert forall|g: int, j: int|
                    0 <= g < gfields.len() && 0 <= j < gcap && (g >= f + 1 || j != index)
                    implies #[trigger] slot_bytes_of(gfields, gcap, self.buf@, g, j)
                    == slot_bytes_of(gfields, gcap, old(self).buf@, g, j) by {
                    assert(slot_bytes_of(gfields, gcap, self.buf@, g, j)
                        == slot_bytes_of(gfields, gcap, pre, g, j));
                    assert(slot_bytes_of(gfields, gcap, pre, g, j)
                        == slot_bytes_of(gfields, gcap, old(self).buf@, g, j));
                }
            }
            f += 1;
        }
        proof {
            assert forall|g: int|
                0 <= g < gfields.len() implies #[trigger] self.slot_bytes(g, index as int)
                == record.values@[g]@ by {
                assert(slot_bytes_of(gfields, gcap, self.buf@, g, index as int)
                    == record.values@[g]@);
            }
            assert forall|g: int, j: int|
                0 <= g < gfields.len() && 0 <= j < gcap && j != index
                implies #[trigger] self.slot_bytes(g, j) == old(self).slot_bytes(g, j) by {
                assert(slot_bytes_of(gfields, gcap, self.buf@, g, j)
                    == slot_bytes_of(gfields, gcap, old(self).buf@, g, j));
            }
        }
    }

    /// Reads the record stored in slot `index`, reconstructing it field by
    /// field from each field's array.
    pub fn read(&self, index: usize) -> (r: Record)
        requires
            self.wf(),
            self.capacity > 0,
            index < self.capacity,
        ensures
            record_matches(self.fields@, r),
            forall|f: int|
                0 <= f < self.fields@.len()
                    ==> #[trigger] r.values@[f]@ == self.slot_bytes(f, index as int),
    {
        let ghost gfields = self.fields@;
        let ghost gcap = self.capacity as int;
        proof {
            lemma_plan_disjoint(gfields, gcap);
        }
        let p = self.plan_current();
        let n = self.fields.len();
        let mut values: Vec<Vec<u8>> = Vec::new();
        let mut f: usize = 0;
        while f < n
            invariant
                self.wf(),
                self.fields@ == gfields,
                self.capacity as int == gcap,
                index < gcap,
                n == gfields.len(),
                0 <= f <= n,
                plan_matches(p, gfields, gcap),
                values@.len() == f,
                forall|g: int|
                    0 <= g < f ==> #[trigger] values@[g]@ == self.slot_bytes(g, index as int),
                forall|g: int| 0 <= g < f ==> #[trigger] values@[g]@.len() == gfields[g].size,
            decreases n - f,
        {
            let sz = self.fields[f].size;
            let off = p.offsets[f];
            proof {
                lemma_slot_in_field(gfields, gcap, f as int, index as int);
            }
            let base = off + index * sz;
            let mut value: Vec<u8> = Vec::new();
            let mut b: usize = 0;
            while b < sz
                invariant
                    0 <= b <= sz,
                    base + sz <= self.buf@.len() <= usize::MAX,
                    value@.len() == b,
                    forall|t: int| 0 <= t < b ==> #[trigger] value@[t] == self.buf@[base + t],
                decreases sz - b,
            {
                let byte = self.buf[base + b];
                value.push(byte);
                b += 1;
            }
            proof {
                assert(value@ =~= self.slot_bytes(f as int, index as int));
            }
            values.push(value);
            f += 1;
        }
        Record { values }
    }
}

/// All slots below `len` hold the same bytes in `post` as in `pre`.
pub open spec fn slots_preserved(pre: RawStorage, post: RawStorage, len: int) -> bool {
    forall|f: int, j: int|
        0 <= f < pre.fields@.len() && 0 <= j < len ==> #[trigger] post.slot_bytes(f, j)
            == pre.slot_bytes(f, j)
}

/// Law: slot preservation composes across consecutive capacity
/// transitions: when a grow keeps the first `len` slots of every field and
/// a following shrink keeps them again, every one of those slots survives
/// the whole sequence unchanged, field value by field value.
pub proof fn lemma_preservation_composes(a: RawStorage, b: RawStorage, c: RawStorage, len: int)
    requires
        a.fields@ == b.fields@,
        slots_preserved(a, b, len),
        slots_preserved(b, c, len),
    ensures
        slots_preserved(a, c, len),
{
}

/// The bytes of element `j` of field `f` inside a buffer laid out for
/// `fields` at capacity `cap`.
pub open spec fn slot_bytes_of(
    fields: Seq<FieldDesc>,
    cap: int,
    buf: Seq<u8>,
    f: int,
    j: int,
) -> Seq<u8> {
    let off = spec_offset(fields, cap, f);
    let sz = fields[f].size as int;
    buf.subrange(off + j * sz, off + (j + 1) * sz)
}

/// Slots are ordered inside one field's array.
proof fn lemma_slot_order(sz: int, j1: int, j2: int)
    requires
        0 <= sz,
        0 <= j1 < j2,
    ensures
        (j1 + 1) * sz <= j2 * sz,
{
    vstd::arithmetic::mul::lemma_mul_inequality(j1 + 1, j2, sz);
}

/// The bytes of elements `start` up to `end` of field `f`'s array, in a
/// buffer laid out for `fields` at capacity `cap`.
pub open spec fn field_range_of(
    fields: Seq<FieldDesc>,
    cap: int,
    buf: Seq<u8>,
    f: int,
    start: int,
    end: int,
) -> Seq<u8> {
    let off = spec_offset(fields, cap, f);
    let sz = fields[f].size as int;
    buf.subrange(off + start * sz, off + end * sz)
}

/// Law: a field range decomposes into the slots it covers: element `j` of
/// the range is slot `start + j` of the field.
pub proof fn lemma_field_range_slot(
    fields: Seq<FieldDesc>,
    cap: int,
    buf: Seq<u8>,
    f: int,
    start: int,
    end: int,
    j: int,
)
    requires
        fields_wf(fields),
        cap >= 0,
        0 <= f < fields.len(),
        0 <= start <= end <= cap,
        start <= j < end,
        buf.len() == spec_total(fields, cap),
    ensures
        slot_bytes_of(fields, cap, buf, f, j) == field_range_of(
            fields,
            cap,
            buf,
            f,
            start,
            end,
        ).subrange(
            (j - start) * (fields[f].size as int),
            (j - start + 1) * (fields[f].size as int),
        ),
{
    lemma_plan_disjoint(fields, cap);
    lemma_range_in_field(fields, cap, f, start, end - start);
    lemma_slot_in_field(fields, cap, f, j);
    let off = spec_offset(fields, cap, f);
    let sz = fields[f].size as int;
    vstd::arithmetic::mul::lemma_mul_is_distributive_add_other_way(sz, start, j - start);
    vstd::arithmetic::mul::lemma_mul_is_distributive_add_other_way(sz, j - start, 1);
    vstd::arithmetic::mul::lemma_mul_is_distributive_add_other_way(sz, j, 1);
    vstd::arithmetic::mul::lemma_mul_nonnegative(j - start, sz);
    vstd::arithmetic::mul::lemma_mul_inequality(j - start + 1, end - start, sz);
    vstd::arithmetic::mul::lemma_mul_is_distributive_add_other_way(sz, start, end - start);
    assert forall|t: int|
        0 <= t < sz implies #[trigger] slot_bytes_of(fields, cap, buf, f, j)[t]
        == field_range_of(fields, cap, buf, f, start, end).subrange(
        (j - start) * sz,
        (j - start + 1) * sz,
    )[t] by {
        assert(buf.subrange(off + start * sz, off + end * sz)[(j - start) * sz + t] == buf[off
            + start * sz + (j - start) * sz + t]);
        assert(slot_bytes_of(fields, cap, buf, f, j)[t] == buf[off + j * sz + t]);
    }
    assert(slot_bytes_of(fields, cap, buf, f, j) =~= field_range_of(
        fields,
        cap,
        buf,
        f,
        start,
        end,
    ).subrange((j - start) * sz, (j - start + 1) * sz));
}

/// A contiguous run of `cnt` slots starting at `start` lies inside its
/// field's array, and the involved products are well behaved.
proof fn lemma_range_in_field(fields: Seq<FieldDesc>, cap: int, f: int, start: int, cnt: int)
    requires
        fields_wf(fields),
        cap >= 0,
        0 <= f < fields.len(),
        0 <= start,
        0 <= cnt,
        start + cnt <= cap,
    ensures
        spec_offset(fields, cap, f) >= 0,
        start * (fields[f].size as int) >= 0,
        cnt * (fields[f].size as int) >= 0,
        (start + cnt) * (fields[f].size as int) == start * (fields[f].size as int) + cnt * (
        fields[f].size as int),
        (start + cnt) * (fields[f].size as int) <= fields[f].size * cap,
        spec_offset(fields, cap, f) + (start + cnt) * (fields[f].size as int) <= spec_total(
            fields,
            cap,
        ),
{
    lemma_plan_disjoint(fields, cap);
    let sz = fields[f].size as int;
    vstd::arithmetic::mul::lemma_mul_nonnegative(start, sz);
    vstd::arithmetic::mul::lemma_mul_nonnegative(cnt, sz);
    vstd::arithmetic::mul::lemma_mul_is_distributive_add_other_way(sz, start, cnt);
    vstd::arithmetic::mul::lemma_mul_inequality(start + cnt, cap, sz);
    vstd::arithmetic::mul::lemma_mul_is_commutative(cap, sz);
}

/// The first `len` elements of field `f`'s array, as one contiguous byte
/// range, in a buffer laid out for capacity `cap`.
pub open spec fn field_prefix_of(
    fields: Seq<FieldDesc>,
    cap: int,
    buf: Seq<u8>,
    f: int,
    len: int,
) -> Seq<u8> {
    let off = spec_offset(fields, cap, f);
    let sz = fields[f].size as int;
    buf.subrange(off, off + len * sz)
}

/// The byte range of a length-`len` field prefix lies inside the field's
/// array and so inside the allocation.
proof fn lemma_prefix_in_field(fields: Seq<FieldDesc>, cap: int, f: int, len: int)
    requires
        fields_wf(fields),
        cap >= 0,
        0 <= f < fields.len(),
        0 <= len <= cap,
    ensures
        spec_offset(fields, cap, f) >= 0,
        0 <= len * (fields[f].size as int) <= fields[f].size * cap,
        spec_offset(fields, cap, f) + len * (fields[f].size as int) <= spec_total(fields, cap),
{
    lemma_plan_disjoint(fields, cap);
    let sz = fields[f].size as int;
    vstd::arithmetic::mul::lemma_mul_nonnegative(len, sz);
    vstd::arithmetic::mul::lemma_mul_inequality(len, cap, sz);
    vstd::arithmetic::mul::lemma_mul_is_commutative(cap, sz);
}

/// A field prefix only depends on its own byte range: if two buffers agree
/// there, the prefixes are equal.
proof fn lemma_prefix_frame(fields: Seq<FieldDesc>, cap: int, pre: Seq<u8>, cur: Seq<u8>, f: int, len: int)
    requires
        fields_wf(fields),
        cap >= 0,
        0 <= f < fields.len(),
        0 <= len <= cap,
        spec_offset(fields, cap, f) + len * (fields[f].size as int) <= pre.len(),
        spec_offset(fields, cap, f) + len * (fields[f].size as int) <= cur.len(),
        forall|k: int|
            spec_offset(fields, cap, f) <= k < spec_offset(fields, cap, f) + len * (
            fields[f].size as int) ==> cur[k] == #[trigger] pre[k],
    ensures
        field_prefix_of(fields, cap, cur, f, len) == field_prefix_of(fields, cap, pre, f, len),
{
    lemma_prefix_in_field(fields, cap, f, len);
    let off = spec_offset(fields, cap, f);
    let sz = fields[f].size as int;
    assert forall|t: int|
        0 <= t < len * sz implies #[trigger] field_prefix_of(fields, cap, cur, f, len)[t]
        == field_prefix_of(fields, cap, pre, f, len)[t] by {
        assert(cur[off + t] == pre[off + t]);
    }
    assert(field_prefix_of(fields, cap, cur, f, len) =~= field_prefix_of(fields, cap, pre, f, len));
}

/// Equal field prefixes, element by element: if field `f`'s first `len`
/// elements form the same byte range in two buffers, laid out at possibly
/// different capacities, then each of those `len` slots is equal.
proof fn lemma_prefix_to_slots(
    fields: Seq<FieldDesc>,
    cap1: int,
    buf1: Seq<u8>,
    cap2: int,
    buf2: Seq<u8>,
    f: int,
    len: int,
)
    requires
        fields_wf(fields),
        cap1 >= 0,
        cap2 >= 0,
        0 <= f < fields.len(),
        0 <= len,
        len <= cap1,
        len <= cap2,
        spec_offset(fields, cap1, f) + len * (fields[f].size as int) <= buf1.len(),
        spec_offset(fields, cap2, f) + len * (fields[f].size as int) <= buf2.len(),
        field_prefix_of(fields, cap1, buf1, f, len) == field_prefix_of(fields, cap2, buf2, f, len),
    ensures
        forall|j: int|
            0 <= j < len ==> #[trigger] slot_bytes_of(fields, cap1, buf1, f, j) == slot_bytes_of(
                fields,
                cap2,
                buf2,
                f,
                j,
            ),
{
    let off1 = spec_offset(fields, cap1, f);
    let off2 = spec_offset(fields, cap2, f);
    let sz = fields[f].size as int;
    lemma_prefix_in_field(fields, cap1, f, len);
    lemma_prefix_in_field(fields, cap2, f, len);
    assert forall|j: int|
        0 <= j < len implies #[trigger] slot_bytes_of(fields, cap1, buf1, f, j) == slot_bytes_of(
        fields,
        cap2,
        buf2,
        f,
        j,
    ) by {
        vstd::arithmetic::mul::lemma_mul_nonnegative(j, sz);
        vstd::arithmetic::mul::lemma_mul_inequality(j + 1, len, sz);
        vstd::arithmetic::mul::lemma_mul_is_distributive_add_other_way(sz, j, 1);
        assert forall|t: int|
            0 <= t < sz implies #[trigger] slot_bytes_of(fields, cap1, buf1, f, j)[t]
            == slot_bytes_of(fields, cap2, buf2, f, j)[t] by {
            let m = j * sz + t;
            assert(0 <= m < len * sz);
            assert(buf1.subrange(off1, off1 + len * sz) == buf2.subrange(off2, off2 + len * sz));
            assert(buf1.subrange(off1, off1 + len * sz)[m] == buf1[off1 + m]);
            assert(buf2.subrange(off2, off2 + len * sz)[m] == buf2[off2 + m]);
            assert(buf1[off1 + j * sz + t] == buf2[off2 + j * sz + t]);
        }
        assert(slot_bytes_of(fields, cap1, buf1, f, j) =~= slot_bytes_of(fields, cap2, buf2, f, j));
    }
}

/// One step of the grow relocation, in reverse declaration order: moving
/// field `f`'s prefix from its old offset to its new offset installs that
/// field at the new layout while leaving the still-unmoved earlier fields'
/// old data and the already-moved later fields' new data untouched.
proof fn lemma_grow_move_step(
    fields: Seq<FieldDesc>,
    oldcap: int,
    newcap: int,
    pre: Seq<u8>,
    cur: Seq<u8>,
    snap: Seq<u8>,
    f: int,
    len: int,
)
    requires
        fields_wf(fields),
        0 < oldcap < newcap,
        0 <= len <= oldcap,
        0 <= f < fields.len(),
        pre.len() == spec_total(fields, newcap),
        cur.len() == pre.len(),
        snap.len() == spec_total(fields, oldcap),
        cur.subrange(
            spec_offset(fields, newcap, f),
            spec_offset(fields, newcap, f) + len * (fields[f].size as int),
        ) == pre.subrange(
            spec_offset(fields, oldcap, f),
            spec_offset(fields, oldcap, f) + len * (fields[f].size as int),
        ),
        forall|k: int|
            0 <= k < pre.len() && !(spec_offset(fields, newcap, f) <= k < spec_offset(
                fields,
                newcap,
                f,
            ) + len * (fields[f].size as int)) ==> cur[k] == #[trigger] pre[k],
        forall|g: int|
            0 <= g < f + 1 ==> #[trigger] field_prefix_of(fields, oldcap, pre, g, len)
                == field_prefix_of(fields, oldcap, snap, g, len),
        forall|g: int|
            f + 1 <= g < fields.len() ==> #[trigger] field_prefix_of(fields, newcap, pre, g, len)
                == field_prefix_of(fields, oldcap, snap, g, len),
    ensures
        forall|g: int|
            0 <= g < f ==> #[trigger] field_prefix_of(fields, oldcap, cur, g, len)
                == field_prefix_of(fields, oldcap, snap, g, len),
        forall|g: int|
            f <= g < fields.len() ==> #[trigger] field_prefix_of(fields, newcap, cur, g, len)
                == field_prefix_of(fields, oldcap, snap, g, len),
{
    lemma_plan_disjoint(fields, oldcap);
    lemma_plan_disjoint(fields, newcap);
    lemma_plan_monotone_cap(fields, oldcap, newcap);
    lemma_prefix_in_field(fields, oldcap, f, len);
    lemma_prefix_in_field(fields, newcap, f, len);
    let sz = fields[f].size as int;
    let dstlo = spec_offset(fields, newcap, f);
    let dsthi = dstlo + len * sz;
    // the destination range took the source range, which held field f's
    // old prefix
    assert(field_prefix_of(fields, newcap, cur, f, len) == field_prefix_of(
        fields,
        oldcap,
        pre,
        f,
        len,
    ));
    // earlier fields' old arrays end before field f's old offset, which is
    // at or before its new offset
    assert forall|g: int|
        0 <= g < f implies #[trigger] field_prefix_of(fields, oldcap, cur, g, len)
        == field_prefix_of(fields, oldcap, snap, g, len) by {
        lemma_prefix_in_field(fields, oldcap, g, len);
        assert(spec_offset(fields, oldcap, g) + fields[g].size * oldcap <= spec_offset(
            fields,
            oldcap,
            f,
        ));
        assert(spec_offset(fields, oldcap, f) <= dstlo);
        lemma_prefix_frame(fields, oldcap, pre, cur, g, len);
    }
    // later fields' new arrays start after field f's new array ends
    assert forall|g: int|
        f <= g < fields.len() implies #[trigger] field_prefix_of(fields, newcap, cur, g, len)
        == field_prefix_of(fields, oldcap, snap, g, len) by {
        if g > f {
            lemma_prefix_in_field(fields, newcap, g, len);
            assert(dsthi <= dstlo + fields[f].size * newcap) by {
                vstd::arithmetic::mul::lemma_mul_inequality(len, newcap, sz);
                vstd::arithmetic::mul::lemma_mul_is_commutative(newcap, sz);
            }
            assert(dstlo + fields[f].size * newcap <= spec_offset(fields, newcap, g));
            lemma_prefix_frame(fields, newcap, pre, cur, g, len);
        }
    }
}

/// One step of the shrink relocation, in forward declaration order:
/// moving field `f`'s prefix from its old offset down to its new offset
/// installs that field at the new layout while leaving the already-moved
/// earlier fields' new data and the still-unmoved later fields' old data
/// untouched.
proof fn lemma_shrink_move_step(
    fields: Seq<FieldDesc>,
    oldcap: int,
    newcap: int,
    pre: Seq<u8>,
    cur: Seq<u8>,
    snap: Seq<u8>,
    f: int,
    len: int,
)
    requires
        fields_wf(fields),
        0 <= newcap < oldcap,
        0 <= len <= newcap,
        0 <= f < fields.len(),
        pre.len() == spec_total(fields, oldcap),
        cur.len() == pre.len(),
        snap.len() == spec_total(fields, oldcap),
        cur.subrange(
            spec_offset(fields, newcap, f),
            spec_offset(fields, newcap, f) + len * (fields[f].size as int),
        ) == pre.subrange(
            spec_offset(fields, oldcap, f),
            spec_offset(fields, oldcap, f) + len * (fields[f].size as int),
        ),
        forall|k: int|
            0 <= k < pre.len() && !(spec_offset(fields, newcap, f) <= k < spec_offset(
                fields,
                newcap,
                f,
            ) + len * (fields[f].size as int)) ==> cur[k] == #[trigger] pre[k],
        forall|g: int|
            0 <= g < f ==> #[trigger] field_prefix_of(fields, newcap, pre, g, len)
                == field_prefix_of(fields, oldcap, snap, g, len),
        forall|g: int|
            f <= g < fields.len() ==> #[trigger] field_prefix_of(fields, oldcap, pre, g, len)
                == field_prefix_of(fields, oldcap, snap, g, len),
    ensures
        forall|g: int|
            0 <= g < f + 1 ==> #[trigger] field_prefix_of(fields, newcap, cur, g, len)
                == field_prefix_of(fields, oldcap, snap, g, len),
        forall|g: int|
            f + 1 <= g < fields.len() ==> #[trigger] field_prefix_of(fields, oldcap, cur, g, len)
                == field_prefix_of(fields, oldcap, snap, g, len),
{
    lemma_plan_disjoint(fields, oldcap);
    lemma_plan_disjoint(fields, newcap);
    lemma_plan_monotone_cap(fields, newcap, oldcap);
    lemma_prefix_in_field(fields, oldcap, f, len);
    lemma_prefix_in_field(fields, newcap, f, len);
    let sz = fields[f].size as int;
    let dstlo = spec_offset(fields, newcap, f);
    let dsthi = dstlo + len * sz;
    assert(field_prefix_of(fields, newcap, cur, f, len) == field_prefix_of(
        fields,
        oldcap,
        pre,
        f,
        len,
    ));
    // earlier fields' new arrays end before field f's new offset
    assert forall|g: int|
        0 <= g < f implies #[trigger] field_prefix_of(fields, newcap, cur, g, len)
        == field_prefix_of(fields, oldcap, snap, g, len) by {
        lemma_prefix_in_field(fields, newcap, g, len);
        assert(spec_offset(fields, newcap, g) + fields[g].size * newcap <= dstlo);
        lemma_prefix_frame(fields, newcap, pre, cur, g, len);
    }
    // later fields' old arrays start at or after their new-layout end,
    // which is past field f's new array
    assert forall|g: int|
        f + 1 <= g < fields.len() implies #[trigger] field_prefix_of(fields, oldcap, cur, g, len)
        == field_prefix_of(fields, oldcap, snap, g, len) by {
        lemma_prefix_in_field(fields, oldcap, g, len);
        assert(dsthi <= dstlo + fields[f].size * newcap) by {
            vstd::arithmetic::mul::lemma_mul_inequality(len, newcap, sz);
            vstd::arithmetic::mul::lemma_mul_is_commutative(newcap, sz);
        }
        assert(dstlo + fields[f].size * newcap <= spec_offset(fields, newcap, g));
        assert(spec_offset(fields, newcap, g) <= spec_offset(fields, oldcap, g));
        lemma_prefix_frame(fields, oldcap, pre, cur, g, len);
    }
}

/// Lifts a contiguous range overwrite in one field's array from the byte
/// level to the range and slot level: the field's range takes the new
/// bytes; every slot outside it, in this field and all others, is
/// untouched.
proof fn lemma_range_write_step(
    fields: Seq<FieldDesc>,
    cap: int,
    pre: Seq<u8>,
    cur: Seq<u8>,
    val: Seq<u8>,
    f: int,
    start: int,
    end: int,
)
    requires
        fields_wf(fields),
        cap >= 0,
        0 <= f < fields.len(),
        0 <= start <= end <= cap,
        pre.len() == spec_total(fields, cap),
        cur.len() == pre.len(),
        val.len() == (end - start) * (fields[f].size as int),
        forall|t: int|
            0 <= t < (end - start) * (fields[f].size as int) ==> cur[spec_offset(fields, cap, f)
                + start * (fields[f].size as int) + t] == #[trigger] val[t],
        forall|k: int|
            0 <= k < pre.len() && !(spec_offset(fields, cap, f) + start * (fields[f].size as int)
                <= k < spec_offset(fields, cap, f) + start * (fields[f].size as int) + (end
                - start) * (fields[f].size as int)) ==> cur[k] == #[trigger] pre[k],
    ensures
        field_range_of(fields, cap, cur, f, start, end) == val,
        forall|g: int, j: int|
            0 <= g < fields.len() && 0 <= j < cap && (g != f || !(start <= j < end))
                ==> #[trigger] slot_bytes_of(fields, cap, cur, g, j) == slot_bytes_of(
                fields,
                cap,
                pre,
                g,
                j,
            ),
        forall|g: int|
            0 <= g < fields.len() && g != f ==> #[trigger] field_range_of(
                fields,
                cap,
                cur,
                g,
                start,
                end,
            ) == field_range_of(fields, cap, pre, g, start, end),
{
    lemma_plan_disjoint(fields, cap);
    lemma_range_in_field(fields, cap, f, start, end - start);
    let off = spec_offset(fields, cap, f);
    let sz = fields[f].size as int;
    let lo = off + start * sz;
    let cnt = (end - start) * sz;
    assert forall|t: int|
        0 <= t < cnt implies #[trigger] field_range_of(fields, cap, cur, f, start, end)[t]
        == val[t] by {
        assert(cur[lo + t] == val[t]);
    }
    assert(field_range_of(fields, cap, cur, f, start, end) =~= val);
    assert forall|g: int, j: int|
        0 <= g < fields.len() && 0 <= j < cap && (g != f || !(start <= j < end))
        implies #[trigger] slot_bytes_of(fields, cap, cur, g, j) == slot_bytes_of(
        fields,
        cap,
        pre,
        g,
        j,
    ) by {
        lemma_slot_in_field(fields, cap, g, j);
        let offg = spec_offset(fields, cap, g);
        let szg = fields[g].size as int;
        let slo = offg + j * szg;
        let shi = offg + (j + 1) * szg;
        if g < f {
            vstd::arithmetic::mul::lemma_mul_nonnegative(start, sz);
            assert(shi <= offg + fields[g].size * cap);
            assert(offg + fields[g].size * cap <= off);
            assert(shi <= lo);
        } else if g > f {
            vstd::arithmetic::mul::lemma_mul_nonnegative(j, szg);
            assert(lo + cnt == off + end * sz) by {
                vstd::arithmetic::mul::lemma_mul_is_distributive_add_other_way(sz, start, end
                    - start);
            }
            assert(off + end * sz <= off + fields[f].size * cap) by {
                vstd::arithmetic::mul::lemma_mul_inequality(end, cap, sz);
                vstd::arithmetic::mul::lemma_mul_is_commutative(cap, sz);
            }
            assert(off + fields[f].size * cap <= offg);
            assert(lo + cnt <= slo);
        } else if j < start {
            vstd::arithmetic::mul::lemma_mul_inequality(j + 1, start, sz);
            assert(shi <= lo);
        } else {
            vstd::arithmetic::mul::lemma_mul_inequality(end, j, sz);
            assert(lo + cnt == off + end * sz) by {
                vstd::arithmetic::mul::lemma_mul_is_distributive_add_other_way(sz, start, end
                    - start);
            }
            assert(lo + cnt <= slo);
        }
        assert forall|t: int|
            0 <= t < shi - slo implies #[trigger] slot_bytes_of(fields, cap, cur, g, j)[t]
            == slot_bytes_of(fields, cap, pre, g, j)[t] by {
            assert(cur[slo + t] == pre[slo + t]);
        }
        assert(slot_bytes_of(fields, cap, cur, g, j) =~= slot_bytes_of(fields, cap, pre, g, j));
    }
    assert forall|g: int|
        0 <= g < fields.len() && g != f implies #[trigger] field_range_of(
        fields,
        cap,
        cur,
        g,
        start,
        end,
    ) == field_range_of(fields, cap, pre, g, start, end) by {
        lemma_range_in_field(fields, cap, g, start, end - start);
        let offg = spec_offset(fields, cap, g);
        let szg = fields[g].size as int;
        let glo = offg + start * szg;
        let ghi = offg + end * szg;
        if g < f {
            assert(ghi <= offg + fields[g].size * cap);
            assert(offg + fields[g].size * cap <= off);
            vstd::arithmetic::mul::lemma_mul_nonnegative(start, sz);
            assert(ghi <= lo);
        } else {
            vstd::arithmetic::mul::lemma_mul_nonnegative(start, szg);
            assert(lo + cnt == off + end * sz) by {
                vstd::arithmetic::mul::lemma_mul_is_distributive_add_other_way(sz, start, end
                    - start);
            }
            assert(off + end * sz <= off + fields[f].size * cap) by {
                vstd::arithmetic::mul::lemma_mul_inequality(end, cap, sz);
                vstd::arithmetic::mul::lemma_mul_is_commutative(cap, sz);
            }
            assert(off + fields[f].size * cap <= offg);
            assert(lo + cnt <= glo);
        }
        assert forall|t: int|
            0 <= t < ghi - glo implies #[trigger] field_range_of(fields, cap, cur, g, start,
            end)[t] == field_range_of(fields, cap, pre, g, start, end)[t] by {
            assert(cur[glo + t] == pre[glo + t]);
        }
        assert(field_range_of(fields, cap, cur, g, start, end) =~= field_range_of(
            fields,
            cap,
            pre,
            g,
            start,
            end,
        ));
    }
}

/// Lifts one field's overlap-safe range move from the byte level to the
/// slot level: destination slots take the source slots' bytes, and every
/// slot outside the destination range, in this field and all others, is
/// untouched.
proof fn lemma_copy_step(
    fields: Seq<FieldDesc>,
    cap: int,
    pre: Seq<u8>,
    cur: Seq<u8>,
    f: int,
    src: int,
    dst: int,
    count: int,
)
    requires
        fields_wf(fields),
        cap >= 0,
        0 <= f < fields.len(),
        0 <= src,
        0 <= dst,
        0 <= count,
        src + count <= cap,
        dst + count <= cap,
        pre.len() == spec_total(fields, cap),
        cur.len() == pre.len(),
        cur.subrange(
            spec_offset(fields, cap, f) + dst * (fields[f].size as int),
            spec_offset(fields, cap, f) + dst * (fields[f].size as int) + count * (
            fields[f].size as int),
        ) == pre.subrange(
            spec_offset(fields, cap, f) + src * (fields[f].size as int),
            spec_offset(fields, cap, f) + src * (fields[f].size as int) + count * (
            fields[f].size as int),
        ),
        forall|k: int|
            0 <= k < pre.len() && !(spec_offset(fields, cap, f) + dst * (fields[f].size as int)
                <= k < spec_offset(fields, cap, f) + dst * (fields[f].size as int) + count * (
            fields[f].size as int)) ==> cur[k] == #[trigger] pre[k],
    ensures
        forall|k: int|
            0 <= k < count ==> #[trigger] slot_bytes_of(fields, cap, cur, f, dst + k)
                == slot_bytes_of(fields, cap, pre, f, src + k),
        forall|g: int, j: int|
            0 <= g < fields.len() && 0 <= j < cap && (g != f || !(dst <= j < dst + count))
                ==> #[trigger] slot_bytes_of(fields, cap, cur, g, j) == slot_bytes_of(
                fields,
                cap,
                pre,
                g,
                j,
            ),
{
    lemma_plan_disjoint(fields, cap);
    lemma_range_in_field(fields, cap, f, src, count);
    lemma_range_in_field(fields, cap, f, dst, count);
    let off = spec_offset(fields, cap, f);
    let sz = fields[f].size as int;
    let sb = off + src * sz;
    let db = off + dst * sz;
    let cnt = count * sz;
    assert forall|k: int|
        0 <= k < count implies #[trigger] slot_bytes_of(fields, cap, cur, f, dst + k)
        == slot_bytes_of(fields, cap, pre, f, src + k) by {
        lemma_slot_in_field(fields, cap, f, dst + k);
        lemma_slot_in_field(fields, cap, f, src + k);
        vstd::arithmetic::mul::lemma_mul_is_distributive_add_other_way(sz, dst, k);
        vstd::arithmetic::mul::lemma_mul_is_distributive_add_other_way(sz, src, k);
        vstd::arithmetic::mul::lemma_mul_nonnegative(k, sz);
        vstd::arithmetic::mul::lemma_mul_inequality(k + 1, count, sz);
        vstd::arithmetic::mul::lemma_mul_is_distributive_add_other_way(sz, k, 1);
        assert forall|t: int|
            0 <= t < sz implies #[trigger] slot_bytes_of(fields, cap, cur, f, dst + k)[t]
            == slot_bytes_of(fields, cap, pre, f, src + k)[t] by {
            assert(k * sz + t < cnt);
            assert(cur.subrange(db, db + cnt)[k * sz + t] == pre.subrange(sb, sb + cnt)[k * sz
                + t]);
            assert(cur[db + k * sz + t] == pre[sb + k * sz + t]);
        }
        assert(slot_bytes_of(fields, cap, cur, f, dst + k) =~= slot_bytes_of(
            fields,
            cap,
            pre,
            f,
            src + k,
        ));
    }
    assert forall|g: int, j: int|
        0 <= g < fields.len() && 0 <= j < cap && (g != f || !(dst <= j < dst + count))
        implies #[trigger] slot_bytes_of(fields, cap, cur, g, j) == slot_bytes_of(
        fields,
        cap,
        pre,
        g,
        j,
    ) by {
        lemma_slot_in_field(fields, cap, g, j);
        let offg = spec_offset(fields, cap, g);
        let szg = fields[g].size as int;
        let lo = offg + j * szg;
        let hi = offg + (j + 1) * szg;
        if g < f {
            vstd::arithmetic::mul::lemma_mul_nonnegative(dst, sz);
            assert(hi <= offg + fields[g].size * cap);
            assert(offg + fields[g].size * cap <= off);
            assert(hi <= db);
        } else if g > f {
            vstd::arithmetic::mul::lemma_mul_nonnegative(j, szg);
            assert(db + cnt == off + (dst + count) * sz);
            assert(off + (dst + count) * sz <= off + fields[f].size * cap) by {
                vstd::arithmetic::mul::lemma_mul_inequality(dst + count, cap, sz);
                vstd::arithmetic::mul::lemma_mul_is_commutative(cap, sz);
            }
            assert(off + fields[f].size * cap <= offg);
            assert(db + cnt <= lo);
        } else if j < dst {
            vstd::arithmetic::mul::lemma_mul_inequality(j + 1, dst, sz);
            assert(hi <= db);
        } else {
            vstd::arithmetic::mul::lemma_mul_inequality(dst + count, j, sz);
            assert(db + cnt == off + (dst + count) * sz);
            assert(db + cnt <= lo);
        }
        assert forall|t: int|
            0 <= t < hi - lo implies #[trigger] slot_bytes_of(fields, cap, cur, g, j)[t]
            == slot_bytes_of(fields, cap, pre, g, j)[t] by {
            assert(cur[lo + t] == pre[lo + t]);
        }
        assert(slot_bytes_of(fields, cap, cur, g, j) =~= slot_bytes_of(fields, cap, pre, g, j));
    }
}

/// Lifts the pointwise effect of overwriting one slot's bytes to the slot
/// level: the written slot holds the new bytes, and every other slot of
/// every field is untouched.
proof fn lemma_write_step(
    fields: Seq<FieldDesc>,
    cap: int,
    pre: Seq<u8>,
    cur: Seq<u8>,
    val: Seq<u8>,
    f: int,
    index: int,
)
    requires
        fields_wf(fields),
        cap >= 0,
        0 <= f < fields.len(),
        0 <= index < cap,
        pre.len() == spec_total(fields, cap),
        cur.len() == pre.len(),
        val.len() == fields[f].size,
        forall|t: int|
            0 <= t < fields[f].size ==> cur[spec_offset(fields, cap, f) + index * (
            fields[f].size as int) + t] == #[trigger] val[t],
        forall|k: int|
            0 <= k < pre.len() && !(spec_offset(fields, cap, f) + index * (
            fields[f].size as int) <= k < spec_offset(fields, cap, f) + index * (
            fields[f].size as int) + fields[f].size) ==> cur[k] == #[trigger] pre[k],
    ensures
        slot_bytes_of(fields, cap, cur, f, index) == val,
        forall|g: int, j: int|
            0 <= g < fields.len() && 0 <= j < cap && !(g == f && j == index)
                ==> #[trigger] slot_bytes_of(fields, cap, cur, g, j) == slot_bytes_of(
                fields,
                cap,
                pre,
                g,
                j,
            ),
{
    lemma_plan_disjoint(fields, cap);
    lemma_slot_in_field(fields, cap, f, index);
    let sz = fields[f].size as int;
    let base = spec_offset(fields, cap, f) + index * sz;
    assert forall|t: int|
        0 <= t < sz implies slot_bytes_of(fields, cap, cur, f, index)[t] == val[t] by {
        assert(cur[base + t] == val[t]);
    }
    assert(slot_bytes_of(fields, cap, cur, f, index) =~= val);
    assert forall|g: int, j: int|
        0 <= g < fields.len() && 0 <= j < cap && !(g == f && j == index)
        implies #[trigger] slot_bytes_of(fields, cap, cur, g, j) == slot_bytes_of(
        fields,
        cap,
        pre,
        g,
        j,
    ) by {
        lemma_slot_in_field(fields, cap, g, j);
        let offg = spec_offset(fields, cap, g);
        let szg = fields[g].size as int;
        let lo = offg + j * szg;
        let hi = offg + (j + 1) * szg;
        // the written range [base, base + sz) misses the slot [lo, hi)
        if g < f {
            // field g's whole array ends before field f's begins
            vstd::arithmetic::mul::lemma_mul_nonnegative(index, sz);
            assert(hi <= offg + fields[g].size * cap);
            assert(offg + fields[g].size * cap <= spec_offset(fields, cap, f));
            assert(hi <= base);
        } else if g > f {
            vstd::arithmetic::mul::lemma_mul_nonnegative(j, szg);
            assert(base + sz == spec_offset(fields, cap, f) + (index + 1) * sz) by {
                vstd::arithmetic::mul::lemma_mul_is_distributive_add_other_way(sz, index, 1);
            }
            assert(spec_offset(fields, cap, f) + (index + 1) * sz <= spec_offset(fields, cap, f)
                + fields[f].size * cap) by {
                lemma_slot_in_field(fields, cap, f, index);
            }
            assert(spec_offset(fields, cap, f) + fields[f].size * cap <= offg);
            assert(base + sz <= lo);
        } else if j < index {
            lemma_slot_order(sz, j, index);
            assert(hi <= base);
        } else {
            lemma_slot_order(sz, index, j);
            assert((index + 1) * sz <= j * sz);
            assert(base + sz == spec_offset(fields, cap, f) + (index + 1) * sz) by {
                vstd::arithmetic::mul::lemma_mul_is_distributive_add_other_way(sz, index, 1);
            }
            assert(base + sz <= lo);
        }
        assert forall|t: int|
            0 <= t < hi - lo implies slot_bytes_of(fields, cap, cur, g, j)[t] == slot_bytes_of(
            fields,
            cap,
            pre,
            g,
            j,
        )[t] by {
            assert(cur[lo + t] == pre[lo + t]);
        }
        assert(slot_bytes_of(fields, cap, cur, g, j) =~= slot_bytes_of(fields, cap, pre, g, j));
    }
}

/// Extends the buffer with zero bytes up to `new_len`, keeping what is
/// already there.
fn zero_extend(buf: &mut Vec<u8>, new_len: usize)
    requires
        old(buf)@.len() <= new_len,
    ensures
        final(buf)@.len() == new_len,
        forall|k: int| 0 <= k < old(buf)@.len() ==> final(buf)@[k] == old(buf)@[k],
{
    while buf.len() < new_len
        invariant
            old(buf)@.len() <= buf@.len() <= new_len,
            forall|k: int| 0 <= k < old(buf)@.len() ==> buf@[k] == old(buf)@[k],
        decreases new_len - buf@.len(),
    {
        buf.push(0u8);
    }
}

/// Moves `count` bytes from `src` to `dst` inside the buffer, with the
/// semantics of a single overlap-safe move: the destination range ends up
/// with the bytes the source range held before the call, and nothing
/// outside the destination range changes.
fn move_bytes(buf: &mut Vec<u8>, src: usize, dst: usize, count: usize)
    requires
        src + count <= old(buf)@.len(),
        dst + count <= old(buf)@.len(),
    ensures
        final(buf)@.len() == old(buf)@.len(),
        final(buf)@.subrange(dst as int, dst + count) == old(buf)@.subrange(
            src as int,
            src + count,
        ),
        forall|k: int|
            0 <= k < old(buf)@.len() && !(dst <= k < dst + count) ==> final(buf)@[k] == old(
                buf,
            )@[k],
{
    let n = buf.len();
    assert(src + count <= usize::MAX && dst + count <= usize::MAX);
    if dst <= src {
        let mut i: usize = 0;
        while i < count
            invariant
                src + count <= buf@.len(),
                dst + count <= buf@.len(),
                src + count <= usize::MAX,
                dst <= src,
                buf@.len() == old(buf)@.len(),
                0 <= i <= count,
                forall|k: int| 0 <= k < i ==> buf@[dst + k] == #[trigger] old(buf)@[src + k],
                forall|k: int|
                    0 <= k < buf@.len() && !(dst <= k < dst + i) ==> buf@[k] == old(buf)@[k],
            decreases count - i,
        {
            let b = buf[src + i];
            buf.set(dst + i, b);
            i += 1;
        }
    } else {
        let mut i: usize = count;
        while i > 0
            invariant
                src + count <= buf@.len(),
                dst + count <= buf@.len(),
                dst + count <= usize::MAX,
                dst > src,
                buf@.len() == old(buf)@.len(),
                0 <= i <= count,
                forall|k: int| i <= k < count ==> buf@[dst + k] == #[trigger] old(buf)@[src + k],
                forall|k: int|
                    0 <= k < buf@.len() && !(dst + i <= k < dst + count) ==> buf@[k] == old(
                        buf,
                    )@[k],
            decreases i,
        {
            i -= 1;
            let b = buf[src + i];
            buf.set(dst + i, b);
        }
    }
    proof {
        assert forall|k: int| 0 <= k < count implies #[trigger] buf@.subrange(
            dst as int,
            dst + count,
        )[k] == old(buf)@.subrange(src as int, src + count)[k] by {
            assert(buf@[dst + k] == old(buf)@[src + k]);
        }
        assert(buf@.subrange(dst as int, dst + count) =~= old(buf)@.subrange(
            src as int,
            src + count,
        ));
    }
}

} // verus!
