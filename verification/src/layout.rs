//! The layout planner.
//!
//! Given an ordered list of field descriptors (a size and an alignment per
//! field) and a capacity, the planner computes where each field's array of
//! `capacity` elements lives inside one shared allocation: a byte offset per
//! field, the allocation's total size and its alignment.  Packing follows
//! declaration order: each field's array starts at the running size rounded
//! up to that field's alignment, and the final size is rounded up to the
//! largest alignment.

use vstd::prelude::*;

verus! {

/// Size and alignment of one record field, independent of any instance.
#[derive(Clone, Copy, PartialEq, Eq, Structural, Debug)]
pub struct FieldDesc {
    /// Size in bytes of one element of this field's array.
    pub size: usize,
    /// Required alignment of this field's array; at least 1.
    pub align: usize,
}

/// Errors of the storage engine.
#[derive(Clone, Copy, PartialEq, Eq, Structural, Debug)]
pub enum SoaError {
    /// Computing a layout for the requested capacity would exceed the
    /// representable size; detected before any allocation is attempted.
    Overflow,
}

/// A single field descriptor is well formed when its alignment is positive.
pub open spec fn field_desc_wf(f: FieldDesc) -> bool {
    f.align >= 1
}

/// Every descriptor in the list is well formed.
pub open spec fn fields_wf(fields: Seq<FieldDesc>) -> bool {
    forall|i: int| 0 <= i < fields.len() ==> field_desc_wf(#[trigger] fields[i])
}

/// `n` rounded up to the next multiple of `a` (for `a >= 1`).
pub open spec fn round_up(n: int, a: int) -> int {
    if n % a == 0 {
        n
    } else {
        n + a - n % a
    }
}

/// Greatest alignment among the first `i` fields; 1 when there are none.
pub open spec fn max_align(fields: Seq<FieldDesc>, i: int) -> int
    decreases i,
{
    if i <= 0 {
        1
    } else {
        let prev = max_align(fields, i - 1);
        let a = fields[i - 1].align as int;
        if a > prev {
            a
        } else {
            prev
        }
    }
}

/// Running (unpadded) size after packing the first `i` field arrays at
/// capacity `cap`: each array starts at the previous running size rounded up
/// to its alignment and contributes `size * cap` bytes.
pub open spec fn run_size(fields: Seq<FieldDesc>, cap: int, i: int) -> int
    decreases i,
{
    if i <= 0 {
        0
    } else {
        round_up(run_size(fields, cap, i - 1), fields[i - 1].align as int)
            + fields[i - 1].size * cap
    }
}

/// Byte offset of field `i`'s array at capacity `cap`.
pub open spec fn spec_offset(fields: Seq<FieldDesc>, cap: int, i: int) -> int {
    round_up(run_size(fields, cap, i), fields[i].align as int)
}

/// Total allocation size at capacity `cap`: the running size over all
/// fields, padded to a multiple of the overall alignment.
pub open spec fn spec_total(fields: Seq<FieldDesc>, cap: int) -> int {
    round_up(run_size(fields, cap, fields.len() as int), max_align(fields, fields.len() as int))
}

/// The computed layout for one allocation at a given capacity.
pub struct LayoutPlan {
    /// Total size in bytes of the allocation.
    pub total_size: usize,
    /// Alignment of the allocation: the greatest field alignment.
    pub total_align: usize,
    /// Byte offset of each field's array, in declaration order.
    pub offsets: Vec<usize>,
}

/// The plan holds exactly the offsets, total size and alignment that the
/// packing fold yields for `fields` at capacity `cap`.
pub open spec fn plan_matches(p: LayoutPlan, fields: Seq<FieldDesc>, cap: int) -> bool {
    &&& p.offsets@.len() == fields.len()
    &&& forall|i: int|
        0 <= i < fields.len() ==> p.offsets@[i] == spec_offset(fields, cap, i)
    &&& p.total_size == spec_total(fields, cap)
    &&& p.total_align == max_align(fields, fields.len() as int)
}

/// Basic facts about rounding up: the result is at least `n`, is a multiple
/// of `a`, and lies within `a - 1` of `n`.
pub proof fn lemma_round_up(n: int, a: int)
    requires
        n >= 0,
        a >= 1,
    ensures
        round_up(n, a) >= n,
        round_up(n, a) % a == 0,
        n <= round_up(n, a) < n + a,
        n % a == 0 ==> round_up(n, a) == n,
{
    vstd::arithmetic::div_mod::lemma_mod_bound(n, a);
    if n % a != 0 {
        vstd::arithmetic::div_mod::lemma_fundamental_div_mod(n, a);
        let q = n / a;
        assert(round_up(n, a) == a * (q + 1)) by (nonlinear_arith)
            requires n == a * q + n % a && round_up(n, a) == n + a - n % a {}
        assert((a * (q + 1)) % a == 0) by {
            vstd::arithmetic::div_mod::lemma_mod_multiples_basic(q + 1, a);
        }
    }
}

/// Rounding up to `a` never passes a multiple of `a`: any multiple of `a`
/// at or above `n` is at or above `round_up(n, a)`.
pub proof fn lemma_round_up_least(n: int, a: int, m: int)
    requires
        n >= 0,
        a >= 1,
        m % a == 0,
        m >= n,
    ensures
        m >= round_up(n, a),
{
    lemma_round_up(n, a);
    if n % a != 0 {
        let r = round_up(n, a);
        assert(m >= r) by (nonlinear_arith)
            requires
                m % a == 0,
                r % a == 0,
                m >= n,
                r < n + a,
                n >= 0,
                a >= 1,
        {
            vstd::arithmetic::div_mod::lemma_fundamental_div_mod(m, a);
            vstd::arithmetic::div_mod::lemma_fundamental_div_mod(r, a);
        }
    }
}

/// Rounding up is monotone in the value rounded.
pub proof fn lemma_round_up_monotone(n1: int, n2: int, a: int)
    requires
        0 <= n1 <= n2,
        a >= 1,
    ensures
        round_up(n1, a) <= round_up(n2, a),
{
    lemma_round_up(n2, a);
    lemma_round_up_least(n1, a, round_up(n2, a));
}

/// The packing fold only moves forward: running sizes are non-negative and
/// non-decreasing in the field index, every offset lies between the running
/// sizes around it, and everything is bounded by the total size.
pub proof fn lemma_layout_chain(fields: Seq<FieldDesc>, cap: int)
    requires
        fields_wf(fields),
        cap >= 0,
    ensures
        forall|i: int| 0 <= i <= fields.len() ==> #[trigger] run_size(fields, cap, i) >= 0,
        forall|i: int, j: int|
            0 <= i <= j <= fields.len()
                ==> #[trigger] run_size(fields, cap, i) <= #[trigger] run_size(fields, cap, j),
        forall|i: int|
            0 <= i < fields.len()
                ==> run_size(fields, cap, i) <= #[trigger] spec_offset(fields, cap, i),
        forall|i: int|
            0 <= i < fields.len()
                ==> #[trigger] spec_offset(fields, cap, i) + fields[i].size * cap
                    == run_size(fields, cap, i + 1),
        forall|i: int|
            0 <= i <= fields.len()
                ==> #[trigger] run_size(fields, cap, i) <= spec_total(fields, cap),
        forall|i: int| 0 <= i <= fields.len() ==> #[trigger] max_align(fields, i) >= 1,
    decreases fields.len(),
{
    assert forall|i: int| 0 <= i <= fields.len() implies #[trigger] max_align(fields, i) >= 1 by {
        lemma_max_align_pos(fields, i);
    }
    assert forall|i: int| 0 <= i <= fields.len() implies #[trigger] run_size(fields, cap, i) >= 0 by {
        lemma_run_size_step(fields, cap, i);
    }
    assert forall|i: int, j: int|
        0 <= i <= j <= fields.len() implies #[trigger] run_size(fields, cap, i)
        <= #[trigger] run_size(fields, cap, j) by {
        lemma_run_size_le(fields, cap, i, j);
    }
    assert forall|i: int|
        0 <= i < fields.len() implies run_size(fields, cap, i)
        <= #[trigger] spec_offset(fields, cap, i) by {
        lemma_run_size_step(fields, cap, i);
        lemma_round_up(run_size(fields, cap, i), fields[i].align as int);
    }
    assert forall|i: int|
        0 <= i < fields.len() implies #[trigger] spec_offset(fields, cap, i)
        + fields[i].size * cap == run_size(fields, cap, i + 1) by {
        assert(run_size(fields, cap, i + 1) == round_up(run_size(fields, cap, i),
            fields[i].align as int) + fields[i].size * cap);
    }
    let n = fields.len() as int;
    assert forall|i: int|
        0 <= i <= fields.len() implies #[trigger] run_size(fields, cap, i)
        <= spec_total(fields, cap) by {
        lemma_run_size_le(fields, cap, i, n);
        lemma_run_size_step(fields, cap, n);
        lemma_max_align_pos(fields, n);
        lemma_round_up(run_size(fields, cap, n), max_align(fields, n));
    }
}

/// The greatest alignment over any prefix is positive.
proof fn lemma_max_align_pos(fields: Seq<FieldDesc>, i: int)
    ensures
        max_align(fields, i) >= 1,
    decreases i,
{
    if i > 0 {
        lemma_max_align_pos(fields, i - 1);
    }
}

/// One step of the fold: `run_size` at `i` is non-negative, and adding
/// field `i` does not move the running size backwards.
proof fn lemma_run_size_step(fields: Seq<FieldDesc>, cap: int, i: int)
    requires
        fields_wf(fields),
        cap >= 0,
        0 <= i <= fields.len(),
    ensures
        run_size(fields, cap, i) >= 0,
        i < fields.len() ==> run_size(fields, cap, i) <= run_size(fields, cap, i + 1),
    decreases i + 1,
{
    if i > 0 {
        lemma_run_size_step(fields, cap, i - 1);
        lemma_round_up(run_size(fields, cap, i - 1), fields[i - 1].align as int);
        vstd::arithmetic::mul::lemma_mul_nonnegative(fields[i - 1].size as int, cap);
    }
    if i < fields.len() {
        lemma_round_up(run_size(fields, cap, i), fields[i].align as int);
        vstd::arithmetic::mul::lemma_mul_nonnegative(fields[i].size as int, cap);
    }
}

/// The running size is monotone in the number of fields folded.
proof fn lemma_run_size_le(fields: Seq<FieldDesc>, cap: int, i: int, j: int)
    requires
        fields_wf(fields),
        cap >= 0,
        0 <= i <= j <= fields.len(),
    ensures
        run_size(fields, cap, i) <= run_size(fields, cap, j),
    decreases j - i,
{
    if i < j {
        lemma_run_size_step(fields, cap, i);
        lemma_run_size_le(fields, cap, i + 1, j);
    }
}

/// Law: at every capacity the planned field arrays are pairwise disjoint,
/// in offset order, each offset is aligned to its field's alignment, the
/// first offset is zero, and every array lies inside the total size.
pub proof fn lemma_plan_disjoint(fields: Seq<FieldDesc>, cap: int)
    requires
        fields_wf(fields),
        cap >= 0,
    ensures
        fields.len() > 0 ==> spec_offset(fields, cap, 0) == 0,
        forall|i: int|
            0 <= i < fields.len()
                ==> #[trigger] spec_offset(fields, cap, i) % (fields[i].align as int) == 0,
        forall|i: int, j: int|
            0 <= i < j < fields.len()
                ==> #[trigger] spec_offset(fields, cap, i) + fields[i].size * cap
                    <= #[trigger] spec_offset(fields, cap, j),
        forall|i: int|
            0 <= i < fields.len()
                ==> #[trigger] spec_offset(fields, cap, i) + fields[i].size * cap
                    <= spec_total(fields, cap),
        forall|i: int| 0 <= i < fields.len() ==> #[trigger] spec_offset(fields, cap, i) >= 0,
        spec_total(fields, cap) % max_align(fields, fields.len() as int) == 0,
{
    lemma_layout_chain(fields, cap);
    lemma_round_up(run_size(fields, cap, fields.len() as int), max_align(fields,
        fields.len() as int));
    if fields.len() > 0 {
        assert(run_size(fields, cap, 0) == 0);
        lemma_round_up(0, fields[0].align as int);
    }
    assert forall|i: int|
        0 <= i < fields.len() implies #[trigger] spec_offset(fields, cap, i)
        % (fields[i].align as int) == 0 by {
        lemma_round_up(run_size(fields, cap, i), fields[i].align as int);
    }
    assert forall|i: int, j: int|
        0 <= i < j < fields.len() implies #[trigger] spec_offset(fields, cap, i)
        + fields[i].size * cap <= #[trigger] spec_offset(fields, cap, j) by {
        lemma_run_size_le(fields, cap, i + 1, j);
        lemma_run_size_step(fields, cap, j);
        lemma_round_up(run_size(fields, cap, j), fields[j].align as int);
    }
}

/// Law: raising the capacity never moves any field's offset backwards, and
/// never shrinks the total size.
pub proof fn lemma_plan_monotone_cap(fields: Seq<FieldDesc>, c1: int, c2: int)
    requires
        fields_wf(fields),
        0 <= c1 <= c2,
    ensures
        forall|i: int|
            0 <= i <= fields.len()
                ==> #[trigger] run_size(fields, c1, i) <= run_size(fields, c2, i),
        forall|i: int|
            0 <= i < fields.len()
                ==> #[trigger] spec_offset(fields, c1, i) <= spec_offset(fields, c2, i),
        spec_total(fields, c1) <= spec_total(fields, c2),
{
    assert forall|i: int|
        0 <= i <= fields.len() implies #[trigger] run_size(fields, c1, i)
        <= run_size(fields, c2, i) by {
        lemma_run_size_monotone_cap(fields, c1, c2, i);
    }
    assert forall|i: int|
        0 <= i < fields.len() implies #[trigger] spec_offset(fields, c1, i)
        <= spec_offset(fields, c2, i) by {
        lemma_run_size_monotone_cap(fields, c1, c2, i);
        lemma_run_size_step(fields, c1, i);
        lemma_round_up_monotone(run_size(fields, c1, i), run_size(fields, c2, i),
            fields[i].align as int);
    }
    let n = fields.len() as int;
    lemma_run_size_monotone_cap(fields, c1, c2, n);
    lemma_run_size_step(fields, c1, n);
    lemma_max_align_pos(fields, n);
    lemma_round_up_monotone(run_size(fields, c1, n), run_size(fields, c2, n),
        max_align(fields, n));
}

/// Computes the layout plan for `fields` at `capacity`: the byte offset of
/// every field's array, the total allocation size and its alignment.
/// Returns `Overflow`, before anything is allocated, exactly when the
/// total size does not fit in a `usize`.
pub fn plan(fields: &Vec<FieldDesc>, capacity: usize) -> (r: Result<LayoutPlan, SoaError>)
    requires
        fields_wf(fields@),
    ensures
        r matches Ok(p) ==> plan_matches(p, fields@, capacity as int),
        r is Ok <==> spec_total(fields@, capacity as int) <= usize::MAX,
        r is Err ==> r == Err::<LayoutPlan, SoaError>(SoaError::Overflow),
{
    let ghost gcap = capacity as int;
    proof {
        lemma_layout_chain(fields@, gcap);
        lemma_plan_disjoint(fields@, gcap);
    }
    let n = fields.len();
    let mut offsets: Vec<usize> = Vec::new();
    let mut run: usize = 0;
    let mut align: usize = 1;
    let mut i: usize = 0;
    while i < n
        invariant
            fields_wf(fields@),
            n == fields@.len(),
            0 <= i <= n,
            gcap == capacity as int,
            offsets@.len() == i,
            forall|j: int| 0 <= j < i ==> offsets@[j] == spec_offset(fields@, gcap, j),
            run == run_size(fields@, gcap, i as int),
            align == max_align(fields@, i as int),
            forall|k: int| 0 <= k <= fields@.len() ==> #[trigger] run_size(fields@, gcap, k) >= 0,
            forall|k: int|
                0 <= k <= fields@.len()
                    ==> #[trigger] run_size(fields@, gcap, k) <= spec_total(fields@, gcap),
            forall|k: int|
                0 <= k < fields@.len()
                    ==> run_size(fields@, gcap, k) <= #[trigger] spec_offset(fields@, gcap, k),
            forall|k: int|
                0 <= k < fields@.len()
                    ==> #[trigger] spec_offset(fields@, gcap, k) + fields@[k].size * gcap
                        == run_size(fields@, gcap, k + 1),
            forall|k: int|
                0 <= k < fields@.len()
                    ==> #[trigger] spec_offset(fields@, gcap, k) + fields@[k].size * gcap
                        <= spec_total(fields@, gcap),
        decreases n - i,
    {
        let f = fields[i];
        let rem = run % f.align;
        let pad = if rem == 0 { 0 } else { f.align - rem };
        let off = match run.checked_add(pad) {
            Some(o) => o,
            None => {
                proof {
                    assert(run + pad == spec_offset(fields@, gcap, i as int));
                }
                return Err(SoaError::Overflow);
            },
        };
        assert(off == spec_offset(fields@, gcap, i as int));
        let arr = match f.size.checked_mul(capacity) {
            Some(a) => a,
            None => {
                proof {
                    assert(off + f.size * gcap == run_size(fields@, gcap, i as int + 1));
                }
                return Err(SoaError::Overflow);
            },
        };
        let new_run = match off.checked_add(arr) {
            Some(s) => s,
            None => {
                proof {
                    assert(off + f.size * gcap == run_size(fields@, gcap, i as int + 1));
                }
                return Err(SoaError::Overflow);
            },
        };
        offsets.push(off);
        run = new_run;
        if f.align > align {
            align = f.align;
        }
        i += 1;
    }
    let rem = run % align;
    let pad = if rem == 0 { 0 } else { align - rem };
    let total = match run.checked_add(pad) {
        Some(t) => t,
        None => {
            proof {
                assert(run + pad == spec_total(fields@, gcap));
            }
            return Err(SoaError::Overflow);
        },
    };
    assert(total == spec_total(fields@, gcap));
    Ok(LayoutPlan { total_size: total, total_align: align, offsets })
}

/// One slot of a field's array lies inside that array, and the array lies
/// inside the allocation.
pub proof fn lemma_slot_in_field(fields: Seq<FieldDesc>, cap: int, f: int, j: int)
    requires
        fields_wf(fields),
        cap >= 0,
        0 <= f < fields.len(),
        0 <= j < cap,
    ensures
        spec_offset(fields, cap, f) >= 0,
        0 <= j * (fields[f].size as int),
        j * (fields[f].size as int) + fields[f].size == (j + 1) * (fields[f].size as int),
        (j + 1) * (fields[f].size as int) <= fields[f].size * cap,
        spec_offset(fields, cap, f) + (j + 1) * (fields[f].size as int)
            <= spec_total(fields, cap),
{
    lemma_plan_disjoint(fields, cap);
    let sz = fields[f].size as int;
    vstd::arithmetic::mul::lemma_mul_nonnegative(j, sz);
    vstd::arithmetic::mul::lemma_mul_inequality(j + 1, cap, sz);
    vstd::arithmetic::mul::lemma_mul_is_commutative(j + 1, sz);
    vstd::arithmetic::mul::lemma_mul_is_commutative(cap, sz);
    vstd::arithmetic::mul::lemma_mul_is_distributive_add_other_way(sz, j, 1);
}

/// At capacity zero the plan is empty: every offset is zero and no bytes
/// are needed, whatever the field list.
pub proof fn lemma_plan_at_zero_cap(fields: Seq<FieldDesc>)
    requires
        fields_wf(fields),
    ensures
        forall|i: int| 0 <= i <= fields.len() ==> #[trigger] run_size(fields, 0, i) == 0,
        forall|i: int| 0 <= i < fields.len() ==> #[trigger] spec_offset(fields, 0, i) == 0,
        spec_total(fields, 0) == 0,
{
    assert forall|i: int| 0 <= i <= fields.len() implies #[trigger] run_size(fields, 0, i) == 0 by {
        lemma_run_size_zero_cap(fields, i);
    }
    assert forall|i: int|
        0 <= i < fields.len() implies #[trigger] spec_offset(fields, 0, i) == 0 by {
        lemma_run_size_zero_cap(fields, i);
        lemma_round_up(0, fields[i].align as int);
    }
    lemma_run_size_zero_cap(fields, fields.len() as int);
    lemma_max_align_pos(fields, fields.len() as int);
    lemma_round_up(0, max_align(fields, fields.len() as int));
}

/// Law: a record type with no fields needs no allocation at any capacity.
pub proof fn lemma_zero_fields_no_allocation(cap: int)
    ensures
        spec_total(Seq::<FieldDesc>::empty(), cap) == 0,
{
    assert(run_size(Seq::<FieldDesc>::empty(), cap, 0) == 0);
}

/// The running size vanishes at capacity zero.
proof fn lemma_run_size_zero_cap(fields: Seq<FieldDesc>, i: int)
    requires
        fields_wf(fields),
        0 <= i <= fields.len(),
    ensures
        run_size(fields, 0, i) == 0,
    decreases i,
{
    if i > 0 {
        lemma_run_size_zero_cap(fields, i - 1);
        lemma_round_up(0, fields[i - 1].align as int);
    }
}

/// The running size at each prefix is monotone in the capacity.
proof fn lemma_run_size_monotone_cap(fields: Seq<FieldDesc>, c1: int, c2: int, i: int)
    requires
        fields_wf(fields),
        0 <= c1 <= c2,
        0 <= i <= fields.len(),
    ensures
        run_size(fields, c1, i) <= run_size(fields, c2, i),
    decreases i,
{
    if i > 0 {
        lemma_run_size_monotone_cap(fields, c1, c2, i - 1);
        lemma_run_size_step(fields, c1, i - 1);
        lemma_run_size_step(fields, c2, i - 1);
        lemma_round_up_monotone(run_size(fields, c1, i - 1), run_size(fields, c2, i - 1),
            fields[i - 1].align as int);
        vstd::arithmetic::mul::lemma_mul_inequality(c1, c2, fields[i - 1].size as int);
        vstd::arithmetic::mul::lemma_mul_is_commutative(fields[i - 1].size as int, c1);
        vstd::arithmetic::mul::lemma_mul_is_commutative(fields[i - 1].size as int, c2);
    }
}

} // verus!
