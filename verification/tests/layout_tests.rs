use soapy::layout::{plan, FieldDesc, SoaError};

fn fd(size: usize, align: usize) -> FieldDesc {
    FieldDesc { size, align }
}

#[test]
fn three_field_packing() {
    // fields {4,4}, {1,1}, {8,8} at capacity 4: the first array fills
    // bytes 0..16, the second starts right at 16, the third is pushed to
    // the next multiple of 8, i.e. 24, and the total is 24 + 32 = 56,
    // already a multiple of the overall alignment 8.
    let fields = vec![fd(4, 4), fd(1, 1), fd(8, 8)];
    let p = plan(&fields, 4).unwrap();
    assert_eq!(p.offsets, vec![0, 16, 24]);
    assert_eq!(p.total_size, 56);
    assert_eq!(p.total_align, 8);
}

#[test]
fn trailing_padding_rounds_total() {
    // {8,8} then {1,1} at capacity 3: offsets 0 and 24, raw size 27,
    // padded to the next multiple of 8.
    let fields = vec![fd(8, 8), fd(1, 1)];
    let p = plan(&fields, 3).unwrap();
    assert_eq!(p.offsets, vec![0, 24]);
    assert_eq!(p.total_size, 32);
    assert_eq!(p.total_align, 8);
}

#[test]
fn capacity_zero_plan_is_empty() {
    let fields = vec![fd(4, 4), fd(2, 2)];
    let p = plan(&fields, 0).unwrap();
    assert_eq!(p.offsets, vec![0, 0]);
    assert_eq!(p.total_size, 0);
    assert_eq!(p.total_align, 4);
}

#[test]
fn zero_field_plan_is_empty() {
    let fields: Vec<FieldDesc> = Vec::new();
    let p = plan(&fields, 1000).unwrap();
    assert_eq!(p.offsets.len(), 0);
    assert_eq!(p.total_size, 0);
    assert_eq!(p.total_align, 1);
}

#[test]
fn plan_overflow_is_rejected() {
    let fields = vec![fd(usize::MAX, 1), fd(1, 1)];
    match plan(&fields, 2) {
        Err(SoaError::Overflow) => {},
        Ok(_) => panic!("an overflowing layout must be rejected"),
    }
}

#[test]
fn offsets_are_aligned_and_disjoint() {
    let fields = vec![fd(2, 2), fd(4, 4), fd(1, 1), fd(8, 8)];
    let cap = 7;
    let p = plan(&fields, cap).unwrap();
    for i in 0..fields.len() {
        assert_eq!(p.offsets[i] % fields[i].align, 0);
        if i + 1 < fields.len() {
            assert!(p.offsets[i] + fields[i].size * cap <= p.offsets[i + 1]);
        }
    }
    let last = fields.len() - 1;
    assert!(p.offsets[last] + fields[last].size * cap <= p.total_size);
    assert_eq!(p.total_size % p.total_align, 0);
}
