use soapy::layout::{FieldDesc, SoaError};
use soapy::record::{ExtraImpl, FieldKind, Record};
use soapy::storage::RawStorage;
use soapy::zst::ZstStorage;

fn fd(size: usize, align: usize) -> FieldDesc {
    FieldDesc { size, align }
}

fn three_fields() -> Vec<FieldDesc> {
    vec![fd(4, 4), fd(1, 1), fd(8, 8)]
}

fn rec3(a: u32, b: u8, c: u64) -> Record {
    Record { values: vec![a.to_le_bytes().to_vec(), vec![b], c.to_le_bytes().to_vec()] }
}

#[test]
fn write_read_round_trip() {
    let mut s = RawStorage::allocate(three_fields(), 4).unwrap();
    let r = rec3(0xDEADBEEF, 7, 0x0123456789ABCDEF);
    s.write(2, &r);
    let back = s.read(2);
    assert_eq!(back.values, r.values);
}

#[test]
fn write_leaves_other_slots_alone() {
    let mut s = RawStorage::allocate(three_fields(), 4).unwrap();
    let r0 = rec3(1, 2, 3);
    let r1 = rec3(4, 5, 6);
    s.write(0, &r0);
    s.write(1, &r1);
    s.write(1, &rec3(70, 80, 90));
    assert_eq!(s.read(0).values, r0.values);
    assert_eq!(s.read(1).values, rec3(70, 80, 90).values);
}

#[test]
fn grow_preserves_written_records() {
    // grow(old_capacity = 4, new_capacity = 8, length = 4): every record
    // written before the grow reads back bit for bit.
    let mut s = RawStorage::allocate(three_fields(), 4).unwrap();
    let recs = [rec3(10, 1, 100), rec3(20, 2, 200), rec3(30, 3, 300), rec3(40, 4, 400)];
    for (i, r) in recs.iter().enumerate() {
        s.write(i, r);
    }
    s.grow(8, 4).unwrap();
    assert_eq!(s.capacity, 8);
    for (i, r) in recs.iter().enumerate() {
        assert_eq!(s.read(i).values, r.values);
    }
}

#[test]
fn grow_then_shrink_preserves_prefix() {
    // allocate(4) -> grow(4, 9) -> shrink(9, 3): the records below the
    // surviving length come through every transition unchanged.
    let mut s = RawStorage::allocate(three_fields(), 4).unwrap();
    let recs = [rec3(11, 21, 31), rec3(12, 22, 32), rec3(13, 23, 33)];
    for (i, r) in recs.iter().enumerate() {
        s.write(i, r);
    }
    s.grow(9, 3).unwrap();
    s.shrink(3, 3);
    assert_eq!(s.capacity, 3);
    for (i, r) in recs.iter().enumerate() {
        assert_eq!(s.read(i).values, r.values);
    }
}

#[test]
fn copy_within_overlapping_ranges() {
    // src = 0, dst = 2, count = 5 inside a capacity-10 array: the result
    // matches one overlap-safe move, independently per field.
    let fields = vec![fd(1, 1), fd(2, 2)];
    let mut s = RawStorage::allocate(fields, 10).unwrap();
    for i in 0..10usize {
        let r = Record { values: vec![vec![i as u8], vec![i as u8, 10 + i as u8]] };
        s.write(i, &r);
    }
    s.copy_within(0, 2, 5);
    for i in 0..10usize {
        let expect = if (2..7).contains(&i) { i - 2 } else { i };
        let got = s.read(i);
        assert_eq!(got.values[0], vec![expect as u8]);
        assert_eq!(got.values[1], vec![expect as u8, 10 + expect as u8]);
    }
}

#[test]
fn deallocate_releases_once() {
    let mut s = RawStorage::allocate(three_fields(), 4).unwrap();
    assert_eq!(s.capacity, 4);
    assert!(s.buf.len() > 0);
    s.deallocate(4);
    assert_eq!(s.capacity, 0);
    assert_eq!(s.buf.len(), 0);
    // with capacity zero nothing was ever allocated: a further call with
    // the current capacity is a no-op by contract
    s.deallocate(0);
    assert_eq!(s.capacity, 0);
}

#[test]
fn allocate_overflow_is_rejected() {
    let fields = vec![fd(usize::MAX, 1), fd(1, 1)];
    match RawStorage::allocate(fields, 2) {
        Err(SoaError::Overflow) => {},
        _ => panic!("layout overflow must be rejected before allocating"),
    }
}

#[test]
fn grow_overflow_leaves_storage_untouched() {
    // two one-byte fields: the layout total is twice the capacity, which
    // cannot fit in a usize at the requested capacity
    let fields = vec![fd(1, 1), fd(1, 1)];
    let mut s = RawStorage::allocate(fields, 2).unwrap();
    s.write(0, &Record { values: vec![vec![7], vec![9]] });
    assert_eq!(s.grow(usize::MAX, 1), Err(SoaError::Overflow));
    assert_eq!(s.capacity, 2);
    assert_eq!(s.read(0).values, vec![vec![7], vec![9]]);
}

#[test]
fn zero_field_records_need_no_allocation() {
    // a record type with no fields: allocate, grow, shrink and deallocate
    // move no memory at all
    let mut s = RawStorage::allocate(Vec::new(), 4).unwrap();
    assert_eq!(s.buf.len(), 0);
    s.grow(8, 4).unwrap();
    assert_eq!(s.buf.len(), 0);
    s.shrink(1, 1);
    assert_eq!(s.buf.len(), 0);
    s.deallocate(1);
    assert_eq!(s.capacity, 0);

    let mut z = ZstStorage::new();
    assert_eq!(z.len, 0);
    z.allocate(4);
    z.set_len(3);
    z.grow(4, 8);
    z.shrink(8, 3);
    z.deallocate(8);
    assert_eq!(z.len, 3);
}

#[test]
fn row_view_behaves_as_value() {
    let mut s = RawStorage::allocate(three_fields(), 2).unwrap();
    let r = rec3(99, 8, 1234);
    s.write(1, &r);
    let row = s.row(1);
    assert!(row.eq_record(&r));
    assert!(!row.eq_record(&rec3(99, 8, 1235)));
    let as_value = row.to_record();
    assert_eq!(as_value.values, r.values);
    // materialising the row did not disturb the storage
    assert_eq!(s.read(1).values, r.values);
}

#[test]
fn slice_view_covers_range_per_field() {
    let fields = vec![fd(1, 1), fd(2, 2)];
    let mut s = RawStorage::allocate(fields, 5).unwrap();
    for i in 0..5usize {
        let r = Record { values: vec![vec![i as u8], vec![2 * i as u8, 2 * i as u8 + 1]] };
        s.write(i, &r);
    }
    let v = s.slice(1, 4);
    assert_eq!(v.values.len(), 2);
    assert_eq!(v.values[0], vec![1, 2, 3]);
    assert_eq!(v.values[1], vec![2, 3, 4, 5, 6, 7]);
}

#[test]
fn write_slice_replaces_range_only() {
    let fields = vec![fd(1, 1), fd(2, 2)];
    let mut s = RawStorage::allocate(fields, 5).unwrap();
    for i in 0..5usize {
        let r = Record { values: vec![vec![i as u8], vec![2 * i as u8, 2 * i as u8 + 1]] };
        s.write(i, &r);
    }
    // overwrite elements 1..4 of both fields in one shot
    let patch = s.slice(0, 3);
    s.write_slice(1, 4, &patch);
    for i in 0..5usize {
        let expect = if (1..4).contains(&i) { i - 1 } else { i };
        let got = s.read(i);
        assert_eq!(got.values[0], vec![expect as u8]);
        assert_eq!(got.values[1], vec![2 * expect as u8, 2 * expect as u8 + 1]);
    }
}

#[test]
fn parts_round_trip() {
    let mut s = RawStorage::allocate(three_fields(), 2).unwrap();
    let r = rec3(5, 6, 7);
    s.write(0, &r);
    let (fields, capacity, buf) = s.into_parts();
    let s2 = RawStorage::from_parts(fields, capacity, buf);
    assert_eq!(s2.capacity, 2);
    assert_eq!(s2.read(0).values, r.values);
}

#[test]
fn zero_size_field_among_others() {
    // a zero-size field occupies no bytes; its neighbours still round trip
    let fields = vec![fd(2, 2), fd(0, 1), fd(1, 1)];
    let mut s = RawStorage::allocate(fields, 3).unwrap();
    let r = Record { values: vec![vec![0xAB, 0xCD], vec![], vec![0xEF]] };
    s.write(1, &r);
    let back = s.read(1);
    assert_eq!(back.values, r.values);
    s.grow(6, 3).unwrap();
    assert_eq!(s.read(1).values, r.values);
}

#[test]
fn single_field_round_trip() {
    let fields = vec![fd(4, 4)];
    let mut s = RawStorage::allocate(fields, 2).unwrap();
    let r = Record { values: vec![vec![1, 2, 3, 4]] };
    s.write(0, &r);
    s.shrink(1, 1);
    assert_eq!(s.capacity, 1);
    assert_eq!(s.read(0).values, r.values);
}

#[test]
fn empty_storage_state() {
    let s = RawStorage::new(three_fields());
    assert_eq!(s.capacity, 0);
    assert_eq!(s.buf.len(), 0);
}

#[test]
fn record_shape_metadata() {
    assert!(FieldKind::Named != FieldKind::Unnamed);
    assert!(FieldKind::Named < FieldKind::Unnamed);
    let extra = ExtraImpl::default();
    assert!(!extra.debug);
    assert!(!extra.partial_eq);
    let extra = ExtraImpl { debug: true, partial_eq: true };
    assert!(extra.debug && extra.partial_eq);
}
