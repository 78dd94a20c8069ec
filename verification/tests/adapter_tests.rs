use meshdiff::dense_buffer::{DenseBuffer, Realloc, DEFAULT_CAPACITY};
use meshdiff::mesh_diff::MeshPatch;

#[test]
fn fresh_buffer_has_default_capacity() {
    let b = DenseBuffer::new();
    assert_eq!(b.len_elems(), 0);
    assert_eq!(b.capacity_elems(), DEFAULT_CAPACITY);
}

#[test]
fn growth_doubles_until_length_fits() {
    let mut b = DenseBuffer::new();
    let r = b.set_len(600);
    assert_eq!(b.len_elems(), 600);
    assert_eq!(b.capacity_elems(), 1024);
    assert_eq!(r, Some(Realloc { new_capacity: 1024, copy_len: 0 }));

    let r = b.set_len(5000);
    assert_eq!(b.capacity_elems(), 8192);
    assert_eq!(r, Some(Realloc { new_capacity: 8192, copy_len: 600 }));
}

#[test]
fn moderate_shrink_keeps_capacity() {
    let mut b = DenseBuffer::new();
    b.set_len(600);
    assert_eq!(b.capacity_elems(), 1024);
    // 1024 <= 4 * 300: no reallocation, hysteresis keeps the slack
    let r = b.set_len(300);
    assert_eq!(r, None);
    assert_eq!(b.capacity_elems(), 1024);
    assert_eq!(b.len_elems(), 300);
}

#[test]
fn deep_shrink_rebuilds_from_default() {
    let mut b = DenseBuffer::new();
    b.set_len(5000);
    assert_eq!(b.capacity_elems(), 8192);
    let r = b.set_len(10);
    // 8192 > 4 * 10: shrink down to the default capacity
    assert_eq!(b.capacity_elems(), DEFAULT_CAPACITY);
    assert_eq!(r, Some(Realloc { new_capacity: DEFAULT_CAPACITY, copy_len: 10 }));

    // shrinking to a still-large length re-doubles up from the default
    b.set_len(5000);
    let r = b.set_len(600);
    assert_eq!(r, Some(Realloc { new_capacity: 1024, copy_len: 600 }));
    assert_eq!(b.capacity_elems(), 1024);
}

#[test]
fn never_shrinks_below_default_capacity() {
    let mut b = DenseBuffer::new();
    b.set_len(5000);
    let _ = b.set_len(0);
    assert_eq!(b.capacity_elems(), DEFAULT_CAPACITY);
}

#[test]
fn patch_without_writes_plans_no_copies() {
    let mut b = DenseBuffer::new();
    let patch = MeshPatch { new_len: 3, writes_data: vec![], writes_indices: vec![] };
    let plan = b.apply_patch(&patch);
    assert_eq!(b.len_elems(), 3);
    assert!(plan.realloc.is_none());
    assert_eq!(plan.copies.len(), 0);
}

#[test]
fn patch_with_writes_plans_runs() {
    let mut b = DenseBuffer::new();
    let patch = MeshPatch {
        new_len: 700,
        writes_data: vec![1, 2, 3, 9],
        writes_indices: vec![4, 5, 6, 100],
    };
    let plan = b.apply_patch(&patch);
    assert_eq!(b.len_elems(), 700);
    assert_eq!(plan.realloc, Some(Realloc { new_capacity: 1024, copy_len: 0 }));
    assert_eq!(plan.copies.len(), 2);
    assert_eq!(plan.copies[0].src_start, 0);
    assert_eq!(plan.copies[0].dst_start, 4);
    assert_eq!(plan.copies[0].len, 3);
    assert_eq!(plan.copies[1].src_start, 3);
    assert_eq!(plan.copies[1].dst_start, 100);
    assert_eq!(plan.copies[1].len, 1);
}
