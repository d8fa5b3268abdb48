use noalloc::error::NoallocError;
use noalloc::vector::Vec;
use std::rc::Rc;

#[test]
fn it_works() {
    assert_eq!(2 + 2, 4);
}

#[test]
fn new_is_empty() {
    let v: Vec<u64, 4> = Vec::new();
    assert_eq!(v.len(), 0);
    assert!(v.is_empty());
    assert_eq!(v.capacity(), 4);
    assert_eq!(v.as_slice(), &[0u64; 0]);
}

#[test]
fn append_moves_all_elements() {
    let mut a: Vec<i32, 4> = Vec::new();
    a.extend_from_slice(&[1, 2]);
    let mut b: Vec<i32, 4> = Vec::new();
    b.extend_from_slice(&[3, 4]);
    assert_eq!(a.append(&mut b), Ok(()));
    assert_eq!(a.as_slice(), &[1, 2, 3, 4]);
    assert_eq!(b.len(), 0);
    assert!(b.is_empty());
}

#[test]
fn append_overflow_changes_nothing() {
    let mut a: Vec<i32, 3> = Vec::new();
    a.extend_from_slice(&[1, 2, 3]);
    let mut b: Vec<i32, 3> = Vec::new();
    b.extend_from_slice(&[4]);
    assert_eq!(a.append(&mut b), Err(NoallocError::LengthExceed));
    assert_eq!(a.as_slice(), &[1, 2, 3]);
    assert_eq!(b.as_slice(), &[4]);
}

#[test]
fn split_off_returns_suffix() {
    let mut a: Vec<i32, 8> = Vec::new();
    a.extend_from_slice(&[1, 2, 3, 4, 5]);
    let tail: Vec<i32, 8> = a.split_off(2);
    assert_eq!(tail.as_slice(), &[3, 4, 5]);
    assert_eq!(a.as_slice(), &[1, 2]);
}

#[test]
fn split_off_edges() {
    let mut a: Vec<i32, 4> = Vec::new();
    a.extend_from_slice(&[1, 2]);
    let all: Vec<i32, 2> = a.split_off(0);
    assert_eq!(all.as_slice(), &[1, 2]);
    assert_eq!(a.len(), 0);
    let mut b: Vec<i32, 4> = Vec::new();
    b.extend_from_slice(&[1, 2]);
    let none: Vec<i32, 4> = b.split_off(2);
    assert_eq!(none.len(), 0);
    assert_eq!(b.as_slice(), &[1, 2]);
}

#[test]
fn truncate_drops_excess_elements() {
    let rc = Rc::new(7u32);
    let mut v: Vec<Rc<u32>, 4> = Vec::new();
    v.extend_from_slice(&[rc.clone(), rc.clone(), rc.clone()]);
    assert_eq!(Rc::strong_count(&rc), 4);
    v.truncate(1);
    assert_eq!(v.len(), 1);
    assert_eq!(Rc::strong_count(&rc), 2);
    v.clear();
    assert_eq!(v.len(), 0);
    assert_eq!(Rc::strong_count(&rc), 1);
}

#[test]
fn remove_shifts_left() {
    let mut a: Vec<i32, 4> = Vec::new();
    a.extend_from_slice(&[10, 20, 30, 40]);
    assert_eq!(a.remove(1), 20);
    assert_eq!(a.as_slice(), &[10, 30, 40]);
}

#[test]
fn remove_item_takes_first_match() {
    let mut a: Vec<i32, 4> = Vec::new();
    a.extend_from_slice(&[1, 2, 3, 2]);
    assert_eq!(a.remove_item(&2), Some(2));
    assert_eq!(a.as_slice(), &[1, 3, 2]);
    assert_eq!(a.remove_item(&9), None);
    assert_eq!(a.as_slice(), &[1, 3, 2]);
}

#[test]
fn dedup_merges_adjacent_only() {
    let mut a: Vec<i32, 8> = Vec::new();
    a.extend_from_slice(&[1, 1, 2, 1, 1]);
    a.dedup();
    assert_eq!(a.as_slice(), &[1, 2, 1]);
}

#[test]
fn dedup_on_empty_and_single() {
    let mut a: Vec<i32, 4> = Vec::new();
    a.dedup();
    assert_eq!(a.len(), 0);
    a.extend_from_slice(&[5]);
    a.dedup();
    assert_eq!(a.as_slice(), &[5]);
}

#[test]
fn append_of_empty_is_identity() {
    let mut a: Vec<i32, 4> = Vec::new();
    a.extend_from_slice(&[1, 2]);
    let mut b: Vec<i32, 4> = Vec::new();
    assert_eq!(a.append(&mut b), Ok(()));
    assert_eq!(a.as_slice(), &[1, 2]);
    let mut c: Vec<i32, 4> = Vec::new();
    assert_eq!(c.append(&mut a), Ok(()));
    assert_eq!(c.as_slice(), &[1, 2]);
    assert_eq!(a.len(), 0);
}

#[test]
fn append_to_exact_capacity() {
    let mut a: Vec<i32, 4> = Vec::new();
    a.extend_from_slice(&[1, 2]);
    let mut b: Vec<i32, 4> = Vec::new();
    b.extend_from_slice(&[3, 4]);
    assert_eq!(a.append(&mut b), Ok(()));
    assert_eq!(a.len(), a.capacity());
}

#[test]
fn dedup_by_uses_the_bucket_test() {
    let mut a: Vec<i32, 8> = Vec::new();
    a.extend_from_slice(&[1, -1, 1, 2, -3, 3]);
    a.dedup_by(|x: &i32, y: &i32| x.abs() == y.abs());
    assert_eq!(a.as_slice(), &[1, 2, -3]);
}

#[test]
fn dedup_by_key_compares_keys() {
    let mut a: Vec<i32, 8> = Vec::new();
    a.extend_from_slice(&[1, 11, 21, 2, 12]);
    a.dedup_by_key(|x: &i32| *x % 10);
    assert_eq!(a.as_slice(), &[1, 2]);
}

#[test]
fn resize_fills_with_clones() {
    let mut a: Vec<i32, 5> = Vec::new();
    assert_eq!(a.resize(3, 9), Ok(()));
    assert_eq!(a.as_slice(), &[9, 9, 9]);
    assert_eq!(a.resize(6, 9), Err(NoallocError::LengthExceed));
    assert_eq!(a.as_slice(), &[9, 9, 9]);
    assert_eq!(a.resize(5, 9), Ok(()));
    assert_eq!(a.as_slice(), &[9, 9, 9, 9, 9]);
    assert_eq!(a.resize(2, 9), Ok(()));
    assert_eq!(a.as_slice(), &[9, 9]);
}

#[test]
fn resize_default_uses_the_default_value() {
    let mut a: Vec<u64, 3> = Vec::new();
    assert_eq!(a.resize_default(2), Ok(()));
    assert_eq!(a.as_slice(), &[0, 0]);
    assert_eq!(a.resize_default(5), Err(NoallocError::LengthExceed));
    assert_eq!(a.as_slice(), &[0, 0]);
}

#[test]
fn extend_from_slice_appends_in_order() {
    let mut a: Vec<i32, 4> = Vec::new();
    a.extend_from_slice(&[1]);
    a.extend_from_slice(&[2, 3]);
    assert_eq!(a.as_slice(), &[1, 2, 3]);
    assert_eq!(a.len(), 3);
}

#[test]
fn get_and_set_address_live_slots() {
    let mut a: Vec<i32, 4> = Vec::new();
    a.extend_from_slice(&[10, 20, 30]);
    assert_eq!(*a.get(1), 20);
    a.set(1, 25);
    assert_eq!(a.as_slice(), &[10, 25, 30]);
}

#[test]
fn as_mut_slice_writes_through() {
    let mut a: Vec<i32, 4> = Vec::new();
    a.extend_from_slice(&[1, 2, 3]);
    {
        let s: &mut [i32] = a.as_mut_slice();
        s[0] = 5;
    }
    assert_eq!(a.as_slice(), &[5, 2, 3]);
}

#[test]
fn raw_parts_round_trip_preserves_contents() {
    let mut a: Vec<i32, 4> = Vec::new();
    a.extend_from_slice(&[1, 2, 3]);
    let (data, length, capacity) = a.into_raw_parts();
    assert_eq!(data.as_slice(), &[1, 2, 3]);
    assert_eq!(length, 3);
    assert_eq!(capacity, 4);
    let b: Vec<i32, 4> = Vec::from_row_parts(data, length, capacity);
    assert_eq!(b.as_slice(), &[1, 2, 3]);
    assert_eq!(b.len(), 3);
    assert_eq!(b.capacity(), 4);
    let c: Vec<i32, 4> = b.raw_parts_round_trip();
    assert_eq!(c.as_slice(), &[1, 2, 3]);
}

#[test]
fn clear_keeps_capacity() {
    let mut a: Vec<i32, 3> = Vec::new();
    a.extend_from_slice(&[1, 2, 3]);
    a.clear();
    assert_eq!(a.len(), 0);
    assert_eq!(a.capacity(), 3);
    assert_eq!(a.resize(3, 1), Ok(()));
    assert_eq!(a.as_slice(), &[1, 1, 1]);
}
