use sliced::SlicedVec;

fn build(segment_len: usize, segments: &[&[i32]]) -> SlicedVec<i32> {
    let mut v = SlicedVec::new(segment_len);
    for s in segments {
        v.push(s);
    }
    v
}

#[test]
fn test_slicedvec() {
    let mut a = build(3, &[&[1, 2, 3], &[4, 5, 6], &[7, 8, 9]]);
    assert!(a.is_valid_length(&[1, 2, 3, 4, 5, 6]));
    assert_eq!(a.segment_len(), 3);
    assert_eq!(a.get(0).unwrap(), &[1, 2, 3]);
    assert_eq!(a.get(1).unwrap(), &[4, 5, 6]);
    assert_eq!(a.get(2).unwrap(), &[7, 8, 9]);
    assert_eq!(a.swap_remove(1), &[4, 5, 6]);
    assert_eq!(a.len(), 2);
    assert_eq!(a.get(1).unwrap(), &[7, 8, 9]);
    let mut extra = build(3, &[&[3, 6, 9]]);
    a.append(&mut extra);
    assert_eq!(a.get(2).unwrap(), &[3, 6, 9]);
    a.insert(1, &[3, 2, 1]);
    assert_eq!(a.get(3).unwrap(), &[3, 6, 9]);
    assert_eq!(a.get(1).unwrap(), &[3, 2, 1]);
    a.relocate_insert(1, &[2, 2, 2]);
    assert_eq!(a.get(4).unwrap(), &[3, 2, 1]);
    assert_eq!(a.get(1).unwrap(), &[2, 2, 2]);
    let mut v: SlicedVec<i32> = SlicedVec::new(3);
    assert_eq!(v.len(), 0);
    v.push(&[1, 2, 3]);
    assert_eq!(v.len(), 1);
    assert_eq!(v.get(0), Some([1, 2, 3].as_slice()));
    v.push(&[4, 5, 6]);
    assert_eq!(v.len(), 2);
    assert_eq!(v.get(0).unwrap(), &[1, 2, 3]);
    assert_eq!(v.get(1).unwrap(), &[4, 5, 6]);
    let s: i32 = v.iter().iter().map(|x| x.iter().sum::<i32>()).sum();
    assert_eq!(s, 21);
    let lens = v.iter().iter().map(|x| x.len()).collect::<Vec<_>>();
    assert_eq!(lens, vec![3, 3]);
    assert_eq!(v.swap_remove(0), &[1, 2, 3]);
    assert_eq!(v.get(0).unwrap(), &[4, 5, 6]);
    v.set_segment(0, &[7, 8, 9]);
    assert_eq!(v.get(0).unwrap(), &[7, 8, 9]);
    let mut w: SlicedVec<i32> = SlicedVec::with_capacity(5, 20);
    w.push(&[1, 2, 3, 4, 5]);
    let x = w.get(0).unwrap().to_vec();
    assert_eq!(x, &[1, 2, 3, 4, 5]);
    w.set_segment(0, &[5, 4, 3, 2, 1]);
    assert_eq!(w.get(0).unwrap(), &[5, 4, 3, 2, 1]);
    assert_eq!(w.get(0).unwrap()[2], 3);
    let mut z = w.get(0).unwrap().to_vec();
    z[2] = 0;
    assert_eq!(z[2], 0);
    w.set_segment(0, &z);
    assert_eq!(w.get(0).unwrap()[2], 0);
    w.push(&[10, 20, 30, 40, 50]);
    w.push(&[100, 200, 300, 400, 500]);
    w.overwrite_remove(0);
    assert_eq!(w.len(), 2);
    assert_eq!(w.get(0).unwrap(), &[100, 200, 300, 400, 500]);
    assert_eq!(w.get(1).unwrap(), &[10, 20, 30, 40, 50]);
    w.overwrite_remove(1);
    assert_eq!(w.len(), 1);
    assert_eq!(w.get(0).unwrap(), &[100, 200, 300, 400, 500]);
    w.overwrite_remove(0);
    assert_eq!(w.len(), 0);
    assert!(w.is_empty());
    let a = build(3, &[&[1, 2, 3], &[4, 5, 6]]);
    let aa: Vec<i32> = a.into_vec();
    assert_eq!(aa.len(), 6);
}

#[test]
fn swap_remove_scenario() {
    let mut v = build(3, &[&[1, 2, 3], &[4, 5, 6], &[7, 8, 9]]);
    assert_eq!(v.swap_remove(1), vec![4, 5, 6]);
    assert_eq!(v.len(), 2);
    assert_eq!(v.get(0).unwrap(), &[1, 2, 3]);
    assert_eq!(v.get(1).unwrap(), &[7, 8, 9]);
}

#[test]
fn swap_remove_front_moves_last() {
    let mut v = build(2, &[&[1, 1], &[2, 2], &[3, 3]]);
    assert_eq!(v.swap_remove(0), vec![1, 1]);
    assert_eq!(v.get(0).unwrap(), &[3, 3]);
    assert_eq!(v.get(1).unwrap(), &[2, 2]);
}

#[test]
fn push_then_swap_remove_last_roundtrip() {
    let mut v = build(2, &[&[1, 2], &[3, 4]]);
    v.push(&[5, 6]);
    assert_eq!(v.swap_remove(v.len() - 1), vec![5, 6]);
    assert_eq!(v.len(), 2);
    assert_eq!(v.get(0).unwrap(), &[1, 2]);
    assert_eq!(v.get(1).unwrap(), &[3, 4]);
}

#[test]
fn overwrite_remove_matches_swap_remove() {
    for i in 0..3 {
        let mut a = build(2, &[&[1, 1], &[2, 2], &[3, 3]]);
        let mut b = build(2, &[&[1, 1], &[2, 2], &[3, 3]]);
        a.overwrite_remove(i);
        b.swap_remove(i);
        assert_eq!(a.len(), b.len());
        for j in 0..a.len() {
            assert_eq!(a.get(j).unwrap(), b.get(j).unwrap());
        }
    }
}

#[test]
fn storage_stays_segment_aligned() {
    let mut v = build(3, &[&[1, 2, 3]]);
    assert_eq!(v.storage_len() % v.segment_len(), 0);
    v.push(&[4, 5, 6, 7, 8, 9]);
    assert_eq!(v.storage_len(), 9);
    assert_eq!(v.storage_len() % v.segment_len(), 0);
    v.insert(0, &[0, 0, 0]);
    assert_eq!(v.storage_len() % v.segment_len(), 0);
    v.overwrite_remove(2);
    assert_eq!(v.storage_len() % v.segment_len(), 0);
    let removed = v.swap_remove(0);
    assert_eq!(removed.len(), 3);
    assert_eq!(v.storage_len() % v.segment_len(), 0);
}

#[test]
fn push_accepts_multiple_segments() {
    let mut v: SlicedVec<i32> = SlicedVec::new(3);
    v.push(&[1, 2, 3, 4, 5, 6, 7, 8, 9]);
    assert_eq!(v.len(), 3);
    assert_eq!(v.storage_len(), 9);
    assert_eq!(v.get(1).unwrap(), &[4, 5, 6]);
}

#[test]
fn from_vec_splits_into_segments() {
    let v = SlicedVec::from_vec(3, (1..=9).collect::<Vec<i32>>());
    assert_eq!(v.len(), 3);
    assert_eq!(v.get(0).unwrap(), &[1, 2, 3]);
    assert_eq!(v.get(2).unwrap(), &[7, 8, 9]);
    assert_eq!(v.get(3), None);
}

#[test]
fn pop_returns_last_segment() {
    let mut v = build(3, &[&[1, 2, 3], &[4, 5, 6], &[7, 8, 9]]);
    assert_eq!(v.pop(), Some(vec![7, 8, 9]));
    assert_eq!(v.len(), 2);
    assert_eq!(v.pop(), Some(vec![4, 5, 6]));
    assert_eq!(v.pop(), Some(vec![1, 2, 3]));
    assert_eq!(v.pop(), None);
    assert!(v.is_empty());
}

#[test]
fn truncate_and_clear() {
    let mut v: SlicedVec<i32> = SlicedVec::new(3);
    v.truncate(1);
    assert_eq!(v.len(), 0);
    v.push_vec((1..=9).collect());
    v.truncate(2);
    assert_eq!(v.last(), Some([4, 5, 6].as_slice()));
    assert_eq!(v.len(), 2);
    assert_eq!(v.storage_len(), 6);
    v.truncate(5);
    assert_eq!(v.len(), 2);
    v.clear();
    assert!(v.is_empty());
    assert_eq!(v.segment_len(), 3);
}

#[test]
fn swap_exchanges_segments() {
    let mut v = build(3, &[&[1, 2, 3], &[4, 5, 6], &[7, 8, 9]]);
    v.swap(0, 2);
    assert_eq!(v.get(0).unwrap(), &[7, 8, 9]);
    assert_eq!(v.get(1).unwrap(), &[4, 5, 6]);
    assert_eq!(v.get(2).unwrap(), &[1, 2, 3]);
}

#[test]
fn first_last_and_enumerate() {
    let v = build(3, &[&[1, 2, 3], &[4, 5, 6]]);
    assert_eq!(v.first(), Some([1, 2, 3].as_slice()));
    assert_eq!(v.last(), Some([4, 5, 6].as_slice()));
    let pairs = v.enumerate();
    assert_eq!(pairs.len(), 2);
    assert_eq!(pairs[0].0, 0);
    assert_eq!(pairs[0].1, vec![1, 2, 3]);
    assert_eq!(pairs[1].0, 1);
    assert_eq!(pairs[1].1, vec![4, 5, 6]);
    let empty: SlicedVec<i32> = SlicedVec::new(4);
    assert_eq!(empty.first(), None);
    assert_eq!(empty.last(), None);
    assert_eq!(empty.capacity(), 0);
}

#[test]
fn relocate_insert_keeps_old_contents_at_end() {
    let mut v = SlicedVec::from_vec(3, (1..=9).collect::<Vec<i32>>());
    v.relocate_insert(0, &[1, 2, 3]);
    assert_eq!(v.first(), v.last());
    assert_eq!(v.len(), 4);
    assert_eq!(v.get(3).unwrap(), &[1, 2, 3]);
}

#[test]
fn iter_storage_is_flat() {
    let v = build(2, &[&[1, 2], &[3, 4]]);
    assert_eq!(v.iter_storage(), &[1, 2, 3, 4]);
    assert_eq!(v.storage_capacity() >= 4, true);
}

#[test]
fn is_valid_length_rules() {
    let v: SlicedVec<i32> = SlicedVec::new(3);
    assert!(v.is_valid_length(&[1, 2, 3]));
    assert!(v.is_valid_length(&[1, 2, 3, 4, 5, 6]));
    assert!(!v.is_valid_length(&[1, 2]));
    assert!(!v.is_valid_length(&[]));
}

#[test]
fn shrink_to_fit_keeps_contents() {
    let mut v: SlicedVec<i32> = SlicedVec::with_capacity(2, 100);
    v.push(&[1, 2]);
    v.push(&[3, 4]);
    v.shrink_to_fit();
    assert_eq!(v.len(), 2);
    assert_eq!(v.get(0).unwrap(), &[1, 2]);
    assert_eq!(v.get(1).unwrap(), &[3, 4]);
    assert!(v.storage_capacity() >= v.storage_len());
}
