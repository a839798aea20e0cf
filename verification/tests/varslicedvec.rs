use sliced::VarSlicedVec;

fn build(segments: &[&[i32]]) -> VarSlicedVec<i32> {
    let mut v = VarSlicedVec::new();
    for s in segments {
        v.push(s);
    }
    v
}

#[test]
fn remove_scenario() {
    let mut vv = build(&[&[1, 2], &[3], &[4, 5, 6]]);
    assert_eq!(vv.remove(1), vec![3]);
    assert_eq!(vv.lengths(), vec![2, 3]);
    assert_eq!(vv.get(0).unwrap(), &[1, 2]);
    assert_eq!(vv.get(1).unwrap(), &[4, 5, 6]);
}

#[test]
fn remove_and_pop_sequence() {
    let mut vv = VarSlicedVec::new();
    vv.push(&[1, 2, 3]);
    vv.push(&[4, 5]);
    vv.push(&[6]);
    assert_eq!(vv.remove(1), vec![4, 5]);
    assert_eq!(vv.pop(), Some(vec![6]));
    assert_eq!(vv.get(0).unwrap(), &[1, 2, 3]);
    assert_eq!(vv.len(), 1);
}

#[test]
fn insert_then_remove_roundtrip() {
    for i in 0..=3 {
        let mut vv = build(&[&[1], &[2, 2], &[3, 3, 3]]);
        vv.insert(i, &[9, 9]);
        assert_eq!(vv.len(), 4);
        assert_eq!(vv.get(i).unwrap(), &[9, 9]);
        assert_eq!(vv.remove(i), vec![9, 9]);
        assert_eq!(vv.lengths(), vec![1, 2, 3]);
        assert_eq!(vv.get(0).unwrap(), &[1]);
        assert_eq!(vv.get(1).unwrap(), &[2, 2]);
        assert_eq!(vv.get(2).unwrap(), &[3, 3, 3]);
    }
}

#[test]
fn push_and_pop_with_empty_segments() {
    let mut vv = VarSlicedVec::new();
    vv.push(&[1, 2, 3]);
    vv.push(&[4, 5]);
    assert_eq!(vv.get(0).unwrap(), &[1, 2, 3]);
    assert_eq!(vv.get(1).unwrap(), &[4, 5]);
    vv.push(&[]);
    assert_eq!(vv.len(), 3);
    assert_eq!(vv.get(2).unwrap(), &[]);
    vv.push(&[1]);
    assert_eq!(vv.len(), 4);
    assert_eq!(vv.get(2).unwrap(), &[]);
    assert_eq!(vv.get(3).unwrap(), &[1]);
    assert_eq!(vv.pop().unwrap(), vec![1]);
    assert_eq!(vv.pop().unwrap(), Vec::<i32>::new());
}

#[test]
fn pop_until_empty() {
    let mut vv = build(&[&[1, 2, 3], &[4, 5, 6, 7, 8, 9]]);
    assert_eq!(vv.pop(), Some(vec![4, 5, 6, 7, 8, 9]));
    assert_eq!(vv.len(), 1);
    assert_eq!(vv.pop(), Some(vec![1, 2, 3]));
    assert_eq!(vv.pop(), None);
    assert!(vv.is_empty());
}

#[test]
fn split_off_partitions() {
    let mut vv1 = build(&[&[1], &[2, 3], &[4, 5, 6]]);
    let vv2 = vv1.split_off(1);
    assert_eq!(vv1.get(0).unwrap(), &[1]);
    assert_eq!(vv1.lengths(), vec![1]);
    assert_eq!(vv2.get(0).unwrap(), &[2, 3]);
    assert_eq!(vv2.lengths(), vec![2, 3]);
}

#[test]
fn append_drains_other() {
    let mut a = build(&[&[1, 2], &[3], &[4, 5, 6]]);
    let mut b = build(&[&[7], &[8, 9], &[3, 2, 1]]);
    a.append(&mut b);
    assert_eq!(a.len(), 6);
    assert_eq!(b.len(), 0);
    assert_eq!(a.lengths(), vec![2, 1, 3, 1, 2, 3]);
    let mut c = VarSlicedVec::new();
    a.append(&mut c);
    assert_eq!(a.len(), 6);
    assert_eq!(a.lengths(), vec![2, 1, 3, 1, 2, 3]);
}

#[test]
fn insert_at_front_and_past_end() {
    let mut vv = build(&[&[1], &[2, 3]]);
    vv.insert(0, &[0]);
    assert_eq!(vv.get(0).unwrap(), &[0]);
    vv.insert(2, &[4]);
    assert_eq!(vv.get(2).unwrap(), &[4]);
    assert_eq!(vv.get(3).unwrap(), &[2, 3]);
}

#[test]
fn segment_len_in_and_out_of_range() {
    let vv = build(&[&[1, 2], &[3, 4, 5, 6]]);
    assert_eq!(vv.segment_len(0), 2);
    assert_eq!(vv.segment_len(1), 4);
    assert_eq!(vv.segment_len(2), 0);
    assert_eq!(vv.lengths(), vec![2, 4]);
}

#[test]
fn iter_and_accessors() {
    let vv = build(&[&[1], &[2, 3], &[4, 5, 6], &[7, 8], &[9]]);
    for slice in vv.iter() {
        assert!(slice[0] < 10);
    }
    let third = vv.iter().into_iter().take(3).last();
    assert_eq!(third, Some(vec![4, 5, 6]));
    let lens = vv.iter().iter().map(|slice| slice.len()).collect::<Vec<usize>>();
    assert_eq!(lens, vec![1, 2, 3, 2, 1]);
    assert_eq!(vv.first(), Some([1].as_slice()));
    assert_eq!(vv.last(), Some([9].as_slice()));
    assert_eq!(vv.get(5), None);
}

#[test]
fn clear_resets() {
    let mut vv = build(&[&[1, 2], &[3]]);
    vv.clear();
    assert!(vv.is_empty());
    assert_eq!(vv.len(), 0);
    assert_eq!(vv.pop(), None);
    vv.push(&[7]);
    assert_eq!(vv.get(0).unwrap(), &[7]);
}

#[test]
fn with_capacity_starts_empty() {
    let vv: VarSlicedVec<u8> = VarSlicedVec::with_capacity(1000);
    assert!(vv.storage_capacity() >= 1000);
    assert_eq!(vv.len(), 0);
}

#[test]
fn lengths_track_mixed_operations() {
    let mut vv = VarSlicedVec::new();
    vv.push(&[1, 2, 3]);
    vv.push(&[]);
    vv.insert(1, &[4, 5]);
    let mut tail = vv.split_off(2);
    assert_eq!(vv.lengths(), vec![3, 2]);
    assert_eq!(tail.lengths(), vec![0]);
    vv.append(&mut tail);
    assert_eq!(vv.lengths(), vec![3, 2, 0]);
    assert_eq!(vv.remove(1), vec![4, 5]);
    assert_eq!(vv.lengths(), vec![3, 0]);
    let total: usize = vv.lengths().iter().sum();
    assert_eq!(total, 3);
}

#[test]
fn set_segment_replaces_in_place() {
    let mut vv = build(&[&[1, 2], &[3, 4, 5]]);
    vv.set_segment(1, &[9, 9, 9]);
    assert_eq!(vv.get(0).unwrap(), &[1, 2]);
    assert_eq!(vv.get(1).unwrap(), &[9, 9, 9]);
    assert_eq!(vv.lengths(), vec![2, 3]);
}

#[test]
fn default_is_empty() {
    let vv: VarSlicedVec<i32> = Default::default();
    assert!(vv.is_empty());
}
