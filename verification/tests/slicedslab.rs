use sliced::SlicedSlab;

#[test]
fn slab_scenario_release_and_reuse() {
    let mut ss = SlicedSlab::from_vec(3, (1..=9).collect::<Vec<i32>>());
    assert_eq!(ss.len(), 3);
    assert_eq!(ss.get(1).unwrap(), &[4, 5, 6]);
    ss.release(1);
    assert_eq!(ss.open_len(), 1);
    assert_eq!(ss.len(), 3);
    assert_eq!(ss.insert(&[9, 9, 9]), 1);
    assert_eq!(ss.get(1).unwrap(), &[9, 9, 9]);
}

#[test]
fn key_stability_under_unrelated_churn() {
    let mut ss = SlicedSlab::new(2);
    let k1 = ss.insert(&[7, 7]);
    let k2 = ss.insert(&[1, 1]);
    let k3 = ss.insert(&[2, 2]);
    assert_eq!(ss.get(k1).unwrap(), &[7, 7]);
    ss.release(k2);
    assert_eq!(ss.get(k1).unwrap(), &[7, 7]);
    let k4 = ss.insert(&[3, 3]);
    assert_eq!(k4, k2);
    assert_eq!(ss.get(k1).unwrap(), &[7, 7]);
    ss.release(k3);
    ss.release(k4);
    assert_eq!(ss.get(k1).unwrap(), &[7, 7]);
    ss.release(k1);
    assert_eq!(ss.get(k1), None);
}

#[test]
fn compact_trims_released_suffix() {
    let mut ss = SlicedSlab::new(3);
    assert_eq!(ss.insert(&[1, 2, 3]), 0);
    assert_eq!(ss.insert(&[4, 5, 6]), 1);
    assert_eq!(ss.insert(&[7, 8, 9]), 2);
    ss.release(1);
    ss.release(2);
    ss.compact();
    assert_eq!(ss.len(), 1);
    assert_eq!(ss.open_len(), 0);
    assert_eq!(ss.get(0).unwrap(), &[1, 2, 3]);
    assert_eq!(ss.get(1), None);
}

#[test]
fn compact_empties_fully_released_slab() {
    let mut ss = SlicedSlab::new(2);
    let a = ss.insert(&[1, 2]);
    let b = ss.insert(&[3, 4]);
    ss.release(a);
    ss.release(b);
    ss.compact();
    assert_eq!(ss.len(), 0);
    assert_eq!(ss.open_len(), 0);
}

#[test]
fn compact_keeps_interior_vacancies() {
    let mut ss = SlicedSlab::new(1);
    ss.insert(&[1]);
    ss.insert(&[2]);
    ss.insert(&[3]);
    ss.release(1);
    ss.compact();
    assert_eq!(ss.len(), 3);
    assert_eq!(ss.open_len(), 1);
    assert_eq!(ss.get(0).unwrap(), &[1]);
    assert_eq!(ss.get(1), None);
    assert_eq!(ss.get(2).unwrap(), &[3]);
}

#[test]
fn rekey_moves_data_toward_front() {
    let mut ss = SlicedSlab::new(3);
    assert_eq!(ss.insert(&[1, 2, 3]), 0);
    assert_eq!(ss.insert(&[4, 5, 6]), 1);
    ss.release(0);
    assert_eq!(ss.rekey(1), 0);
    assert_eq!(ss.get(0).unwrap(), &[4, 5, 6]);
    assert_eq!(ss.get(1), None);
}

#[test]
fn rekey_without_lower_vacancy_is_identity() {
    let mut ss = SlicedSlab::new(2);
    let k0 = ss.insert(&[1, 2]);
    let k1 = ss.insert(&[3, 4]);
    ss.release(k1);
    assert_eq!(ss.rekey(k0), k0);
    assert_eq!(ss.get(k0).unwrap(), &[1, 2]);
}

#[test]
fn rekey_then_compact_reclaims_tail() {
    let mut ss = SlicedSlab::new(2);
    ss.insert(&[1, 1]);
    ss.insert(&[2, 2]);
    ss.insert(&[3, 3]);
    ss.release(0);
    ss.release(1);
    let moved = ss.rekey(2);
    assert_eq!(moved, 0);
    ss.compact();
    assert_eq!(ss.len(), 1);
    assert_eq!(ss.get(0).unwrap(), &[3, 3]);
}

#[test]
fn acquire_returns_smallest_open_slot() {
    let mut ss = SlicedSlab::from_vec(2, (1..=8).collect::<Vec<i32>>());
    assert_eq!(ss.acquire(), None);
    ss.release(2);
    let key = ss.acquire().expect("No empty slots!");
    assert_eq!(key, 2);
    ss.set_segment(key, &[0, 0]);
    assert_eq!(ss.get(key).unwrap(), &[0, 0]);
}

#[test]
fn get_keys_skips_open_slots() {
    let mut ss = SlicedSlab::from_vec(2, (0..10).collect::<Vec<i32>>());
    ss.release(1);
    ss.release(3);
    assert_eq!(ss.get_keys(), vec![0, 2, 4]);
    assert_eq!(ss.iter_keys(), vec![0, 2, 4]);
}

#[test]
fn enumerate_skips_open_slots() {
    let mut ss = SlicedSlab::from_vec(3, (1..=9).collect::<Vec<i32>>());
    ss.release(1);
    let s: usize = ss.enumerate().iter().map(|(key, slice)| key * slice.len()).sum();
    assert_eq!(s, 6);
}

#[test]
fn insert_vec_appends_when_full() {
    let mut ss = SlicedSlab::new(3);
    assert_eq!(ss.insert_vec((1..=3).collect::<Vec<i32>>()), 0);
    assert_eq!(ss.insert_vec((4..=6).collect::<Vec<i32>>()), 1);
    assert_eq!(ss.get(1).unwrap(), &[4, 5, 6]);
}

#[test]
fn get_out_of_range_or_open_is_none() {
    let mut ss = SlicedSlab::new(2);
    assert_eq!(ss.get(0), None);
    let k = ss.insert(&[1, 2]);
    assert_eq!(ss.get(k + 1), None);
    ss.release(k);
    assert_eq!(ss.get(k), None);
}

#[test]
fn slab_shrink_to_fit_keeps_contents() {
    let mut ss = SlicedSlab::with_capacity(2, 50);
    let k = ss.insert(&[5, 6]);
    ss.shrink_to_fit();
    assert_eq!(ss.get(k).unwrap(), &[5, 6]);
    assert_eq!(ss.len(), 1);
}
