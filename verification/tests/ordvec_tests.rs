use contiguous_collections::DuplicateKeyViolation;
use contiguous_collections::OrdVec;
use contiguous_collections::OrdVecKeyFst;

type Pairs = OrdVec<(u64, &'static str), OrdVecKeyFst>;

#[test]
fn new_is_empty() {
    let ov: Pairs = OrdVec::new();
    assert_eq!(ov.len(), 0);
    assert!(ov.is_empty());
    assert_eq!(ov.as_slice(), &[]);
}

#[test]
fn default_is_empty() {
    let ov: Pairs = Default::default();
    assert!(ov.is_empty());
}

#[test]
fn from_unsorted_sorts_by_key() {
    let v = vec![(1, "B"), (0, "A"), (3, "D"), (2, "C")];
    let ov: Pairs = OrdVec::new_from_unsorted(v).unwrap();
    assert_eq!(ov.as_slice(), &[(0, "A"), (1, "B"), (2, "C"), (3, "D")]);
}

#[test]
fn from_unsorted_duplicate_keys_fail() {
    let duplicate_keys = vec![(0, "A"), (0, "B")];
    let r: Result<Pairs, DuplicateKeyViolation> = OrdVec::new_from_unsorted(duplicate_keys);
    assert!(matches!(r, Err(DuplicateKeyViolation)));
}

#[test]
fn insert_keeps_key_order() {
    let mut ov: Pairs = OrdVec::new();
    ov.insert((5, "B")).unwrap();
    ov.insert((3, "A")).unwrap();
    ov.insert((7, "C")).unwrap();
    assert_eq!(ov.as_slice(), &[(3, "A"), (5, "B"), (7, "C")]);
}

#[test]
fn insert_duplicate_rejects() {
    let mut ov: Pairs = OrdVec::new();
    ov.insert((5, "B")).unwrap();
    let r = ov.insert((5, "A"));
    assert_eq!(r, Err(DuplicateKeyViolation));
    assert_eq!(ov.as_slice(), &[(5, "B")]);
}

#[test]
fn get_by_key_finds_inserted_items() {
    let mut ov: Pairs = OrdVec::new();
    ov.insert((2, "two")).unwrap();
    ov.insert((9, "nine")).unwrap();
    ov.insert((4, "four")).unwrap();
    assert_eq!(ov.get_by_key(2), Some(&(2, "two")));
    assert_eq!(ov.get_by_key(4), Some(&(4, "four")));
    assert_eq!(ov.get_by_key(9), Some(&(9, "nine")));
    assert_eq!(ov.get_by_key(3), None);
    assert_eq!(ov.get_by_key(0), None);
}

#[test]
fn get_index_by_key_positions() {
    let ov: Pairs = OrdVec::new_from_unsorted(vec![(20, "B"), (10, "A")]).unwrap();
    assert_eq!(ov.get_index_by_key(0), None);
    assert_eq!(ov.get_index_by_key(10), Some(0));
    assert_eq!(ov.get_index_by_key(20), Some(1));
}

#[test]
fn get_mut_by_key_updates_value() {
    let mut ov: Pairs = OrdVec::new_from_unsorted(vec![(1, "B"), (0, "A")]).unwrap();
    assert_eq!(ov.get_mut_by_key(0), Some(&mut (0, "A")));
    assert_eq!(ov.get_mut_by_key(2), None);
    if let Some(item) = ov.get_mut_by_key(1) {
        item.1 = "beta";
    }
    assert_eq!(ov.as_slice(), &[(0, "A"), (1, "beta")]);
}

#[test]
fn remove_by_key_returns_item() {
    let mut ov: Pairs = OrdVec::new_from_unsorted(vec![(20, "B"), (10, "A")]).unwrap();
    assert_eq!(ov.remove_by_key(10), Some((10, "A")));
    assert_eq!(ov.remove_by_key(10), None);
    assert_eq!(ov.as_slice(), &[(20, "B")]);
}

#[test]
fn remove_then_lookup_leaves_others_in_order() {
    let mut ov: Pairs =
        OrdVec::new_from_unsorted(vec![(4, "d"), (1, "a"), (3, "c"), (2, "b"), (5, "e")]).unwrap();
    assert_eq!(ov.remove_by_key(3), Some((3, "c")));
    assert_eq!(ov.get_by_key(3), None);
    assert_eq!(ov.as_slice(), &[(1, "a"), (2, "b"), (4, "d"), (5, "e")]);
}

#[test]
fn retain_map_even_keys_remapped() {
    let mut ov: Pairs = OrdVec::new_from_unsorted(vec![
        (0, "0"),
        (1, "1"),
        (2, "2"),
        (3, "3"),
        (4, "4"),
        (5, "5"),
        (6, "6"),
        (7, "7"),
    ])
    .unwrap();
    let retain_map_order = std::cell::RefCell::new(Vec::new());
    ov.retain_map(|(k, v): (u64, &'static str)| {
        retain_map_order.borrow_mut().push(k);
        if k % 2 == 0 {
            Some((6 - k, v))
        } else {
            None
        }
    })
    .unwrap();
    assert_eq!(ov.as_slice(), &[(0, "6"), (2, "4"), (4, "2"), (6, "0")]);
    assert_eq!(retain_map_order.into_inner(), vec![0, 1, 7, 6, 2, 3, 5, 4]);
}

#[test]
fn retain_map_visits_each_item_exactly_once() {
    let mut ov: Pairs =
        OrdVec::new_from_unsorted(vec![(3, "c"), (1, "a"), (4, "d"), (2, "b")]).unwrap();
    let visited = std::cell::RefCell::new(Vec::new());
    ov.retain_map(|p: (u64, &'static str)| {
        visited.borrow_mut().push(p.0);
        Some(p)
    })
    .unwrap();
    let mut seen = visited.into_inner();
    seen.sort();
    assert_eq!(seen, vec![1, 2, 3, 4]);
    assert_eq!(ov.as_slice(), &[(1, "a"), (2, "b"), (3, "c"), (4, "d")]);
}

#[test]
fn retain_map_drops_everything() {
    let mut ov: Pairs = OrdVec::new_from_unsorted(vec![(1, "a"), (2, "b")]).unwrap();
    ov.retain_map(|_p: (u64, &'static str)| None).unwrap();
    assert!(ov.is_empty());
}

#[test]
fn retain_map_duplicate_survivor_keys_fail() {
    let mut ov: Pairs =
        OrdVec::new_from_unsorted(vec![(1, "a"), (2, "b"), (3, "c")]).unwrap();
    let r = ov.retain_map(|p: (u64, &'static str)| Some((7, p.1)));
    assert_eq!(r, Err(DuplicateKeyViolation));
    assert!(ov.is_empty());
}

#[test]
fn keys_stay_strictly_ascending_and_unique() {
    let mut ov: Pairs =
        OrdVec::new_from_unsorted(vec![(8, "h"), (2, "b"), (6, "f"), (4, "d")]).unwrap();
    ov.insert((5, "e")).unwrap();
    ov.remove_by_key(6);
    ov.retain_map(|(k, v): (u64, &'static str)| if k == 2 { Some((9, v)) } else { Some((k, v)) })
        .unwrap();
    let items = ov.as_slice();
    assert_eq!(items.len(), 4);
    for w in items.windows(2) {
        assert!(w[0].0 < w[1].0);
    }
}
