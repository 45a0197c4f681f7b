use byte_range_locks::range::{is_valid, key_less, ranges_overlap};
use byte_range_locks::vector_map::VectorMap;

#[test]
fn insert_keeps_the_order_and_replaces() {
    let mut v: VectorMap<&str> = VectorMap::new();
    assert_eq!(v.insert((10, 11), "niall10"), None);
    assert_eq!(v.insert((40, 41), "niall40"), None);
    assert_eq!(v.insert((20, 21), "niall20"), None);
    assert_eq!(v.insert((30, 31), "niall30"), None);
    assert_eq!(v.insert((0, 1), "niall0"), None);
    assert_eq!(v.len(), 5);
    assert_eq!(v.binary_search((0, 1)), Ok(0));
    assert_eq!(v.binary_search((10, 11)), Ok(1));
    assert_eq!(v.binary_search((20, 21)), Ok(2));
    assert_eq!(v.binary_search((30, 31)), Ok(3));
    assert_eq!(v.binary_search((40, 41)), Ok(4));
    assert_eq!(v.get((10, 11)), Some(&"niall10"));
    assert_eq!(v.insert((10, 11), "again"), Some("niall10"));
    assert_eq!(v.len(), 5);
    assert_eq!(v.get((10, 11)), Some(&"again"));
    v.clear();
    assert!(v.is_empty());
    assert_eq!(v.len(), 0);
}

#[test]
fn binary_search_gives_the_insertion_point() {
    let mut v: VectorMap<u8> = VectorMap::new();
    assert_eq!(v.binary_search((3, 4)), Err(0));
    v.insert((10, 20), 1);
    v.insert((30, 40), 2);
    assert_eq!(v.binary_search((0, 5)), Err(0));
    assert_eq!(v.binary_search((10, 19)), Err(0));
    assert_eq!(v.binary_search((10, 20)), Ok(0));
    assert_eq!(v.binary_search((10, 21)), Err(1));
    assert_eq!(v.binary_search((30, 40)), Ok(1));
    assert_eq!(v.binary_search((50, 60)), Err(2));
    assert_eq!(v.get((10, 21)), None);
}

#[test]
fn ties_on_start_are_broken_by_end() {
    let mut v: VectorMap<u8> = VectorMap::new();
    v.insert((5, 9), 2);
    v.insert((5, 7), 1);
    v.insert((4, 100), 0);
    assert_eq!(v.binary_search((4, 100)), Ok(0));
    assert_eq!(v.binary_search((5, 7)), Ok(1));
    assert_eq!(v.binary_search((5, 9)), Ok(2));
    assert_eq!(v.binary_search((5, 8)), Err(2));
}

#[test]
fn remove_deletes_only_an_exact_key() {
    let mut v: VectorMap<u8> = VectorMap::new();
    v.insert((10, 20), 1);
    v.insert((30, 40), 2);
    assert_eq!(v.remove((10, 21)), None);
    assert_eq!(v.len(), 2);
    assert_eq!(v.remove((10, 20)), Some(1));
    assert_eq!(v.len(), 1);
    assert_eq!(v.get((10, 20)), None);
    assert_eq!(v.get((30, 40)), Some(&2));
    assert_eq!(v.remove((10, 20)), None);
    assert_eq!(v.remove((30, 40)), Some(2));
    assert!(v.is_empty());
}

#[test]
fn overlapping_lists_the_intersecting_entries_in_order() {
    let mut v: VectorMap<u8> = VectorMap::new();
    v.insert((30, 40), 3);
    v.insert((0, 10), 0);
    v.insert((20, 30), 2);
    v.insert((10, 20), 1);
    let hits = v.overlapping((15, 31));
    assert_eq!(hits, vec![((10, 20), &1), ((20, 30), &2), ((30, 40), &3)]);
    let hits = v.overlapping((10, 20));
    assert_eq!(hits, vec![((10, 20), &1)]);
    let hits = v.overlapping((40, 50));
    assert!(hits.is_empty());
    let hits = v.overlapping((0, 100));
    assert_eq!(hits.len(), 4);
    assert_eq!(hits[0].0, (0, 10));
    assert_eq!(hits[3].0, (30, 40));
}

#[test]
fn overlapping_skips_entries_that_end_before_the_query() {
    let mut v: VectorMap<u8> = VectorMap::new();
    v.insert((0, 100), 0);
    v.insert((1, 2), 1);
    v.insert((5, 6), 2);
    let hits = v.overlapping((5, 6));
    assert_eq!(hits, vec![((0, 100), &0), ((5, 6), &2)]);
}

#[test]
fn range_predicates() {
    assert!(is_valid((0, 1)));
    assert!(!is_valid((1, 1)));
    assert!(!is_valid((2, 1)));
    assert!(ranges_overlap((0, 10), (9, 20)));
    assert!(!ranges_overlap((0, 10), (10, 20)));
    assert!(!ranges_overlap((10, 20), (0, 10)));
    assert!(ranges_overlap((0, 100), (5, 6)));
    assert!(key_less((0, 5), (1, 2)));
    assert!(key_less((1, 2), (1, 3)));
    assert!(!key_less((1, 3), (1, 3)));
    assert!(!key_less((2, 3), (1, 9)));
}
