use byte_range_locks::lock::Lock;
use byte_range_locks::locks::{Locks, UnsetLockError};

fn exclusive_at(f: &Locks, p: u64, range: (u64, u64), fd: i32) -> bool {
    match f.region_at(p) {
        Some((k, l)) => k == range && l.same(&Lock::Exclusive(fd)),
        None => false,
    }
}

fn shared_at(f: &Locks, p: u64, range: (u64, u64), fds: Vec<i32>) -> bool {
    match f.region_at(p) {
        Some((k, l)) => k == range && l.same(&Lock::Shared(fds)),
        None => false,
    }
}

#[test]
fn two_write_locks_exclude() {
    let mut f = Locks::new("foo".to_string());
    assert_eq!(f.set_lock(1, (0, 2), true).ok(), Some(true));
    assert_eq!(f.set_lock(2, (0, 1), true).ok(), Some(false));
    assert_eq!(f.set_lock(2, (1, 2), true).ok(), Some(false));
    // After range locked by fd 1, so must succeed
    assert_eq!(f.set_lock(2, (2, 3), true).ok(), Some(true));
    // Replace range locked by fd 1
    assert_eq!(f.set_lock(1, (0, 1), true).ok(), Some(true));
    // Now extend range locked by fd 2
    assert_eq!(f.set_lock(2, (0, 2), true).ok(), Some(false));
    // Now extend range locked by fd 2
    assert_eq!(f.set_lock(2, (1, 2), true).ok(), Some(true));
    // Check unlocking an unlocked range is an error
    assert!(matches!(f.unset_lock(1, (1, 2)).err(), Some(UnsetLockError::NotFound)));
    // Unlock a range
    assert_eq!(f.unset_lock(1, (0, 9999)).ok(), Some(()));
    assert_eq!(f.unset_lock(2, (0, 9999)).ok(), Some(()));
    // Check unlocking a range twice is an error
    assert!(matches!(f.unset_lock(1, (0, 9999)).err(), Some(UnsetLockError::NotFound)));
    assert!(matches!(f.unset_lock(2, (0, 9999)).err(), Some(UnsetLockError::NotFound)));
}

#[test]
fn narrowed_and_extended_holdings_leave_the_expected_regions() {
    let mut f = Locks::new("foo".to_string());
    assert_eq!(f.set_lock(1, (0, 2), true).ok(), Some(true));
    assert!(exclusive_at(&f, 0, (0, 2), 1));
    assert!(exclusive_at(&f, 1, (0, 2), 1));
    assert_eq!(f.set_lock(2, (2, 3), true).ok(), Some(true));
    assert_eq!(f.set_lock(1, (0, 1), true).ok(), Some(true));
    // holder 1 now holds only [0,1)
    assert!(exclusive_at(&f, 0, (0, 1), 1));
    assert!(f.region_at(1).is_none());
    assert_eq!(f.set_lock(2, (1, 2), true).ok(), Some(true));
    // holder 2's holding has become [1,3)
    assert!(exclusive_at(&f, 1, (1, 3), 2));
    assert!(exclusive_at(&f, 2, (1, 3), 2));
    assert!(f.region_at(3).is_none());
}

#[test]
fn disjoint_ranges_of_distinct_holders_are_both_granted() {
    let mut f = Locks::new("a".to_string());
    assert_eq!(f.set_lock(7, (10, 20), true).ok(), Some(true));
    assert_eq!(f.set_lock(8, (20, 30), true).ok(), Some(true));
    assert_eq!(f.set_lock(9, (0, 10), true).ok(), Some(true));
    assert!(exclusive_at(&f, 10, (10, 20), 7));
    assert!(exclusive_at(&f, 20, (20, 30), 8));
    assert!(exclusive_at(&f, 9, (0, 10), 9));
}

#[test]
fn denied_request_changes_nothing() {
    let mut f = Locks::new("a".to_string());
    assert_eq!(f.set_lock(1, (5, 15), true).ok(), Some(true));
    assert_eq!(f.set_lock(2, (10, 20), true).ok(), Some(false));
    assert_eq!(f.set_lock(2, (0, 6), false).ok(), Some(false));
    assert!(exclusive_at(&f, 5, (5, 15), 1));
    assert!(f.region_at(4).is_none());
    assert!(f.region_at(15).is_none());
    // the first holder's interval is unchanged
    assert_eq!(f.unset_lock(1, (5, 15)).ok(), Some(()));
    assert!(f.region_at(5).is_none());
    assert!(f.region_at(14).is_none());
}

#[test]
fn relocking_a_prefix_frees_the_rest() {
    let mut f = Locks::new("a".to_string());
    assert_eq!(f.set_lock(1, (10, 20), true).ok(), Some(true));
    assert_eq!(f.set_lock(1, (10, 14), true).ok(), Some(true));
    assert!(exclusive_at(&f, 13, (10, 14), 1));
    assert!(f.region_at(14).is_none());
    assert_eq!(f.set_lock(2, (14, 20), true).ok(), Some(true));
    assert!(exclusive_at(&f, 19, (14, 20), 2));
}

#[test]
fn adjacent_acquire_merges_into_one_holding() {
    let mut f = Locks::new("a".to_string());
    assert_eq!(f.set_lock(5, (2, 3), true).ok(), Some(true));
    assert_eq!(f.set_lock(5, (1, 2), true).ok(), Some(true));
    assert!(exclusive_at(&f, 1, (1, 3), 5));
    assert!(exclusive_at(&f, 2, (1, 3), 5));
    assert_eq!(f.unset_lock(5, (0, 9999)).ok(), Some(()));
    assert!(f.region_at(1).is_none());
    assert!(f.region_at(2).is_none());
    assert!(matches!(f.unset_lock(5, (0, 9999)).err(), Some(UnsetLockError::NotFound)));
}

#[test]
fn merge_on_both_sides() {
    let mut f = Locks::new("a".to_string());
    assert_eq!(f.set_lock(5, (0, 10), true).ok(), Some(true));
    assert_eq!(f.set_lock(5, (20, 30), true).ok(), Some(true));
    assert_eq!(f.set_lock(5, (10, 20), true).ok(), Some(true));
    assert!(exclusive_at(&f, 0, (0, 30), 5));
    assert!(exclusive_at(&f, 15, (0, 30), 5));
    assert!(exclusive_at(&f, 29, (0, 30), 5));
}

#[test]
fn no_merge_with_another_holder_or_mode() {
    let mut f = Locks::new("a".to_string());
    assert_eq!(f.set_lock(1, (0, 10), true).ok(), Some(true));
    assert_eq!(f.set_lock(2, (10, 20), true).ok(), Some(true));
    assert_eq!(f.set_lock(1, (20, 30), false).ok(), Some(true));
    assert!(exclusive_at(&f, 9, (0, 10), 1));
    assert!(exclusive_at(&f, 10, (10, 20), 2));
    assert!(shared_at(&f, 20, (20, 30), vec![1]));
}

#[test]
fn invalid_ranges_are_rejected() {
    let mut f = Locks::new("a".to_string());
    assert_eq!(f.set_lock(1, (0, 10), true).ok(), Some(true));
    assert!(f.set_lock(1, (5, 5), true).is_err());
    assert!(f.set_lock(2, (7, 3), false).is_err());
    assert!(matches!(f.unset_lock(1, (5, 5)).err(), Some(UnsetLockError::NotFound)));
    assert!(matches!(f.unset_lock(1, (7, 3)).err(), Some(UnsetLockError::NotFound)));
    assert!(exclusive_at(&f, 0, (0, 10), 1));
    assert!(exclusive_at(&f, 9, (0, 10), 1));
}

#[test]
fn release_of_anothers_range_is_not_found() {
    let mut f = Locks::new("a".to_string());
    assert_eq!(f.set_lock(1, (0, 10), true).ok(), Some(true));
    assert!(matches!(f.unset_lock(2, (0, 10)).err(), Some(UnsetLockError::NotFound)));
    assert!(matches!(f.unset_lock(1, (10, 20)).err(), Some(UnsetLockError::NotFound)));
    assert!(exclusive_at(&f, 0, (0, 10), 1));
}

#[test]
fn release_twice_fails_the_second_time() {
    let mut f = Locks::new("a".to_string());
    assert_eq!(f.set_lock(1, (0, 10), false).ok(), Some(true));
    assert_eq!(f.set_lock(2, (0, 10), false).ok(), Some(true));
    assert_eq!(f.unset_lock(1, (3, 6)).ok(), Some(()));
    assert!(matches!(f.unset_lock(1, (3, 6)).err(), Some(UnsetLockError::NotFound)));
    // holder 1 still holds the rest
    assert_eq!(f.unset_lock(1, (0, 3)).ok(), Some(()));
    assert_eq!(f.unset_lock(1, (6, 10)).ok(), Some(()));
    assert!(shared_at(&f, 0, (0, 10), vec![2]));
}

#[test]
fn release_of_a_prefix_keeps_the_suffix() {
    let mut f = Locks::new("a".to_string());
    assert_eq!(f.set_lock(1, (10, 20), true).ok(), Some(true));
    assert_eq!(f.unset_lock(1, (0, 15)).ok(), Some(()));
    assert!(f.region_at(10).is_none());
    assert!(f.region_at(14).is_none());
    assert!(exclusive_at(&f, 15, (15, 20), 1));
}

#[test]
fn release_of_a_suffix_keeps_the_prefix() {
    let mut f = Locks::new("a".to_string());
    assert_eq!(f.set_lock(1, (10, 20), true).ok(), Some(true));
    assert_eq!(f.unset_lock(1, (15, 99)).ok(), Some(()));
    assert!(exclusive_at(&f, 10, (10, 15), 1));
    assert!(f.region_at(15).is_none());
}

#[test]
fn release_of_the_middle_leaves_two_fragments() {
    let mut f = Locks::new("a".to_string());
    assert_eq!(f.set_lock(1, (10, 20), true).ok(), Some(true));
    assert_eq!(f.unset_lock(1, (13, 17)).ok(), Some(()));
    assert!(exclusive_at(&f, 10, (10, 13), 1));
    assert!(f.region_at(13).is_none());
    assert!(f.region_at(16).is_none());
    assert!(exclusive_at(&f, 17, (17, 20), 1));
    // the freed middle can go to someone else
    assert_eq!(f.set_lock(2, (13, 17), true).ok(), Some(true));
    assert!(exclusive_at(&f, 13, (13, 17), 2));
}

#[test]
fn shared_locks_of_several_holders() {
    let mut f = Locks::new("a".to_string());
    assert_eq!(f.set_lock(1, (0, 10), false).ok(), Some(true));
    assert_eq!(f.set_lock(2, (5, 15), false).ok(), Some(true));
    assert!(shared_at(&f, 0, (0, 5), vec![1]));
    assert!(shared_at(&f, 5, (5, 10), vec![1, 2]));
    assert!(shared_at(&f, 9, (5, 10), vec![2, 1]));
    assert!(shared_at(&f, 10, (10, 15), vec![2]));
    // an exclusive request of a third holder is denied, a shared one granted
    assert_eq!(f.set_lock(3, (9, 11), true).ok(), Some(false));
    assert_eq!(f.set_lock(3, (9, 11), false).ok(), Some(true));
    assert!(shared_at(&f, 8, (5, 9), vec![1, 2]));
    assert!(shared_at(&f, 9, (9, 10), vec![1, 2, 3]));
    assert!(shared_at(&f, 10, (10, 11), vec![2, 3]));
    assert!(shared_at(&f, 11, (11, 15), vec![2]));
}

#[test]
fn shared_release_rejoins_equal_neighbours() {
    let mut f = Locks::new("a".to_string());
    assert_eq!(f.set_lock(2, (0, 20), false).ok(), Some(true));
    assert_eq!(f.set_lock(1, (5, 10), false).ok(), Some(true));
    assert!(shared_at(&f, 0, (0, 5), vec![2]));
    assert!(shared_at(&f, 5, (5, 10), vec![1, 2]));
    assert!(shared_at(&f, 10, (10, 20), vec![2]));
    assert_eq!(f.unset_lock(1, (0, 9999)).ok(), Some(()));
    assert!(shared_at(&f, 0, (0, 20), vec![2]));
    assert!(shared_at(&f, 7, (0, 20), vec![2]));
    assert!(shared_at(&f, 19, (0, 20), vec![2]));
}

#[test]
fn shared_request_over_own_exclusive_lock_is_granted() {
    let mut f = Locks::new("a".to_string());
    assert_eq!(f.set_lock(1, (0, 10), true).ok(), Some(true));
    assert_eq!(f.set_lock(1, (2, 4), false).ok(), Some(true));
    assert!(f.region_at(0).is_none());
    assert!(shared_at(&f, 2, (2, 4), vec![1]));
    assert!(f.region_at(4).is_none());
}

#[test]
fn shared_request_meets_anothers_exclusive_lock() {
    let mut f = Locks::new("a".to_string());
    assert_eq!(f.set_lock(1, (0, 10), true).ok(), Some(true));
    assert_eq!(f.set_lock(2, (9, 12), false).ok(), Some(false));
    assert_eq!(f.set_lock(2, (10, 12), false).ok(), Some(true));
    assert!(shared_at(&f, 10, (10, 12), vec![2]));
}

#[test]
fn exclusive_request_over_own_shared_lock_replaces_it() {
    let mut f = Locks::new("a".to_string());
    assert_eq!(f.set_lock(1, (0, 10), false).ok(), Some(true));
    assert_eq!(f.set_lock(1, (3, 5), true).ok(), Some(true));
    assert!(f.region_at(0).is_none());
    assert!(exclusive_at(&f, 3, (3, 5), 1));
    assert!(f.region_at(5).is_none());
}

#[test]
fn relocking_drops_the_holder_from_a_shared_interval() {
    let mut f = Locks::new("a".to_string());
    assert_eq!(f.set_lock(1, (0, 10), false).ok(), Some(true));
    assert_eq!(f.set_lock(2, (0, 10), false).ok(), Some(true));
    assert_eq!(f.set_lock(1, (2, 4), false).ok(), Some(true));
    assert!(shared_at(&f, 0, (0, 2), vec![2]));
    assert!(shared_at(&f, 2, (2, 4), vec![1, 2]));
    assert!(shared_at(&f, 4, (4, 10), vec![2]));
}

#[test]
fn locks_near_the_end_of_the_offset_space() {
    let mut f = Locks::new("a".to_string());
    let top = u64::MAX;
    assert_eq!(f.set_lock(1, (top - 1, top), true).ok(), Some(true));
    assert_eq!(f.set_lock(1, (0, 1), true).ok(), Some(true));
    assert!(exclusive_at(&f, top - 1, (top - 1, top), 1));
    assert!(f.region_at(top).is_none());
    assert_eq!(f.set_lock(1, (top - 2, top - 1), true).ok(), Some(true));
    assert!(exclusive_at(&f, top - 2, (top - 2, top), 1));
    assert_eq!(f.unset_lock(1, (0, top)).ok(), Some(()));
    assert!(f.region_at(0).is_none());
    assert!(f.region_at(top - 1).is_none());
}

#[test]
fn query_predicates_agree_with_the_outcome() {
    let mut f = Locks::new("a".to_string());
    assert_eq!(f.set_lock(1, (0, 10), true).ok(), Some(true));
    assert!(f.is_denied(2, (9, 10), true));
    assert!(f.is_denied(2, (9, 10), false));
    assert!(!f.is_denied(2, (10, 11), true));
    assert!(!f.is_denied(1, (0, 10), true));
    assert!(f.is_owned(1, (9, 100)));
    assert!(!f.is_owned(1, (10, 100)));
    assert!(!f.is_owned(2, (0, 10)));
}

#[test]
fn a_new_table_is_empty_and_keeps_its_name() {
    let mut f = Locks::new("foo".to_string());
    assert_eq!(f.name(), "foo");
    assert!(f.region_at(0).is_none());
    assert!(!f.is_owned(1, (0, u64::MAX)));
    assert!(!f.is_denied(1, (0, u64::MAX), true));
    assert!(matches!(f.unset_lock(1, (0, 9999)).err(), Some(UnsetLockError::NotFound)));
    assert_eq!(f.set_lock(1, (0, u64::MAX), true).ok(), Some(true));
    assert_eq!(f.name(), "foo");
}

#[test]
fn many_holdings_are_replaced_by_one_request() {
    let mut f = Locks::new("a".to_string());
    assert_eq!(f.set_lock(1, (0, 2), true).ok(), Some(true));
    assert_eq!(f.set_lock(1, (4, 6), true).ok(), Some(true));
    assert_eq!(f.set_lock(1, (8, 10), true).ok(), Some(true));
    // the request reaches into the first and the last holding: all three go
    assert_eq!(f.set_lock(1, (1, 9), true).ok(), Some(true));
    assert!(f.region_at(0).is_none());
    assert!(exclusive_at(&f, 1, (1, 9), 1));
    assert!(exclusive_at(&f, 8, (1, 9), 1));
    assert!(f.region_at(9).is_none());
}

#[test]
fn shared_request_fills_the_gaps_between_others() {
    let mut f = Locks::new("a".to_string());
    assert_eq!(f.set_lock(2, (2, 4), false).ok(), Some(true));
    assert_eq!(f.set_lock(3, (6, 8), false).ok(), Some(true));
    assert_eq!(f.set_lock(1, (0, 10), false).ok(), Some(true));
    assert!(shared_at(&f, 0, (0, 2), vec![1]));
    assert!(shared_at(&f, 2, (2, 4), vec![1, 2]));
    assert!(shared_at(&f, 4, (4, 6), vec![1]));
    assert!(shared_at(&f, 6, (6, 8), vec![1, 3]));
    assert!(shared_at(&f, 8, (8, 10), vec![1]));
    assert_eq!(f.unset_lock(1, (0, 10)).ok(), Some(()));
    assert!(f.region_at(0).is_none());
    assert!(shared_at(&f, 2, (2, 4), vec![2]));
    assert!(f.region_at(4).is_none());
    assert!(shared_at(&f, 6, (6, 8), vec![3]));
    assert!(f.region_at(9).is_none());
}
