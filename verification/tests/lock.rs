use byte_range_locks::lock::Lock;

#[test]
fn same_compares_mode_and_holders() {
    assert!(Lock::Exclusive(1).same(&Lock::Exclusive(1)));
    assert!(!Lock::Exclusive(1).same(&Lock::Exclusive(2)));
    assert!(!Lock::Exclusive(1).same(&Lock::Shared(vec![1])));
    assert!(!Lock::Shared(vec![1]).same(&Lock::Exclusive(1)));
    assert!(Lock::Shared(vec![1, 2]).same(&Lock::Shared(vec![2, 1])));
    assert!(!Lock::Shared(vec![1, 2]).same(&Lock::Shared(vec![1])));
    assert!(!Lock::Shared(vec![1]).same(&Lock::Shared(vec![1, 2])));
}

#[test]
fn holders_and_conflicts() {
    let s = Lock::Shared(vec![1, 2]);
    assert!(s.is_held_by(1));
    assert!(!s.is_held_by(3));
    assert!(s.is_held_by_other(1));
    assert!(!Lock::Shared(vec![1]).is_held_by_other(1));
    assert!(Lock::Exclusive(1).is_held_by_other(2));
    assert!(!Lock::Exclusive(1).is_held_by_other(1));
    // an exclusive request yields to any other holder
    assert!(s.conflicts_with(1, true));
    assert!(!Lock::Shared(vec![1]).conflicts_with(1, true));
    assert!(Lock::Exclusive(2).conflicts_with(1, true));
    // a shared request only to another holder's exclusive lock
    assert!(!s.conflicts_with(3, false));
    assert!(Lock::Exclusive(2).conflicts_with(1, false));
    assert!(!Lock::Exclusive(1).conflicts_with(1, false));
}

#[test]
fn released_by_drops_one_holder() {
    assert!(Lock::Exclusive(1).released_by(1).is_none());
    assert!(Lock::Exclusive(1).released_by(2).unwrap().same(&Lock::Exclusive(1)));
    assert!(Lock::Shared(vec![1]).released_by(1).is_none());
    assert!(Lock::Shared(vec![1, 2, 3]).released_by(2).unwrap().same(&Lock::Shared(vec![1, 3])));
    assert!(Lock::Shared(vec![1, 2]).released_by(9).unwrap().same(&Lock::Shared(vec![1, 2])));
}

#[test]
fn joined_by_adds_one_holder() {
    assert!(Lock::joined_by(None, 4, true).same(&Lock::Exclusive(4)));
    assert!(Lock::joined_by(None, 4, false).same(&Lock::Shared(vec![4])));
    let s = Lock::Shared(vec![1, 2]);
    assert!(Lock::joined_by(Some(&s), 4, false).same(&Lock::Shared(vec![1, 2, 4])));
    assert!(Lock::joined_by(Some(&s), 2, false).same(&Lock::Shared(vec![1, 2])));
    assert!(Lock::joined_by(Some(&s), 4, true).same(&Lock::Exclusive(4)));
    assert!(Lock::single(3, true).same(&Lock::Exclusive(3)));
    assert!(Lock::single(3, false).same(&Lock::Shared(vec![3])));
    assert!(s.duplicate().same(&s));
}
