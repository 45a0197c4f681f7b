//! What follows from the contracts of the lock table: statements that relate
//! several requests, proved once for all tables.

use vstd::prelude::*;
use crate::lock::{FileDescriptor, LockState, conflicts, held_by_other, holds, lemma_without_ok};
use crate::range::{ByteRange, covers, overlaps, valid};
use crate::table::{Table, acquired_at, covered, denied, granted, key_at, owned, released};
use crate::table::{released_at, state_at, table_wf};
use crate::table::{lemma_free_range, lemma_state_at};

verus! {

/// The table without locks is a lock table; it denies no request, and nobody
/// has a part in it.
pub proof fn lemma_empty_table(h: FileDescriptor, r: ByteRange, exclusive: bool)
    ensures
        table_wf(Map::<ByteRange, LockState>::empty()),
        !denied(Map::<ByteRange, LockState>::empty(), h, r, exclusive),
        !owned(Map::<ByteRange, LockState>::empty(), h, r),
        forall|p: u64| #[trigger] state_at(Map::<ByteRange, LockState>::empty(), p) is None,
{
}

/// A request is denied exactly when some byte of the range carries a lock in
/// its way.
pub proof fn lemma_denied_bytewise(m: Table, h: FileDescriptor, r: ByteRange, exclusive: bool)
    requires
        table_wf(m),
        valid(r),
    ensures
        denied(m, h, r, exclusive) <==> exists|p: u64|
            covers(r, p) && #[trigger] state_at(m, p) is Some && conflicts(
                state_at(m, p)->Some_0,
                h,
                exclusive,
            ),
{
    if denied(m, h, r, exclusive) {
        let k = choose|k: ByteRange| #[trigger]
            m.contains_key(k) && overlaps(k, r) && conflicts(m[k], h, exclusive);
        let p: u64 = if k.0 < r.0 { r.0 } else { k.0 };
        lemma_state_at(m, k, p);
        assert(covers(r, p) && state_at(m, p) is Some && conflicts(
            state_at(m, p)->Some_0,
            h,
            exclusive,
        ));
    }
    if exists|p: u64|
        covers(r, p) && #[trigger] state_at(m, p) is Some && conflicts(
            state_at(m, p)->Some_0,
            h,
            exclusive,
        ) {
        let p = choose|p: u64|
            covers(r, p) && #[trigger] state_at(m, p) is Some && conflicts(
                state_at(m, p)->Some_0,
                h,
                exclusive,
            );
        let k = key_at(m, p);
        assert(m.contains_key(k) && covers(k, p));
        assert(overlaps(k, r));
    }
}

/// A holder has a part in a range exactly when it holds some byte of it.
pub proof fn lemma_owned_bytewise(m: Table, h: FileDescriptor, r: ByteRange)
    requires
        table_wf(m),
        valid(r),
    ensures
        owned(m, h, r) <==> exists|p: u64|
            covers(r, p) && #[trigger] state_at(m, p) is Some && holds(state_at(m, p)->Some_0, h),
{
    if owned(m, h, r) {
        let k = choose|k: ByteRange| #[trigger] m.contains_key(k) && overlaps(k, r) && holds(m[k], h);
        let p: u64 = if k.0 < r.0 { r.0 } else { k.0 };
        lemma_state_at(m, k, p);
        assert(covers(r, p) && state_at(m, p) is Some && holds(state_at(m, p)->Some_0, h));
    }
    if exists|p: u64|
        covers(r, p) && #[trigger] state_at(m, p) is Some && holds(state_at(m, p)->Some_0, h) {
        let p = choose|p: u64|
            covers(r, p) && #[trigger] state_at(m, p) is Some && holds(state_at(m, p)->Some_0, h);
        let k = key_at(m, p);
        assert(m.contains_key(k) && covers(k, p));
        assert(overlaps(k, r));
    }
}

/// Exclusive requests for ranges that do not intersect do not disturb each
/// other: where neither would be denied, granting one leaves the other
/// grantable. On the table without locks neither is denied, so both succeed.
pub proof fn lemma_disjoint_requests_both_granted(
    pre: Table,
    a: FileDescriptor,
    r1: ByteRange,
    b: FileDescriptor,
    r2: ByteRange,
    post: Table,
)
    requires
        table_wf(pre),
        valid(r1),
        valid(r2),
        !overlaps(r1, r2),
        a != b,
        !denied(pre, a, r1, true),
        !denied(pre, b, r2, true),
        granted(pre, a, r1, true, post),
    ensures
        !denied(post, b, r2, true),
{
    if denied(post, b, r2, true) {
        let k = choose|k: ByteRange| #[trigger]
            post.contains_key(k) && overlaps(k, r2) && conflicts(post[k], b, true);
        let p: u64 = if k.0 < r2.0 { r2.0 } else { k.0 };
        lemma_state_at(post, k, p);
        assert(state_at(post, p) == acquired_at(pre, a, r1, true, p));
        assert(!covers(r1, p));
        assert(covered(pre, p));
        let j = key_at(pre, p);
        assert(pre.contains_key(j) && covers(j, p));
        assert(overlaps(j, r2));
        assert(!conflicts(pre[j], b, true));
        assert(!held_by_other(pre[j], b));
        match pre[j] {
            LockState::Shared(s) => {
                // nobody but `b` holds the byte, so `a` has nothing to lose there
                if s.contains(a) {
                    assert(held_by_other(pre[j], b));
                }
                assert(s.remove(a) =~= s);
            },
            LockState::Exclusive(_) => {},
        }
        assert(false);
    }
}

/// Once a holder has an exclusive lock on a range, any request of another
/// holder for a range that intersects it is denied, and the first holder has
/// a part in its range.
pub proof fn lemma_overlapping_request_denied(
    pre: Table,
    a: FileDescriptor,
    r1: ByteRange,
    post: Table,
    b: FileDescriptor,
    r2: ByteRange,
    exclusive: bool,
)
    requires
        valid(r1),
        valid(r2),
        overlaps(r1, r2),
        a != b,
        granted(pre, a, r1, true, post),
    ensures
        denied(post, b, r2, exclusive),
        owned(post, a, r1),
{
    let p: u64 = if r1.0 < r2.0 { r2.0 } else { r1.0 };
    assert(covers(r1, p) && covers(r2, p));
    assert(state_at(post, p) == acquired_at(pre, a, r1, true, p));
    let k = key_at(post, p);
    assert(post.contains_key(k) && covers(k, p));
    assert(post[k] == LockState::Exclusive(a));
    assert(overlaps(k, r2) && overlaps(k, r1));
    assert(conflicts(post[k], b, exclusive));
}

/// A holder of an exclusive lock on `[s, e)` that asks for `[s, n)` with
/// `n < e` is granted it, and `[n, e)` becomes free: any holder may then
/// lock it in either mode.
pub proof fn lemma_relock_narrows(
    pre: Table,
    h: FileDescriptor,
    s: u64,
    n: u64,
    e: u64,
    post: Table,
    g: FileDescriptor,
    exclusive: bool,
)
    requires
        table_wf(pre),
        s < n < e,
        pre.contains_key((s, e)),
        pre[(s, e)] == LockState::Exclusive(h),
        granted(pre, h, (s, n), true, post),
    ensures
        !denied(pre, h, (s, n), true),
        forall|p: u64| s <= p < n ==> #[trigger] state_at(post, p) == Some(LockState::Exclusive(h)),
        forall|p: u64| n <= p < e ==> #[trigger] state_at(post, p) is None,
        !denied(post, g, (n, e), exclusive),
{
    assert forall|k: ByteRange| #[trigger] pre.contains_key(k) && overlaps(k, (s, n)) implies k == (
        s,
        e,
    ) by {
        if k != (s, e) {
            assert(!overlaps(k, (s, e)));
        }
    }
    assert forall|p: u64| s <= p < n implies #[trigger] state_at(post, p) == Some(
        LockState::Exclusive(h),
    ) by {
        assert(state_at(post, p) == acquired_at(pre, h, (s, n), true, p));
    }
    assert forall|p: u64| n <= p < e implies #[trigger] state_at(post, p) is None by {
        assert(state_at(post, p) == acquired_at(pre, h, (s, n), true, p));
        lemma_state_at(pre, (s, e), p);
    }
    assert forall|p: u64| covers((n, e), p) implies #[trigger] state_at(post, p) is None by {}
    lemma_free_range(post, (n, e));
}

/// A holder of an exclusive lock on `[m, e)` that is granted the adjoining
/// `[s, m)` then holds one interval that spans `[s, e)`.
pub proof fn lemma_adjacent_grant_merges(
    pre: Table,
    h: FileDescriptor,
    s: u64,
    m: u64,
    e: u64,
    post: Table,
)
    requires
        table_wf(pre),
        s < m < e,
        pre.contains_key((m, e)),
        pre[(m, e)] == LockState::Exclusive(h),
        granted(pre, h, (s, m), true, post),
    ensures
        exists|k: ByteRange| #[trigger]
            post.contains_key(k) && k.0 <= s && e <= k.1 && post[k] == LockState::Exclusive(h),
{
    let st = LockState::Exclusive(h);
    assert forall|p: u64| s <= p < e implies #[trigger] state_at(post, p) == Some(st) by {
        assert(state_at(post, p) == acquired_at(pre, h, (s, m), true, p));
        if p >= m {
            lemma_state_at(pre, (m, e), p);
            assert(!overlaps((m, e), (s, m)));
        }
    }
    lemma_run_is_one_interval(post, s, e, st);
}

/// Bytes that follow one another and carry the same lock lie in one interval.
pub proof fn lemma_run_is_one_interval(t: Table, a: u64, b: u64, st: LockState)
    requires
        table_wf(t),
        a < b,
        forall|p: u64| a <= p < b ==> #[trigger] state_at(t, p) == Some(st),
    ensures
        exists|k: ByteRange| #[trigger] t.contains_key(k) && k.0 <= a && b <= k.1 && t[k] == st,
{
    assert(state_at(t, a) == Some(st));
    let k = key_at(t, a);
    assert(t.contains_key(k) && covers(k, a));
    if k.1 < b {
        let q = k.1;
        assert(state_at(t, q) == Some(st));
        let j = key_at(t, q);
        assert(t.contains_key(j) && covers(j, q));
        assert(j != k);
        assert(!overlaps(j, k));
        assert(j.0 == k.1);
        assert(false);
    }
}

/// After a release the holder has no part left in the range, so the same
/// release fails when it is asked for again.
pub proof fn lemma_release_twice_fails(pre: Table, h: FileDescriptor, r: ByteRange, post: Table)
    requires
        table_wf(pre),
        valid(r),
        released(pre, h, r, post),
    ensures
        !owned(post, h, r),
{
    if owned(post, h, r) {
        let k = choose|k: ByteRange| #[trigger]
            post.contains_key(k) && overlaps(k, r) && holds(post[k], h);
        let p: u64 = if k.0 < r.0 { r.0 } else { k.0 };
        lemma_state_at(post, k, p);
        assert(state_at(post, p) == released_at(pre, h, r, p));
        let j = key_at(pre, p);
        assert(pre.contains_key(j) && covers(j, p));
        lemma_without_ok(pre[j], h);
        assert(false);
    }
}

/// A release takes nothing from anyone but the holder who asked: whoever
/// else holds a byte keeps it.
pub proof fn lemma_release_spares_others(
    pre: Table,
    h: FileDescriptor,
    r: ByteRange,
    post: Table,
    g: FileDescriptor,
    p: u64,
)
    requires
        table_wf(pre),
        released(pre, h, r, post),
        g != h,
    ensures
        (state_at(post, p) is Some && holds(state_at(post, p)->Some_0, g)) <==> (state_at(pre, p)
            is Some && holds(state_at(pre, p)->Some_0, g)),
{
    assert(state_at(post, p) == released_at(pre, h, r, p));
    if covered(pre, p) {
        let j = key_at(pre, p);
        assert(pre.contains_key(j) && covers(j, p));
        lemma_without_ok(pre[j], h);
        match pre[j] {
            LockState::Shared(s) => {
                if s.contains(g) {
                    assert(held_by_other(pre[j], h));
                }
            },
            LockState::Exclusive(_) => {},
        }
    }
}

} // verus!
