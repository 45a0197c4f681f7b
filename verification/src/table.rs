//! The mathematical model of a lock table: a finite map from disjoint byte
//! ranges to lock records, read byte by byte.

use vstd::prelude::*;
use crate::lock::{FileDescriptor, LockState, conflicts, holds, state_ok, with_holder, without};
use crate::range::{ByteRange, covers, overlaps, valid};

verus! {

/// The locked intervals of one file, each with its record.
pub type Table = Map<ByteRange, LockState>;

/// Some interval of the table holds the byte at `p`.
pub open spec fn covered(m: Table, p: u64) -> bool {
    exists|k: ByteRange| #[trigger] m.contains_key(k) && covers(k, p)
}

/// The interval that holds the byte at `p`, where there is one.
pub open spec fn key_at(m: Table, p: u64) -> ByteRange {
    choose|k: ByteRange| #[trigger] m.contains_key(k) && covers(k, p)
}

/// The lock on the byte at `p`; `None` where the byte is free.
pub open spec fn state_at(m: Table, p: u64) -> Option<LockState> {
    if covered(m, p) {
        Some(m[key_at(m, p)])
    } else {
        None
    }
}

/// Every interval holds a byte, every record names a holder, and no two
/// intervals intersect.
pub open spec fn parted(m: Table) -> bool {
    &&& forall|k: ByteRange| #[trigger] m.contains_key(k) ==> valid(k) && state_ok(m[k])
    &&& forall|a: ByteRange, b: ByteRange|
        #[trigger] m.contains_key(a) && #[trigger] m.contains_key(b) && a != b ==> !overlaps(a, b)
}

/// No two intervals that touch carry the same record: each is maximal.
pub open spec fn maximal(m: Table) -> bool {
    forall|a: ByteRange, b: ByteRange|
        #[trigger] m.contains_key(a) && #[trigger] m.contains_key(b) && a.1 == b.0 ==> m[a] != m[b]
}

/// The invariant of a lock table.
pub open spec fn table_wf(m: Table) -> bool {
    parted(m) && maximal(m)
}

/// A request by `h` for `r` is denied: some interval that intersects `r`
/// carries a record in its way.
pub open spec fn denied(m: Table, h: FileDescriptor, r: ByteRange, exclusive: bool) -> bool {
    exists|k: ByteRange| #[trigger]
        m.contains_key(k) && overlaps(k, r) && conflicts(m[k], h, exclusive)
}

/// `h` has a part in some interval that intersects `r`.
pub open spec fn owned(m: Table, h: FileDescriptor, r: ByteRange) -> bool {
    exists|k: ByteRange| #[trigger] m.contains_key(k) && overlaps(k, r) && holds(m[k], h)
}

/// The byte at `p` lies in an interval that intersects `r`.
pub open spec fn touched(m: Table, r: ByteRange, p: u64) -> bool {
    covered(m, p) && overlaps(key_at(m, p), r)
}

/// The lock on the byte at `p` after `h` was granted `r`. Every interval that
/// intersects `r` loses `h` over its whole length; then the bytes of `r` gain `h`.
pub open spec fn acquired_at(m: Table, h: FileDescriptor, r: ByteRange, exclusive: bool, p: u64)
    -> Option<LockState> {
    let base = if touched(m, r, p) {
        without(state_at(m, p), h)
    } else {
        state_at(m, p)
    };
    if covers(r, p) {
        Some(with_holder(base, h, exclusive))
    } else {
        base
    }
}

/// The lock on the byte at `p` after `h` released `r`: the bytes of `r` lose
/// `h`, all others stay as they are.
pub open spec fn released_at(m: Table, h: FileDescriptor, r: ByteRange, p: u64) -> Option<
    LockState,
> {
    if covers(r, p) {
        without(state_at(m, p), h)
    } else {
        state_at(m, p)
    }
}

/// `post` is the table that results when `h` is granted `r` on `pre`.
pub open spec fn granted(pre: Table, h: FileDescriptor, r: ByteRange, exclusive: bool, post: Table)
    -> bool {
    table_wf(post) && forall|p: u64| #[trigger]
        state_at(post, p) == acquired_at(pre, h, r, exclusive, p)
}

/// `post` is the table that results when `h` releases `r` on `pre`.
pub open spec fn released(pre: Table, h: FileDescriptor, r: ByteRange, post: Table) -> bool {
    table_wf(post) && forall|p: u64| #[trigger] state_at(post, p) == released_at(pre, h, r, p)
}

/// The interval that holds a byte decides the byte's lock.
pub proof fn lemma_state_at(m: Table, k: ByteRange, p: u64)
    requires
        parted(m),
        m.contains_key(k),
        covers(k, p),
    ensures
        covered(m, p),
        key_at(m, p) == k,
        state_at(m, p) == Some(m[k]),
{
    let k2 = key_at(m, p);
    assert(m.contains_key(k2) && covers(k2, p));
    if k2 != k {
        assert(overlaps(k, k2));
    }
}

/// A range whose bytes are all free intersects no interval of the table.
pub proof fn lemma_free_range(m: Table, r: ByteRange)
    requires
        parted(m),
        valid(r),
        forall|p: u64| covers(r, p) ==> #[trigger] state_at(m, p) is None,
    ensures
        forall|k: ByteRange| #[trigger] m.contains_key(k) ==> !overlaps(k, r),
{
    assert forall|k: ByteRange| #[trigger] m.contains_key(k) implies !overlaps(k, r) by {
        if overlaps(k, r) {
            let p: u64 = if k.0 < r.0 { r.0 } else { k.0 };
            assert(covers(k, p) && covers(r, p));
            lemma_state_at(m, k, p);
        }
    }
}

/// Removing an interval frees its bytes and leaves all others as they are.
pub proof fn lemma_remove_state(m: Table, k: ByteRange)
    requires
        parted(m),
        m.contains_key(k),
    ensures
        parted(m.remove(k)),
        maximal(m) ==> maximal(m.remove(k)),
        forall|p: u64| #[trigger]
            state_at(m.remove(k), p) == (if covers(k, p) {
                None
            } else {
                state_at(m, p)
            }),
{
    let n = m.remove(k);
    assert(parted(n));
    assert forall|p: u64| #[trigger]
        state_at(n, p) == (if covers(k, p) {
            None
        } else {
            state_at(m, p)
        }) by {
        if covered(n, p) {
            let k2 = key_at(n, p);
            assert(n.contains_key(k2) && covers(k2, p));
            assert(m.contains_key(k2));
            lemma_state_at(m, k2, p);
            if covers(k, p) {
                assert(overlaps(k, k2));
            }
        } else if covered(m, p) {
            let k2 = key_at(m, p);
            assert(m.contains_key(k2) && covers(k2, p));
            if k2 != k {
                assert(n.contains_key(k2));
            }
        }
    }
}

/// Binding an interval that intersects no other sets the lock of its bytes
/// and leaves all others as they are.
pub proof fn lemma_insert_state(m: Table, k: ByteRange, st: LockState)
    requires
        parted(m),
        valid(k),
        state_ok(st),
        forall|j: ByteRange| #[trigger] m.contains_key(j) && j != k ==> !overlaps(j, k),
    ensures
        parted(m.insert(k, st)),
        forall|p: u64| #[trigger]
            state_at(m.insert(k, st), p) == (if covers(k, p) {
                Some(st)
            } else {
                state_at(m, p)
            }),
{
    let n = m.insert(k, st);
    assert(parted(n)) by {
        assert forall|a: ByteRange, b: ByteRange|
            #[trigger] n.contains_key(a) && #[trigger] n.contains_key(b) && a != b implies !overlaps(
            a,
            b,
        ) by {
            if a == k {
                assert(m.contains_key(b));
            } else if b == k {
                assert(m.contains_key(a));
            } else {
                assert(m.contains_key(a) && m.contains_key(b));
            }
        }
    }
    assert forall|p: u64| #[trigger]
        state_at(n, p) == (if covers(k, p) {
            Some(st)
        } else {
            state_at(m, p)
        }) by {
        if covers(k, p) {
            assert(n.contains_key(k));
            lemma_state_at(n, k, p);
        } else if covered(n, p) {
            let k2 = key_at(n, p);
            assert(n.contains_key(k2) && covers(k2, p));
            assert(m.contains_key(k2));
            lemma_state_at(m, k2, p);
        } else if covered(m, p) {
            let k2 = key_at(m, p);
            assert(m.contains_key(k2) && covers(k2, p));
            assert(n.contains_key(k2));
        }
    }
}

/// Two lock tables that agree on every byte are the same table: the
/// intervals of a table are decided by the locks on its bytes.
pub proof fn lemma_table_unique(a: Table, b: Table)
    requires
        table_wf(a),
        table_wf(b),
        forall|p: u64| #[trigger] state_at(a, p) == state_at(b, p),
    ensures
        a == b,
{
    assert forall|k: ByteRange| a.contains_key(k) implies b.contains_key(k) && a[k] == b[k] by {
        lemma_same_key(a, b, k);
    }
    assert forall|k: ByteRange| b.contains_key(k) implies a.contains_key(k) by {
        lemma_same_key(b, a, k);
    }
    assert(a =~= b);
}

/// An interval of one table is an interval of any table that agrees with it
/// on every byte, with the same record.
proof fn lemma_same_key(a: Table, b: Table, k: ByteRange)
    requires
        table_wf(a),
        table_wf(b),
        forall|p: u64| #[trigger] state_at(a, p) == state_at(b, p),
        a.contains_key(k),
    ensures
        b.contains_key(k),
        b[k] == a[k],
{
    lemma_state_at(a, k, k.0);
    assert(state_at(b, k.0) == Some(a[k]));
    let j = key_at(b, k.0);
    assert(b.contains_key(j) && covers(j, k.0));
    assert(b[j] == a[k]);
    if j.0 < k.0 {
        // the byte before `k` has the same lock in `b`, so in `a` too
        let q: u64 = (k.0 - 1) as u64;
        lemma_state_at(b, j, q);
        assert(state_at(a, q) == Some(b[j]));
        let i = key_at(a, q);
        assert(a.contains_key(i) && covers(i, q));
        if i != k {
            assert(!overlaps(i, k));
            assert(i.1 == k.0);
        }
        assert(false);
    }
    let e: u64 = if j.1 < k.1 { j.1 } else { k.1 };
    let last: u64 = (e - 1) as u64;
    lemma_state_at(a, k, last);
    lemma_state_at(b, j, last);
    if j.1 < k.1 {
        // the byte after `j` lies in `k`
        lemma_state_at(a, k, j.1);
        assert(state_at(b, j.1) == Some(a[k]));
        let i = key_at(b, j.1);
        assert(b.contains_key(i) && covers(i, j.1));
        if i != j {
            assert(!overlaps(i, j));
            assert(i.0 == j.1);
        }
        assert(false);
    }
    if k.1 < j.1 {
        lemma_state_at(b, j, k.1);
        assert(state_at(a, k.1) == Some(b[j]));
        let i = key_at(a, k.1);
        assert(a.contains_key(i) && covers(i, k.1));
        if i != k {
            assert(!overlaps(i, k));
            assert(i.0 == k.1);
        }
        assert(false);
    }
}

} // verus!
