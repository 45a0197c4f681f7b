//! The lock table of one file: grants and releases byte-range locks.

use vstd::prelude::*;
use crate::lock::{FileDescriptor, Lock, LockState, view_opt};
use crate::lock::{conflicts, holds, with_holder, without, lemma_without_absent};
use crate::range::{ByteRange, covers, overlaps, valid, key_lt, is_valid};
use crate::table::{Table, denied, granted, owned, released, state_at, table_wf, parted, maximal};
use crate::table::{covered, key_at, touched, acquired_at, released_at};
use crate::table::{lemma_state_at, lemma_free_range, lemma_remove_state, lemma_insert_state};
use crate::vector_map::VectorMap;

verus! {

/// The range locks associated with some file.
pub struct Locks {
    /// The file name.
    name: String,
    /// A sorted map of ranges to the records of those who hold them.
    locked_regions: VectorMap<Lock>,
}

/// A request named a range that holds no byte.
#[derive(Debug)]
pub struct InvalidRange;

/// Possible unlock errors.
#[derive(Debug)]
pub enum UnsetLockError {
    /// The holder has no part in the range.
    NotFound,
}

/// The table that a map of records stands for.
pub open spec fn states(m: Map<ByteRange, Lock>) -> Table {
    Map::new(|k: ByteRange| m.contains_key(k), |k: ByteRange| m[k]@)
}

/// Binding a record binds its state.
pub proof fn lemma_states_insert(m: Map<ByteRange, Lock>, k: ByteRange, l: Lock)
    ensures
        states(m.insert(k, l)) == states(m).insert(k, l@),
{
    assert(states(m.insert(k, l)) =~= states(m).insert(k, l@));
}

/// Removing a record removes its state.
pub proof fn lemma_states_remove(m: Map<ByteRange, Lock>, k: ByteRange)
    ensures
        states(m.remove(k)) == states(m).remove(k),
{
    assert(states(m.remove(k)) =~= states(m).remove(k));
}

/// `k` is one of the first `n` of `keys`.
pub open spec fn among(keys: Seq<ByteRange>, n: int, k: ByteRange) -> bool {
    exists|j: int| 0 <= j < n && #[trigger] keys[j] == k
}

/// `keys` lists, in ascending order, the intervals of `m` that intersect `r`.
pub open spec fn lists_hits(keys: Seq<ByteRange>, m: Table, r: ByteRange) -> bool {
    &&& forall|i: int, j: int|
        0 <= i < j < keys.len() ==> key_lt(#[trigger] keys[i], #[trigger] keys[j])
    &&& forall|i: int|
        0 <= i < keys.len() ==> m.contains_key(#[trigger] keys[i]) && overlaps(keys[i], r)
    &&& forall|k: ByteRange| #[trigger]
        m.contains_key(k) && overlaps(k, r) ==> among(keys, keys.len() as int, k)
}

/// The view of an optional borrowed record.
pub open spec fn view_ref(l: Option<&Lock>) -> Option<LockState> {
    match l {
        Some(x) => Some(x@),
        None => None,
    }
}

/// In a list of hits a later interval starts where an earlier one has ended.
pub proof fn lemma_hits_apart(keys: Seq<ByteRange>, m: Table, r: ByteRange, i: int, j: int)
    requires
        parted(m),
        lists_hits(keys, m, r),
        0 <= i < j < keys.len(),
    ensures
        keys[i].1 <= keys[j].0,
{
    assert(key_lt(keys[i], keys[j]));
    assert(m.contains_key(keys[i]) && m.contains_key(keys[j]));
    assert(!overlaps(keys[i], keys[j]));
}

/// The lock on a byte of an interval that intersects `r`, after `h` was
/// granted `r` and before the free bytes of `r` are locked: what the other
/// holders keep, joined by `h` inside `r`.
pub open spec fn kept_at(m: Table, h: FileDescriptor, r: ByteRange, exclusive: bool, p: u64)
    -> Option<LockState> {
    let base = without(state_at(m, p), h);
    if base is None {
        None
    } else if covers(r, p) {
        Some(with_holder(base, h, exclusive))
    } else {
        base
    }
}

/// The keys of a list of intervals with their records.
pub open spec fn keys_of(taken: Seq<(ByteRange, Lock)>) -> Seq<ByteRange> {
    taken.map_values(|t: (ByteRange, Lock)| t.0)
}

impl View for Locks {
    type V = Table;

    /// The locked intervals with the state of each.
    closed spec fn view(&self) -> Table {
        states(self.locked_regions.as_map())
    }
}

impl Locks {
    /// The stored records are in order and each names a holder.
    pub closed spec fn inv(&self) -> bool {
        &&& self.locked_regions.wf()
        &&& forall|k: ByteRange| #[trigger]
            self.locked_regions.as_map().contains_key(k) ==> self.locked_regions.as_map()[k].wf()
    }

    /// The table is a partition of the locked bytes into maximal intervals.
    pub open spec fn wf(&self) -> bool {
        self.inv() && table_wf(self@)
    }

    /// The file name.
    pub closed spec fn spec_name(&self) -> Seq<char> {
        self.name@
    }

    /// A table without locks for the file of the given name.
    pub fn new(name: String) -> (l: Locks)
        ensures
            l.wf(),
            l@ == Map::<ByteRange, LockState>::empty(),
            l.spec_name() == name@,
    {
        let l = Locks { name: name, locked_regions: VectorMap::new() };
        assert(l@ =~= Map::<ByteRange, LockState>::empty());
        l
    }

    /// The name of the file whose locks these are.
    pub fn name(&self) -> (n: &String)
        ensures
            n@ == self.spec_name(),
    {
        &self.name
    }

    /// Whether a request by `fd` for `range` would be denied.
    pub fn is_denied(&self, fd: FileDescriptor, range: ByteRange, exclusive: bool) -> (res: bool)
        requires
            self.wf(),
        ensures
            res == denied(self@, fd, range, exclusive),
    {
        let hits = self.locked_regions.overlapping(range);
        let mut i: usize = 0;
        while i < hits.len()
            invariant
                0 <= i <= hits.len(),
                forall|j: int|
                    0 <= j < hits@.len() ==> {
                        let hit = #[trigger] hits@[j];
                        overlaps(hit.0, range) && self.locked_regions.as_map().contains_key(hit.0)
                            && self.locked_regions.as_map()[hit.0] == *hit.1
                    },
                forall|j: int| 0 <= j < i ==> !conflicts((#[trigger] hits@[j]).1@, fd, exclusive),
            decreases hits.len() - i,
        {
            if hits[i].1.conflicts_with(fd, exclusive) {
                assert(self@.contains_key(hits@[i as int].0));
                return true;
            }
            i += 1;
        }
        proof {
            if denied(self@, fd, range, exclusive) {
                let k = choose|k: ByteRange| #[trigger]
                    self@.contains_key(k) && overlaps(k, range) && conflicts(
                        self@[k],
                        fd,
                        exclusive,
                    );
                assert(self.locked_regions.as_map().contains_key(k));
                let j = choose|j: int| 0 <= j < hits@.len() && (#[trigger] hits@[j]).0 == k;
                assert(!conflicts(hits@[j].1@, fd, exclusive));
            }
        }
        false
    }

    /// Whether `fd` has a part in some interval that intersects `range`.
    pub fn is_owned(&self, fd: FileDescriptor, range: ByteRange) -> (res: bool)
        requires
            self.wf(),
        ensures
            res == owned(self@, fd, range),
    {
        let hits = self.locked_regions.overlapping(range);
        let mut i: usize = 0;
        while i < hits.len()
            invariant
                0 <= i <= hits.len(),
                forall|j: int|
                    0 <= j < hits@.len() ==> {
                        let hit = #[trigger] hits@[j];
                        overlaps(hit.0, range) && self.locked_regions.as_map().contains_key(hit.0)
                            && self.locked_regions.as_map()[hit.0] == *hit.1
                    },
                forall|j: int| 0 <= j < i ==> !holds((#[trigger] hits@[j]).1@, fd),
            decreases hits.len() - i,
        {
            if hits[i].1.is_held_by(fd) {
                assert(self@.contains_key(hits@[i as int].0));
                return true;
            }
            i += 1;
        }
        proof {
            if owned(self@, fd, range) {
                let k = choose|k: ByteRange| #[trigger]
                    self@.contains_key(k) && overlaps(k, range) && holds(self@[k], fd);
                assert(self.locked_regions.as_map().contains_key(k));
                let j = choose|j: int| 0 <= j < hits@.len() && (#[trigger] hits@[j]).0 == k;
                assert(!holds(hits@[j].1@, fd));
            }
        }
        false
    }

    /// The interval that holds the byte at `p`, with a copy of its record.
    pub fn region_at(&self, p: u64) -> (res: Option<(ByteRange, Lock)>)
        requires
            self.wf(),
        ensures
            match res {
                Some((k, l)) => self@.contains_key(k) && covers(k, p) && state_at(self@, p) == Some(
                    l@,
                ) && l.wf(),
                None => state_at(self@, p) is None,
            },
    {
        if p == u64::MAX {
            proof {
                if covered(self@, p) {
                    let k = key_at(self@, p);
                    assert(self@.contains_key(k) && covers(k, p));
                }
            }
            return None;
        }
        let hits = self.locked_regions.overlapping((p, p + 1));
        if hits.len() > 0 {
            let k = hits[0].0;
            let l = hits[0].1.duplicate();
            proof {
                assert(self@.contains_key(hits@[0].0));
                lemma_state_at(self@, k, p);
            }
            Some((k, l))
        } else {
            proof {
                if covered(self@, p) {
                    let k = key_at(self@, p);
                    assert(self@.contains_key(k) && covers(k, p));
                    assert(self.locked_regions.as_map().contains_key(k));
                    assert(overlaps(k, (p, (p + 1) as u64)));
                }
            }
            None
        }
    }

    /// The interval that holds the byte at `p`, where its record is identical
    /// to `lock`.
    fn twin_at(&self, p: u64, lock: &Lock) -> (res: Option<ByteRange>)
        requires
            self.wf(),
            p < u64::MAX,
        ensures
            match res {
                Some(k) => self@.contains_key(k) && covers(k, p) && self@[k] == lock@,
                None => forall|k: ByteRange| #[trigger]
                    self@.contains_key(k) && covers(k, p) ==> self@[k] != lock@,
            },
    {
        let hits = self.locked_regions.overlapping((p, p + 1));
        if hits.len() > 0 && hits[0].1.same(lock) {
            assert(self@.contains_key(hits@[0].0));
            Some(hits[0].0)
        } else {
            proof {
                assert forall|k: ByteRange| #[trigger]
                    self@.contains_key(k) && covers(k, p) implies self@[k] != lock@ by {
                    assert(self.locked_regions.as_map().contains_key(k));
                    assert(overlaps(k, (p, (p + 1) as u64)));
                    let j = choose|j: int| 0 <= j < hits@.len() && (#[trigger] hits@[j]).0 == k;
                    assert(self@.contains_key(hits@[0].0));
                    assert(overlaps(hits@[0].0, (p, (p + 1) as u64)));
                    if hits@[0].0 != k {
                        assert(overlaps(hits@[0].0, k));
                    }
                }
            }
            None
        }
    }

    /// Locks the free range `k` with `lock`, joining it with a neighbour that
    /// touches it and carries the same record.
    fn put(&mut self, k: ByteRange, lock: Lock)
        requires
            old(self).wf(),
            valid(k),
            lock.wf(),
            forall|p: u64| covers(k, p) ==> #[trigger] state_at(old(self)@, p) is None,
        ensures
            final(self).wf(),
            final(self).spec_name() == old(self).spec_name(),
            forall|p: u64| #[trigger]
                state_at(final(self)@, p) == (if covers(k, p) {
                    Some(lock@)
                } else {
                    state_at(old(self)@, p)
                }),
    {
        let ghost m0 = self@;
        proof {
            lemma_free_range(m0, k);
            lock.lemma_wf_ok();
        }
        let mut key = k;
        let ghost mut left: Option<ByteRange> = None;
        if k.0 > 0 {
            if let Some(n) = self.twin_at(k.0 - 1, &lock) {
                proof {
                    left = Some(n);
                    assert(!overlaps(n, k));
                    lemma_remove_state(m0, n);
                    lemma_states_remove(self.locked_regions.as_map(), n);
                }
                self.locked_regions.remove(n);
                key = (n.0, key.1);
            }
        }
        let ghost m1 = self@;
        assert(self.wf());
        let ghost mut right: Option<ByteRange> = None;
        if k.1 < u64::MAX {
            if let Some(n) = self.twin_at(k.1, &lock) {
                proof {
                    right = Some(n);
                    assert(m0.contains_key(n));
                    assert(!overlaps(n, k));
                    lemma_remove_state(m1, n);
                    lemma_states_remove(self.locked_regions.as_map(), n);
                }
                self.locked_regions.remove(n);
                key = (key.0, n.1);
            }
        }
        let ghost m2 = self@;
        proof {
            assert forall|j: ByteRange| #[trigger] m2.contains_key(j) && j != key implies !overlaps(
                j,
                key,
            ) by {
                assert(m0.contains_key(j));
                assert(!overlaps(j, k));
                if left is Some {
                    assert(m0.contains_key(left->Some_0));
                    assert(!overlaps(j, left->Some_0));
                }
                if right is Some {
                    assert(m0.contains_key(right->Some_0));
                    assert(!overlaps(j, right->Some_0));
                }
            }
            lemma_insert_state(m2, key, lock@);
            lemma_states_insert(self.locked_regions.as_map(), key, lock);
        }
        self.locked_regions.insert(key, lock);
        proof {
            let m3 = self@;
            assert(m3 == m2.insert(key, lock@));
            assert forall|p: u64| #[trigger]
                state_at(m3, p) == (if covers(k, p) {
                    Some(lock@)
                } else {
                    state_at(m0, p)
                }) by {
                if left is Some && covers(left->Some_0, p) {
                    lemma_state_at(m0, left->Some_0, p);
                }
                if right is Some && covers(right->Some_0, p) {
                    lemma_state_at(m0, right->Some_0, p);
                }
                assert(state_at(m1, p) == (if left is Some && covers(left->Some_0, p) {
                    None
                } else {
                    state_at(m0, p)
                }));
                assert(state_at(m2, p) == (if right is Some && covers(right->Some_0, p) {
                    None
                } else {
                    state_at(m1, p)
                }));
            }
            assert(maximal(m3)) by {
                assert forall|a: ByteRange, b: ByteRange|
                    #[trigger] m3.contains_key(a) && #[trigger] m3.contains_key(b) && a.1
                        == b.0 implies m3[a] != m3[b] by {
                    if a == key && b != key {
                        assert(m2.contains_key(b) && m1.contains_key(b) && m0.contains_key(b));
                        if right is Some {
                            assert(m0.contains_key(right->Some_0));
                        } else {
                            assert(covers(b, k.1));
                        }
                    } else if b == key && a != key {
                        assert(m2.contains_key(a) && m1.contains_key(a) && m0.contains_key(a));
                        if left is Some {
                            assert(m0.contains_key(left->Some_0));
                        } else {
                            assert(covers(a, (k.0 - 1) as u64));
                        }
                    } else if a != key && b != key {
                        assert(m0.contains_key(a) && m0.contains_key(b));
                    }
                }
            }
        }
    }

    /// The intervals that intersect `range`, in ascending order.
    fn overlapping_keys(&self, range: ByteRange) -> (keys: Vec<ByteRange>)
        requires
            self.wf(),
        ensures
            lists_hits(keys@, self@, range),
    {
        let hits = self.locked_regions.overlapping(range);
        let mut keys: Vec<ByteRange> = Vec::new();
        let mut i: usize = 0;
        while i < hits.len()
            invariant
                0 <= i <= hits.len(),
                keys@.len() == i,
                forall|j: int| 0 <= j < i ==> #[trigger] keys@[j] == hits@[j].0,
            decreases hits.len() - i,
        {
            keys.push(hits[i].0);
            i += 1;
        }
        proof {
            assert forall|a: int, b: int| 0 <= a < b < keys@.len() implies key_lt(
                #[trigger] keys@[a],
                #[trigger] keys@[b],
            ) by {
                assert(key_lt(hits@[a].0, hits@[b].0));
            }
            assert forall|a: int| 0 <= a < keys@.len() implies self@.contains_key(
                #[trigger] keys@[a],
            ) && overlaps(keys@[a], range) by {
                assert(self.locked_regions.as_map().contains_key(hits@[a].0));
            }
            assert forall|k: ByteRange| #[trigger]
                self@.contains_key(k) && overlaps(k, range) implies among(
                keys@,
                keys@.len() as int,
                k,
            ) by {
                assert(self.locked_regions.as_map().contains_key(k));
                let j = choose|j: int| 0 <= j < hits@.len() && (#[trigger] hits@[j]).0 == k;
                assert(keys@[j] == k);
            }
        }
        keys
    }

    /// Removes every interval that intersects `range` and returns them with
    /// their records, in ascending order.
    fn take_overlapping(&mut self, range: ByteRange) -> (taken: Vec<(ByteRange, Lock)>)
        requires
            old(self).wf(),
        ensures
            final(self).wf(),
            final(self).spec_name() == old(self).spec_name(),
            lists_hits(keys_of(taken@), old(self)@, range),
            forall|i: int|
                0 <= i < taken@.len() ==> (#[trigger] taken@[i]).1.wf() && old(self)@[taken@[i].0]
                    == taken@[i].1@,
            forall|p: u64| #[trigger]
                state_at(final(self)@, p) == (if touched(old(self)@, range, p) {
                    None
                } else {
                    state_at(old(self)@, p)
                }),
    {
        let ghost m0 = self@;
        let ghost lm0 = self.locked_regions.as_map();
        let keys = self.overlapping_keys(range);
        let mut taken: Vec<(ByteRange, Lock)> = Vec::new();
        let mut i: usize = 0;
        while i < keys.len()
            invariant
                0 <= i <= keys.len(),
                self.inv(),
                self.spec_name() == old(self).spec_name(),
                m0 == states(lm0),
                parted(m0),
                lists_hits(keys@, m0, range),
                forall|k: ByteRange| #[trigger]
                    lm0.contains_key(k) ==> lm0[k].wf(),
                taken@.len() == i,
                forall|j: int|
                    0 <= j < i ==> (#[trigger] taken@[j]).0 == keys@[j] && taken@[j].1 == lm0[keys@[j]],
                forall|k: ByteRange|
                    #[trigger] self.locked_regions.as_map().contains_key(k) <==> lm0.contains_key(k)
                        && !among(keys@, i as int, k),
                forall|k: ByteRange| #[trigger]
                    self.locked_regions.as_map().contains_key(k)
                        ==> self.locked_regions.as_map()[k] == lm0[k],
            decreases keys.len() - i,
        {
            let k = keys[i];
            let ghost lm = self.locked_regions.as_map();
            proof {
                assert(m0.contains_key(keys@[i as int]));
                if among(keys@, i as int, k) {
                    let j = choose|j: int| 0 <= j < i && #[trigger] keys@[j] == k;
                    assert(key_lt(keys@[j], keys@[i as int]));
                }
                assert(lm.contains_key(k));
            }
            match self.locked_regions.remove(k) {
                Some(lock) => {
                    taken.push((k, lock));
                },
                None => {},
            }
            proof {
                let lm2 = self.locked_regions.as_map();
                assert forall|x: ByteRange| #[trigger]
                    lm2.contains_key(x) <==> lm0.contains_key(x) && !among(keys@, i + 1, x) by {
                    if among(keys@, i + 1, x) {
                        let j = choose|j: int| 0 <= j < i + 1 && #[trigger] keys@[j] == x;
                        if j < i {
                            assert(among(keys@, i as int, x));
                        }
                    }
                    if among(keys@, i as int, x) {
                        let j = choose|j: int| 0 <= j < i && #[trigger] keys@[j] == x;
                        assert(among(keys@, i + 1, x));
                    }
                    if x == k {
                        assert(keys@[i as int] == x);
                    }
                }
            }
            i += 1;
        }
        proof {
            let m1 = self@;
            let ks = keys_of(taken@);
            assert(ks =~= keys@);
            assert forall|k: ByteRange| #[trigger] m1.contains_key(k) implies m0.contains_key(k)
                && m1[k] == m0[k] && !overlaps(k, range) by {
                assert(self.locked_regions.as_map().contains_key(k));
                assert(lm0.contains_key(k));
            }
            assert(parted(m1)) by {
                assert forall|a: ByteRange, b: ByteRange|
                    #[trigger] m1.contains_key(a) && #[trigger] m1.contains_key(b) && a
                        != b implies !overlaps(a, b) by {
                    assert(m0.contains_key(a) && m0.contains_key(b));
                }
            }
            assert(maximal(m1)) by {
                assert forall|a: ByteRange, b: ByteRange|
                    #[trigger] m1.contains_key(a) && #[trigger] m1.contains_key(b) && a.1
                        == b.0 implies m1[a] != m1[b] by {
                    assert(m0.contains_key(a) && m0.contains_key(b));
                }
            }
            assert forall|i: int| 0 <= i < taken@.len() implies (#[trigger] taken@[i]).1.wf()
                && m0[taken@[i].0] == taken@[i].1@ by {
                assert(m0.contains_key(keys@[i]));
                assert(lm0.contains_key(keys@[i]));
            }
            assert forall|p: u64| #[trigger]
                state_at(m1, p) == (if touched(m0, range, p) {
                    None
                } else {
                    state_at(m0, p)
                }) by {
                if covered(m1, p) {
                    let k2 = key_at(m1, p);
                    assert(m1.contains_key(k2) && covers(k2, p));
                    lemma_state_at(m0, k2, p);
                } else if covered(m0, p) {
                    let k2 = key_at(m0, p);
                    assert(m0.contains_key(k2) && covers(k2, p));
                    assert(lm0.contains_key(k2));
                    if !overlaps(k2, range) {
                        if among(keys@, keys@.len() as int, k2) {
                            let j = choose|j: int| 0 <= j < keys@.len() && #[trigger] keys@[j] == k2;
                            assert(overlaps(keys@[j], range));
                        }
                        assert(self.locked_regions.as_map().contains_key(k2));
                        assert(m1.contains_key(k2));
                    }
                }
            }
        }
        taken
    }

    /// Locks the free range `k` again: its bytes inside `range` with `inner`,
    /// those outside with `outer`; `None` leaves them free.
    fn put_split(&mut self, k: ByteRange, outer: Option<&Lock>, inner: Option<Lock>, range: ByteRange)
        requires
            old(self).wf(),
            valid(k),
            valid(range),
            overlaps(k, range),
            outer is Some ==> outer->Some_0.wf(),
            inner is Some ==> inner->Some_0.wf(),
            forall|p: u64| covers(k, p) ==> #[trigger] state_at(old(self)@, p) is None,
        ensures
            final(self).wf(),
            final(self).spec_name() == old(self).spec_name(),
            forall|p: u64| #[trigger]
                state_at(final(self)@, p) == (if covers(k, p) {
                    if covers(range, p) {
                        view_opt(inner)
                    } else {
                        view_ref(outer)
                    }
                } else {
                    state_at(old(self)@, p)
                }),
    {
        let lo: u64 = if k.0 < range.0 { range.0 } else { k.0 };
        let hi: u64 = if k.1 < range.1 { k.1 } else { range.1 };
        if let Some(o) = outer {
            if k.0 < lo {
                self.put((k.0, lo), o.duplicate());
            }
        }
        if let Some(l) = inner {
            self.put((lo, hi), l);
        }
        if let Some(o) = outer {
            if hi < k.1 {
                self.put((hi, k.1), o.duplicate());
            }
        }
    }

    /// Locks every free byte of `range` for `fd` alone.
    fn fill_gaps(&mut self, range: ByteRange, fd: FileDescriptor, exclusive: bool)
        requires
            old(self).wf(),
            valid(range),
        ensures
            final(self).wf(),
            final(self).spec_name() == old(self).spec_name(),
            forall|p: u64| #[trigger]
                state_at(final(self)@, p) == (if covers(range, p) && state_at(old(self)@, p) is None {
                    Some(with_holder(None, fd, exclusive))
                } else {
                    state_at(old(self)@, p)
                }),
    {
        let ghost m0 = self@;
        let keys = self.overlapping_keys(range);
        let mut cursor: u64 = range.0;
        let mut i: usize = 0;
        while i < keys.len()
            invariant
                0 <= i <= keys.len(),
                self.wf(),
                self.spec_name() == old(self).spec_name(),
                valid(range),
                parted(m0),
                lists_hits(keys@, m0, range),
                range.0 <= cursor <= range.1,
                i == 0 ==> cursor == range.0,
                i > 0 ==> cursor <= keys@[i - 1].1,
                forall|j: int| 0 <= j < i ==> (#[trigger] keys@[j]).1 <= cursor || cursor == range.1,
                forall|p: u64| #[trigger]
                    state_at(self@, p) == (if covers(range, p) && p < cursor && state_at(m0, p) is None {
                        Some(with_holder(None, fd, exclusive))
                    } else {
                        state_at(m0, p)
                    }),
            decreases keys.len() - i,
        {
            let k = keys[i];
            let ghost before = self@;
            let ghost c0 = cursor;
            proof {
                assert(m0.contains_key(keys@[i as int]) && overlaps(keys@[i as int], range));
                assert forall|p: u64| c0 <= p < k.0 implies #[trigger] state_at(m0, p) is None by {
                    Self::lemma_gap_free(keys@, m0, range, i as int, c0, p);
                }
            }
            if k.0 > cursor {
                self.put((cursor, k.0), Lock::single(fd, exclusive));
            }
            cursor = if k.1 < range.1 { k.1 } else { range.1 };
            proof {
                assert forall|j: int| 0 <= j < i + 1 implies (#[trigger] keys@[j]).1 <= cursor || cursor
                    == range.1 by {
                    if j < i {
                        lemma_hits_apart(keys@, m0, range, j, i as int);
                    }
                }
                assert(c0 <= cursor) by {
                    if i > 0 {
                        lemma_hits_apart(keys@, m0, range, i - 1, i as int);
                    }
                }
                assert forall|p: u64| #[trigger]
                    state_at(self@, p) == (if covers(range, p) && p < cursor && state_at(m0, p) is None {
                        Some(with_holder(None, fd, exclusive))
                    } else {
                        state_at(m0, p)
                    }) by {
                    assert(state_at(before, p) == (if covers(range, p) && p < c0 && state_at(m0, p) is None {
                        Some(with_holder(None, fd, exclusive))
                    } else {
                        state_at(m0, p)
                    }));
                    if covers(k, p) {
                        lemma_state_at(m0, k, p);
                    }
                }
            }
            i += 1;
        }
        proof {
            assert forall|p: u64| cursor <= p < range.1 implies #[trigger] state_at(m0, p) is None by {
                if covered(m0, p) {
                    let e = key_at(m0, p);
                    assert(m0.contains_key(e) && covers(e, p));
                    assert(overlaps(e, range));
                    let j = choose|j: int| 0 <= j < keys@.len() && #[trigger] keys@[j] == e;
                    assert(keys@[j].1 <= cursor || cursor == range.1);
                }
            }
        }
        if cursor < range.1 {
            self.put((cursor, range.1), Lock::single(fd, exclusive));
        }
    }

    /// Between the cursor and the next hit every byte is free.
    proof fn lemma_gap_free(keys: Seq<ByteRange>, m0: Table, range: ByteRange, i: int, cursor: u64, p: u64)
        requires
            parted(m0),
            lists_hits(keys, m0, range),
            0 <= i < keys.len(),
            range.0 <= cursor <= range.1,
            forall|j: int| 0 <= j < i ==> (#[trigger] keys[j]).1 <= cursor || cursor == range.1,
            cursor <= p < keys[i].0,
        ensures
            state_at(m0, p) is None,
    {
        if covered(m0, p) {
            let e = key_at(m0, p);
            assert(m0.contains_key(e) && covers(e, p));
            assert(m0.contains_key(keys[i]) && overlaps(keys[i], range));
            assert(overlaps(e, range));
            let j = choose|j: int| 0 <= j < keys.len() && #[trigger] keys[j] == e;
            if j < i {
                assert(keys[j].1 <= cursor || cursor == range.1);
            } else if j > i {
                lemma_hits_apart(keys, m0, range, i, j);
            }
        }
    }

    /// Sets a lock for a given byte range. `Ok(false)` says that the request
    /// conflicts with a lock held by someone else; nothing has changed then.
    /// On `Ok(true)` every interval that intersected the range has lost `fd`
    /// over its whole length, and the bytes of the range are locked for `fd`.
    pub fn set_lock(&mut self, fd: FileDescriptor, range: ByteRange, exclusive: bool) -> (res:
        Result<bool, InvalidRange>)
        requires
            old(self).wf(),
        ensures
            final(self).wf(),
            final(self).spec_name() == old(self).spec_name(),
            !valid(range) ==> res == Err::<bool, InvalidRange>(InvalidRange) && final(self)@ == old(
                self,
            )@,
            valid(range) && denied(old(self)@, fd, range, exclusive) ==> res == Ok::<
                bool,
                InvalidRange,
            >(false) && final(self)@ == old(self)@,
            valid(range) && !denied(old(self)@, fd, range, exclusive) ==> res == Ok::<
                bool,
                InvalidRange,
            >(true) && granted(old(self)@, fd, range, exclusive, final(self)@),
    {
        if !is_valid(range) {
            return Err(InvalidRange);
        }
        if self.is_denied(fd, range, exclusive) {
            return Ok(false);
        }
        let ghost m0 = self@;
        let taken = self.take_overlapping(range);
        let ghost ks = keys_of(taken@);
        let mut i: usize = 0;
        while i < taken.len()
            invariant
                0 <= i <= taken.len(),
                self.wf(),
                self.spec_name() == old(self).spec_name(),
                valid(range),
                parted(m0),
                ks == keys_of(taken@),
                lists_hits(ks, m0, range),
                forall|j: int|
                    0 <= j < taken@.len() ==> (#[trigger] taken@[j]).1.wf() && m0[taken@[j].0]
                        == taken@[j].1@,
                forall|p: u64| #[trigger]
                    state_at(self@, p) == (if touched(m0, range, p) {
                        if among(ks, i as int, key_at(m0, p)) {
                            kept_at(m0, fd, range, exclusive, p)
                        } else {
                            None
                        }
                    } else {
                        state_at(m0, p)
                    }),
            decreases taken.len() - i,
        {
            let k = taken[i].0;
            let ghost before = self@;
            proof {
                assert(ks[i as int] == k);
                assert(m0.contains_key(ks[i as int]) && overlaps(ks[i as int], range));
                Self::lemma_pending_free(ks, m0, range, i as int, before);
            }
            let rest = taken[i].1.released_by(fd);
            match rest {
                Some(others) => {
                    let joined = Lock::joined_by(Some(&others), fd, exclusive);
                    self.put_split(k, Some(&others), Some(joined), range);
                },
                None => {},
            }
            proof {
                let after = self@;
                assert forall|p: u64| #[trigger]
                    state_at(after, p) == (if touched(m0, range, p) {
                        if among(ks, i + 1, key_at(m0, p)) {
                            kept_at(m0, fd, range, exclusive, p)
                        } else {
                            None
                        }
                    } else {
                        state_at(m0, p)
                    }) by {
                    Self::lemma_step(ks, m0, range, i as int, p);
                    if covers(k, p) {
                        lemma_state_at(m0, k, p);
                    }
                    assert(state_at(before, p) == (if touched(m0, range, p) {
                        if among(ks, i as int, key_at(m0, p)) {
                            kept_at(m0, fd, range, exclusive, p)
                        } else {
                            None
                        }
                    } else {
                        state_at(m0, p)
                    }));
                }
            }
            i += 1;
        }
        let ghost m1 = self@;
        self.fill_gaps(range, fd, exclusive);
        proof {
            let m2 = self@;
            assert forall|p: u64| #[trigger]
                state_at(m2, p) == acquired_at(m0, fd, range, exclusive, p) by {
                Self::lemma_all_done(ks, m0, range, p);
                assert(state_at(m1, p) == (if touched(m0, range, p) {
                    if among(ks, taken@.len() as int, key_at(m0, p)) {
                        kept_at(m0, fd, range, exclusive, p)
                    } else {
                        None
                    }
                } else {
                    state_at(m0, p)
                }));
                if covers(range, p) && covered(m0, p) {
                    let e = key_at(m0, p);
                    assert(m0.contains_key(e) && covers(e, p));
                    assert(overlaps(e, range));
                }
            }
        }
        Ok(true)
    }

    /// While intervals are being put back, the bytes of the next one are free.
    proof fn lemma_pending_free(ks: Seq<ByteRange>, m0: Table, range: ByteRange, i: int, cur: Table)
        requires
            parted(m0),
            lists_hits(ks, m0, range),
            0 <= i < ks.len(),
            forall|p: u64|
                touched(m0, range, p) && !among(ks, i, key_at(m0, p)) ==> #[trigger] state_at(cur, p)
                    is None,
        ensures
            forall|p: u64| covers(ks[i], p) ==> #[trigger] state_at(cur, p) is None,
    {
        assert forall|p: u64| covers(ks[i], p) implies #[trigger] state_at(cur, p) is None by {
            assert(m0.contains_key(ks[i]) && overlaps(ks[i], range));
            lemma_state_at(m0, ks[i], p);
            if among(ks, i, ks[i]) {
                let j = choose|j: int| 0 <= j < i && #[trigger] ks[j] == ks[i];
                assert(key_lt(ks[j], ks[i]));
            }
        }
    }

    /// The intervals put back after one more step are those put back before
    /// and the one at `i`.
    proof fn lemma_step(ks: Seq<ByteRange>, m0: Table, range: ByteRange, i: int, p: u64)
        requires
            parted(m0),
            lists_hits(ks, m0, range),
            0 <= i < ks.len(),
        ensures
            covers(ks[i], p) ==> touched(m0, range, p) && key_at(m0, p) == ks[i],
            touched(m0, range, p) ==> (among(ks, i + 1, key_at(m0, p)) <==> (among(
                ks,
                i,
                key_at(m0, p),
            ) || covers(ks[i], p))),
    {
        assert(m0.contains_key(ks[i]) && overlaps(ks[i], range));
        if covers(ks[i], p) {
            lemma_state_at(m0, ks[i], p);
        }
        if touched(m0, range, p) {
            let e = key_at(m0, p);
            assert(m0.contains_key(e) && covers(e, p));
            if among(ks, i + 1, e) {
                let j = choose|j: int| 0 <= j < i + 1 && #[trigger] ks[j] == e;
                if j < i {
                    assert(among(ks, i, e));
                }
            }
            if among(ks, i, e) {
                let j = choose|j: int| 0 <= j < i && #[trigger] ks[j] == e;
                assert(among(ks, i + 1, e));
            }
            if covers(ks[i], p) {
                assert(ks[i] == e);
                assert(among(ks, i + 1, e));
            }
        }
    }

    /// Every byte of an interval that intersects the range lies in a listed one.
    proof fn lemma_all_done(ks: Seq<ByteRange>, m0: Table, range: ByteRange, p: u64)
        requires
            parted(m0),
            lists_hits(ks, m0, range),
        ensures
            touched(m0, range, p) ==> among(ks, ks.len() as int, key_at(m0, p)),
    {
        if touched(m0, range, p) {
            let e = key_at(m0, p);
            assert(m0.contains_key(e) && covers(e, p));
        }
    }

    /// Unsets a lock for a given byte range: every byte of the range loses
    /// `fd`, and an interval that reaches beyond the range keeps its record
    /// there. Fails, and changes nothing, where the range holds no byte or `fd`
    /// has no part in any interval that intersects it.
    pub fn unset_lock(&mut self, fd: FileDescriptor, range: ByteRange) -> (res: Result<
        (),
        UnsetLockError,
    >)
        requires
            old(self).wf(),
        ensures
            final(self).wf(),
            final(self).spec_name() == old(self).spec_name(),
            valid(range) && owned(old(self)@, fd, range) ==> res == Ok::<(), UnsetLockError>(())
                && released(old(self)@, fd, range, final(self)@),
            !(valid(range) && owned(old(self)@, fd, range)) ==> res == Err::<(), UnsetLockError>(
                UnsetLockError::NotFound,
            ) && final(self)@ == old(self)@,
    {
        if !is_valid(range) {
            return Err(UnsetLockError::NotFound);
        }
        if !self.is_owned(fd, range) {
            return Err(UnsetLockError::NotFound);
        }
        let ghost m0 = self@;
        let taken = self.take_overlapping(range);
        let ghost ks = keys_of(taken@);
        let mut i: usize = 0;
        while i < taken.len()
            invariant
                0 <= i <= taken.len(),
                self.wf(),
                self.spec_name() == old(self).spec_name(),
                valid(range),
                parted(m0),
                ks == keys_of(taken@),
                lists_hits(ks, m0, range),
                forall|j: int|
                    0 <= j < taken@.len() ==> (#[trigger] taken@[j]).1.wf() && m0[taken@[j].0]
                        == taken@[j].1@,
                forall|p: u64| #[trigger]
                    state_at(self@, p) == (if touched(m0, range, p) {
                        if among(ks, i as int, key_at(m0, p)) {
                            released_at(m0, fd, range, p)
                        } else {
                            None
                        }
                    } else {
                        state_at(m0, p)
                    }),
            decreases taken.len() - i,
        {
            let k = taken[i].0;
            let ghost before = self@;
            proof {
                assert(ks[i as int] == k);
                assert(m0.contains_key(ks[i as int]) && overlaps(ks[i as int], range));
                Self::lemma_pending_free(ks, m0, range, i as int, before);
                taken@[i as int].1.lemma_wf_ok();
            }
            if taken[i].1.is_held_by(fd) {
                let rest = taken[i].1.released_by(fd);
                self.put_split(k, Some(&taken[i].1), rest, range);
            } else {
                proof {
                    lemma_without_absent(taken@[i as int].1@, fd);
                }
                self.put(k, taken[i].1.duplicate());
            }
            proof {
                let after = self@;
                assert forall|p: u64| #[trigger]
                    state_at(after, p) == (if touched(m0, range, p) {
                        if among(ks, i + 1, key_at(m0, p)) {
                            released_at(m0, fd, range, p)
                        } else {
                            None
                        }
                    } else {
                        state_at(m0, p)
                    }) by {
                    Self::lemma_step(ks, m0, range, i as int, p);
                    if covers(k, p) {
                        lemma_state_at(m0, k, p);
                    }
                    assert(state_at(before, p) == (if touched(m0, range, p) {
                        if among(ks, i as int, key_at(m0, p)) {
                            released_at(m0, fd, range, p)
                        } else {
                            None
                        }
                    } else {
                        state_at(m0, p)
                    }));
                }
            }
            i += 1;
        }
        proof {
            let m1 = self@;
            assert forall|p: u64| #[trigger] state_at(m1, p) == released_at(m0, fd, range, p) by {
                Self::lemma_all_done(ks, m0, range, p);
                if covers(range, p) && covered(m0, p) {
                    let e = key_at(m0, p);
                    assert(m0.contains_key(e) && covers(e, p));
                    assert(overlaps(e, range));
                }
            }
        }
        Ok(())
    }
}

} // verus!
