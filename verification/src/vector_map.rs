//! A map from byte ranges to values, kept as a vector sorted by range.
//!
//! Besides exact lookup it answers the one query that an ordinary ordered map
//! does not: every entry whose range intersects a given range.

use vstd::prelude::*;
use crate::range::{ByteRange, key_lt, overlaps, key_less, ranges_overlap};

verus! {

/// One entry of the map.
pub struct VectorMapItem<V> {
    pub key: ByteRange,
    pub value: V,
}

/// A map implemented as a sorted vector.
pub struct VectorMap<V> {
    root: Vec<VectorMapItem<V>>,
}

/// Keys ascend strictly, so no key occurs twice.
pub open spec fn sorted<V>(s: Seq<VectorMapItem<V>>) -> bool {
    forall|i: int, j: int|
        #![trigger s[i], s[j]]
        0 <= i < j < s.len() ==> key_lt(s[i].key, s[j].key)
}

/// Some entry of `s` has the key `k`.
pub open spec fn has_key<V>(s: Seq<VectorMapItem<V>>, k: ByteRange) -> bool {
    exists|i: int| 0 <= i < s.len() && (#[trigger] s[i]).key == k
}

/// The index of an entry with key `k`, where there is one.
pub open spec fn index_of<V>(s: Seq<VectorMapItem<V>>, k: ByteRange) -> int {
    choose|i: int| 0 <= i < s.len() && (#[trigger] s[i]).key == k
}

/// The entries as a mathematical map.
pub open spec fn to_map<V>(s: Seq<VectorMapItem<V>>) -> Map<ByteRange, V> {
    Map::new(|k: ByteRange| has_key(s, k), |k: ByteRange| s[index_of(s, k)].value)
}

/// `i` is where `k` stands or would stand: everything before sorts below `k`,
/// everything from `i` on does not.
pub open spec fn is_slot<V>(s: Seq<VectorMapItem<V>>, k: ByteRange, i: int) -> bool {
    &&& 0 <= i <= s.len()
    &&& forall|j: int| 0 <= j < i ==> key_lt((#[trigger] s[j]).key, k)
    &&& forall|j: int| i <= j < s.len() ==> !key_lt((#[trigger] s[j]).key, k)
}

/// The predicate by which `overlapping` selects entries.
pub open spec fn meets<V>(q: ByteRange) -> spec_fn(VectorMapItem<V>) -> bool {
    |it: VectorMapItem<V>| overlaps(it.key, q)
}

/// In a sorted sequence the entry at `i` is the only one with its key.
pub proof fn lemma_index_of<V>(s: Seq<VectorMapItem<V>>, i: int)
    requires
        sorted(s),
        0 <= i < s.len(),
    ensures
        has_key(s, s[i].key),
        index_of(s, s[i].key) == i,
        to_map(s).contains_key(s[i].key),
        to_map(s)[s[i].key] == s[i].value,
{
    let k = s[i].key;
    let j = index_of(s, k);
    assert(0 <= j < s.len() && s[j].key == k);
    if j < i {
        assert(key_lt(s[j].key, s[i].key));
    } else if i < j {
        assert(key_lt(s[i].key, s[j].key));
    }
}

/// A key that sorts where no entry stands is absent.
pub proof fn lemma_slot_absent<V>(s: Seq<VectorMapItem<V>>, k: ByteRange, i: int)
    requires
        sorted(s),
        is_slot(s, k, i),
        i == s.len() || s[i].key != k,
    ensures
        !has_key(s, k),
{
    if has_key(s, k) {
        let j = index_of(s, k);
        assert(s[j].key == k);
        if j > i {
            assert(key_lt(s[i].key, s[j].key));
        }
    }
}

/// Inserting a new key at its slot keeps the order and adds one binding.
pub proof fn lemma_insert<V>(s: Seq<VectorMapItem<V>>, i: int, item: VectorMapItem<V>)
    requires
        sorted(s),
        is_slot(s, item.key, i),
        i == s.len() || s[i].key != item.key,
    ensures
        sorted(s.insert(i, item)),
        to_map(s.insert(i, item)) == to_map(s).insert(item.key, item.value),
{
    let t = s.insert(i, item);
    assert(sorted(t)) by {
        assert forall|a: int, b: int| 0 <= a < b < t.len() implies key_lt(
            #[trigger] t[a].key,
            #[trigger] t[b].key,
        ) by {
            if b == i {
                assert(t[a] == s[a]);
            } else if a == i {
                assert(t[b] == s[b - 1]);
                if b - 1 > i {
                    assert(key_lt(s[i].key, s[b - 1].key));
                }
            } else {
                let a0 = if a < i { a } else { a - 1 };
                let b0 = if b < i { b } else { b - 1 };
                assert(t[a] == s[a0] && t[b] == s[b0]);
            }
        }
    }
    lemma_slot_absent(s, item.key, i);
    assert forall|k: ByteRange| has_key(t, k) <==> (k == item.key || has_key(s, k)) by {
        if has_key(t, k) {
            let j = index_of(t, k);
            if j < i {
                assert(s[j].key == k);
            } else if j > i {
                assert(s[j - 1].key == k);
            }
        }
        if has_key(s, k) {
            let j = index_of(s, k);
            if j < i {
                assert(t[j].key == k);
            } else {
                assert(t[j + 1].key == k);
            }
        }
        if k == item.key {
            assert(t[i].key == k);
        }
    }
    assert forall|k: ByteRange| has_key(t, k) implies #[trigger] to_map(t)[k] == to_map(s).insert(
        item.key,
        item.value,
    )[k] by {
        let j = index_of(t, k);
        lemma_index_of(t, j);
        if j < i {
            assert(t[j] == s[j]);
            lemma_index_of(s, j);
        } else if j > i {
            assert(t[j] == s[j - 1]);
            lemma_index_of(s, j - 1);
        }
    }
    assert(to_map(t) =~= to_map(s).insert(item.key, item.value));
}

/// Replacing the value of the entry at `i` keeps the order and rebinds its key.
pub proof fn lemma_update<V>(s: Seq<VectorMapItem<V>>, i: int, item: VectorMapItem<V>)
    requires
        sorted(s),
        0 <= i < s.len(),
        s[i].key == item.key,
    ensures
        sorted(s.update(i, item)),
        to_map(s.update(i, item)) == to_map(s).insert(item.key, item.value),
{
    let t = s.update(i, item);
    assert(sorted(t)) by {
        assert forall|a: int, b: int| 0 <= a < b < t.len() implies key_lt(
            #[trigger] t[a].key,
            #[trigger] t[b].key,
        ) by {
            assert(t[a].key == s[a].key && t[b].key == s[b].key);
        }
    }
    assert forall|k: ByteRange| has_key(t, k) <==> (k == item.key || has_key(s, k)) by {
        if has_key(t, k) {
            let j = index_of(t, k);
            assert(s[j].key == k);
        }
        if has_key(s, k) {
            let j = index_of(s, k);
            assert(t[j].key == k);
        }
        if k == item.key {
            assert(t[i].key == k);
        }
    }
    assert forall|k: ByteRange| has_key(t, k) implies #[trigger] to_map(t)[k] == to_map(s).insert(
        item.key,
        item.value,
    )[k] by {
        let j = index_of(t, k);
        lemma_index_of(t, j);
        if j != i {
            assert(t[j] == s[j]);
            lemma_index_of(s, j);
        }
    }
    assert(to_map(t) =~= to_map(s).insert(item.key, item.value));
}

/// Removing the entry at `i` keeps the order and drops its key.
pub proof fn lemma_remove<V>(s: Seq<VectorMapItem<V>>, i: int)
    requires
        sorted(s),
        0 <= i < s.len(),
    ensures
        sorted(s.remove(i)),
        to_map(s.remove(i)) == to_map(s).remove(s[i].key),
{
    let t = s.remove(i);
    assert(sorted(t)) by {
        assert forall|a: int, b: int| 0 <= a < b < t.len() implies key_lt(
            #[trigger] t[a].key,
            #[trigger] t[b].key,
        ) by {
            let a0 = if a < i { a } else { a + 1 };
            let b0 = if b < i { b } else { b + 1 };
            assert(t[a] == s[a0] && t[b] == s[b0]);
        }
    }
    assert forall|k: ByteRange| has_key(t, k) <==> (k != s[i].key && has_key(s, k)) by {
        if has_key(t, k) {
            let j = index_of(t, k);
            let j0 = if j < i { j } else { j + 1 };
            assert(s[j0].key == k);
            if j0 < i {
                assert(key_lt(s[j0].key, s[i].key));
            } else {
                assert(key_lt(s[i].key, s[j0].key));
            }
        }
        if k != s[i].key && has_key(s, k) {
            let j = index_of(s, k);
            if j < i {
                assert(t[j].key == k);
            } else {
                assert(t[j - 1].key == k);
            }
        }
    }
    assert forall|k: ByteRange| has_key(t, k) implies #[trigger] to_map(t)[k] == to_map(s)[k] by {
        let j = index_of(t, k);
        lemma_index_of(t, j);
        let j0 = if j < i { j } else { j + 1 };
        assert(t[j] == s[j0]);
        lemma_index_of(s, j0);
    }
    assert(to_map(t) =~= to_map(s).remove(s[i].key));
}

/// Past the first entry that starts at or after the end of `q`, no entry of a
/// sorted sequence intersects `q`.
pub proof fn lemma_filter_tail<V>(s: Seq<VectorMapItem<V>>, q: ByteRange, i: int)
    requires
        sorted(s),
        0 <= i <= s.len(),
        i < s.len() ==> s[i].key.0 >= q.1,
    ensures
        s.filter(meets(q)) == s.take(i).filter(meets(q)),
    decreases s.len() - i,
{
    if i == s.len() {
        assert(s.take(i) =~= s);
    } else {
        reveal(Seq::filter);
        assert(s.take(i + 1).drop_last() =~= s.take(i));
        assert(!overlaps(s[i].key, q));
        if i + 1 < s.len() {
            assert(key_lt(s[i].key, s[i + 1].key));
        }
        lemma_filter_tail(s, q, i + 1);
    }
}

/// What the selection of a sorted sequence holds: in ascending order, exactly
/// the entries whose range intersects `q`.
pub proof fn lemma_filter_sorted<V>(s: Seq<VectorMapItem<V>>, q: ByteRange)
    requires
        sorted(s),
    ensures
        sorted(s.filter(meets(q))),
        forall|i: int|
            0 <= i < s.filter(meets(q)).len() ==> {
                let it = #[trigger] s.filter(meets(q))[i];
                overlaps(it.key, q) && to_map(s).contains_key(it.key) && to_map(s)[it.key]
                    == it.value
            },
        forall|k: ByteRange|
            to_map(s).contains_key(k) && overlaps(k, q) ==> #[trigger] has_key(
                s.filter(meets(q)),
                k,
            ),
    decreases s.len(),
{
    reveal(Seq::filter);
    let f = s.filter(meets(q));
    if s.len() > 0 {
        let r = s.drop_last();
        let g = r.filter(meets(q));
        let n = s.len() - 1;
        assert(sorted(r)) by {
            assert forall|a: int, b: int| 0 <= a < b < r.len() implies key_lt(
                #[trigger] r[a].key,
                #[trigger] r[b].key,
            ) by {
                assert(r[a] == s[a] && r[b] == s[b]);
            }
        }
        lemma_filter_sorted(r, q);
        // every selected entry of the front is an entry of the front
        assert forall|i: int| 0 <= i < g.len() implies {
            let it = #[trigger] g[i];
            overlaps(it.key, q) && to_map(s).contains_key(it.key) && to_map(s)[it.key] == it.value
                && key_lt(it.key, s[n].key)
        } by {
            let it = g[i];
            assert(has_key(r, it.key));
            let j = index_of(r, it.key);
            lemma_index_of(r, j);
            assert(r[j] == s[j]);
            lemma_index_of(s, j);
            assert(key_lt(s[j].key, s[n].key));
        }
        lemma_index_of(s, n);
        assert(sorted(f)) by {
            assert forall|a: int, b: int| 0 <= a < b < f.len() implies key_lt(
                #[trigger] f[a].key,
                #[trigger] f[b].key,
            ) by {
                if b < g.len() {
                    assert(f[a] == g[a] && f[b] == g[b]);
                } else {
                    assert(f[a] == g[a]);
                }
            }
        }
        assert forall|i: int| 0 <= i < f.len() implies {
            let it = #[trigger] f[i];
            overlaps(it.key, q) && to_map(s).contains_key(it.key) && to_map(s)[it.key] == it.value
        } by {
            if i < g.len() {
                assert(f[i] == g[i]);
            }
        }
        assert forall|k: ByteRange| to_map(s).contains_key(k) && overlaps(k, q) implies #[trigger] has_key(
            f,
            k,
        ) by {
            let j = index_of(s, k);
            assert(s[j].key == k);
            if j < n {
                assert(r[j].key == k);
                assert(has_key(r, k));
                assert(has_key(g, k));
                let i = index_of(g, k);
                assert(f[i].key == k);
            } else {
                assert(f[f.len() - 1].key == k);
            }
        }
    }
}

/// A sorted sequence is decided by the map it stands for.
pub proof fn lemma_sorted_unique<V>(a: Seq<VectorMapItem<V>>, b: Seq<VectorMapItem<V>>)
    requires
        sorted(a),
        sorted(b),
        to_map(a) == to_map(b),
    ensures
        a == b,
    decreases a.len(),
{
    if a.len() == 0 {
        if b.len() > 0 {
            lemma_index_of(b, 0);
            assert(to_map(a).contains_key(b[0].key));
            let j = index_of(a, b[0].key);
        }
        assert(a =~= b);
    } else {
        let n = a.len() - 1;
        lemma_index_of(a, n);
        assert(to_map(b).contains_key(a[n].key));
        let j = index_of(b, a[n].key);
        assert(0 <= j < b.len() && b[j].key == a[n].key);
        lemma_index_of(b, j);
        if j < b.len() - 1 {
            // a later key of `b` would be a key of `a` above its last
            lemma_index_of(b, j + 1);
            assert(key_lt(b[j].key, b[j + 1].key));
            assert(to_map(a).contains_key(b[j + 1].key));
            let i = index_of(a, b[j + 1].key);
            assert(0 <= i < a.len() && a[i].key == b[j + 1].key);
            if i < n {
                assert(key_lt(a[i].key, a[n].key));
            }
            assert(false);
        }
        lemma_remove(a, n);
        lemma_remove(b, j);
        assert(a.remove(n) =~= a.drop_last());
        assert(b.remove(j) =~= b.drop_last());
        lemma_sorted_unique(a.drop_last(), b.drop_last());
        assert(a =~= a.drop_last().push(a[n]));
        assert(b =~= b.drop_last().push(b[j]));
    }
}

impl<V> View for VectorMap<V> {
    type V = Seq<VectorMapItem<V>>;

    /// The entries in the order in which they are stored.
    closed spec fn view(&self) -> Seq<VectorMapItem<V>> {
        self.root@
    }
}

impl<V> VectorMap<V> {
    /// The entries ascend strictly by key.
    pub open spec fn wf(&self) -> bool {
        sorted(self@)
    }

    /// The entries as a mathematical map.
    pub open spec fn as_map(&self) -> Map<ByteRange, V> {
        to_map(self@)
    }

    /// An empty map.
    pub fn new() -> (m: VectorMap<V>)
        ensures
            m@ == Seq::<VectorMapItem<V>>::empty(),
            m.wf(),
            m.as_map() == Map::<ByteRange, V>::empty(),
    {
        let m = VectorMap { root: Vec::new() };
        assert(m.as_map() =~= Map::<ByteRange, V>::empty());
        m
    }

    /// Clears the map, removing all values.
    pub fn clear(&mut self)
        ensures
            final(self)@ == Seq::<VectorMapItem<V>>::empty(),
            final(self).wf(),
            final(self).as_map() == Map::<ByteRange, V>::empty(),
    {
        self.root.clear();
        assert(self.as_map() =~= Map::<ByteRange, V>::empty());
    }

    /// Returns the number of entries.
    pub fn len(&self) -> (n: usize)
        ensures
            n == self@.len(),
    {
        self.root.len()
    }

    /// Returns whether the map holds no entry.
    pub fn is_empty(&self) -> (b: bool)
        ensures
            b == (self@.len() == 0),
    {
        self.root.is_empty()
    }

    /// Finds the key: `Ok` with the index of the entry that has it, or `Err`
    /// with the index at which it would be inserted to keep the order.
    pub fn binary_search(&self, key: ByteRange) -> (res: Result<usize, usize>)
        requires
            self.wf(),
        ensures
            match res {
                Ok(i) => i < self@.len() && self@[i as int].key == key && is_slot(
                    self@,
                    key,
                    i as int,
                ),
                Err(i) => is_slot(self@, key, i as int) && !has_key(self@, key),
            },
    {
        let mut lo: usize = 0;
        let mut hi: usize = self.root.len();
        while lo < hi
            invariant
                self.wf(),
                0 <= lo <= hi <= self.root.len(),
                forall|j: int| 0 <= j < lo ==> key_lt((#[trigger] self.root@[j]).key, key),
                forall|j: int| hi <= j < self.root.len() ==> !key_lt((#[trigger] self.root@[j]).key, key),
            decreases hi - lo,
        {
            let mid: usize = lo + (hi - lo) / 2;
            if key_less(self.root[mid].key, key) {
                assert forall|j: int| 0 <= j < mid + 1 implies key_lt(
                    (#[trigger] self.root@[j]).key,
                    key,
                ) by {
                    if j < mid {
                        assert(key_lt(self.root@[j].key, self.root@[mid as int].key));
                    }
                }
                lo = mid + 1;
            } else {
                assert forall|j: int| mid <= j < self.root.len() implies !key_lt(
                    (#[trigger] self.root@[j]).key,
                    key,
                ) by {
                    if j > mid {
                        assert(key_lt(self.root@[mid as int].key, self.root@[j].key));
                    }
                }
                hi = mid;
            }
        }
        if lo < self.root.len() && self.root[lo].key.0 == key.0 && self.root[lo].key.1 == key.1 {
            Ok(lo)
        } else {
            proof {
                lemma_slot_absent(self@, key, lo as int);
            }
            Err(lo)
        }
    }

    /// Returns the value stored under exactly this key, if there is one.
    pub fn get(&self, key: ByteRange) -> (res: Option<&V>)
        requires
            self.wf(),
        ensures
            match res {
                Some(v) => self.as_map().contains_key(key) && *v == self.as_map()[key],
                None => !self.as_map().contains_key(key),
            },
    {
        match self.binary_search(key) {
            Ok(index) => {
                proof {
                    lemma_index_of(self@, index as int);
                }
                Some(&self.root[index].value)
            },
            Err(_) => None,
        }
    }

    /// Inserts a value into the map, returning the value formerly stored under
    /// exactly this key, if any. Neighbouring entries are left as they are.
    pub fn insert(&mut self, key: ByteRange, value: V) -> (prev: Option<V>)
        requires
            old(self).wf(),
        ensures
            final(self).wf(),
            final(self).as_map() == old(self).as_map().insert(key, value),
            prev == (if old(self).as_map().contains_key(key) {
                Some(old(self).as_map()[key])
            } else {
                None
            }),
            final(self)@.len() == old(self)@.len() + (if prev is Some { 0int } else { 1int }),
    {
        match self.binary_search(key) {
            Err(index) => {
                proof {
                    lemma_insert(self@, index as int, VectorMapItem { key, value });
                }
                self.root.insert(index, VectorMapItem { key, value });
                None
            },
            Ok(index) => {
                proof {
                    lemma_index_of(self@, index as int);
                    lemma_update(self@, index as int, VectorMapItem { key, value });
                }
                let mut former = value;
                core::mem::swap(&mut former, &mut self.root[index].value);
                assert(self.root@ =~= old(self).root@.update(index as int, VectorMapItem { key, value }));
                Some(former)
            },
        }
    }

    /// Removes the entry stored under exactly this key and returns its value;
    /// `None`, and no change, where there is no such entry.
    pub fn remove(&mut self, key: ByteRange) -> (prev: Option<V>)
        requires
            old(self).wf(),
        ensures
            final(self).wf(),
            final(self).as_map() == old(self).as_map().remove(key),
            prev == (if old(self).as_map().contains_key(key) {
                Some(old(self).as_map()[key])
            } else {
                None
            }),
            prev is None ==> final(self)@ == old(self)@,
            final(self)@.len() == old(self)@.len() - (if prev is Some { 1int } else { 0int }),
    {
        match self.binary_search(key) {
            Err(_) => {
                assert(self.as_map() =~= self.as_map().remove(key));
                None
            },
            Ok(index) => {
                proof {
                    lemma_index_of(self@, index as int);
                    lemma_remove(self@, index as int);
                }
                let former = self.root.remove(index);
                Some(former.value)
            },
        }
    }

    /// Every entry whose range intersects `query`, in ascending order of range.
    /// The result is a snapshot of the current state.
    pub fn overlapping(&self, query: ByteRange) -> (hits: Vec<(ByteRange, &V)>)
        requires
            self.wf(),
        ensures
            hits@.len() == self@.filter(meets(query)).len(),
            forall|i: int|
                0 <= i < hits@.len() ==> (#[trigger] hits@[i]).0 == self@.filter(meets(query))[i].key
                    && *hits@[i].1 == self@.filter(meets(query))[i].value,
            forall|i: int, j: int|
                0 <= i < j < hits@.len() ==> key_lt((#[trigger] hits@[i]).0, (#[trigger] hits@[j]).0),
            forall|i: int|
                0 <= i < hits@.len() ==> {
                    let hit = #[trigger] hits@[i];
                    overlaps(hit.0, query) && self.as_map().contains_key(hit.0)
                        && self.as_map()[hit.0] == *hit.1
                },
            forall|k: ByteRange|
                #[trigger] self.as_map().contains_key(k) && overlaps(k, query) ==> exists|i: int|
                    0 <= i < hits@.len() && (#[trigger] hits@[i]).0 == k,
    {
        let mut hits: Vec<(ByteRange, &V)> = Vec::new();
        let mut i: usize = 0;
        assert(self@.take(0) =~= Seq::<VectorMapItem<V>>::empty());
        while i < self.root.len() && self.root[i].key.0 < query.1
            invariant
                self.wf(),
                0 <= i <= self.root.len(),
                hits@.len() == self@.take(i as int).filter(meets(query)).len(),
                forall|j: int|
                    0 <= j < hits@.len() ==> (#[trigger] hits@[j]).0 == self@.take(i as int).filter(
                        meets(query),
                    )[j].key && *hits@[j].1 == self@.take(i as int).filter(meets(query))[j].value,
            decreases self.root.len() - i,
        {
            proof {
                reveal(Seq::filter);
                assert(self@.take(i + 1).drop_last() =~= self@.take(i as int));
            }
            if ranges_overlap(self.root[i].key, query) {
                hits.push((self.root[i].key, &self.root[i].value));
            }
            i += 1;
        }
        proof {
            lemma_filter_tail(self@, query, i as int);
            lemma_filter_sorted(self@, query);
            let f = self@.filter(meets(query));
            assert forall|k: ByteRange|
                #[trigger] self.as_map().contains_key(k) && overlaps(k, query) implies exists|i: int|
                0 <= i < hits@.len() && (#[trigger] hits@[i]).0 == k by {
                assert(has_key(f, k));
                let i = index_of(f, k);
                assert(hits@[i].0 == k);
            }
        }
        hits
    }
}

} // verus!
