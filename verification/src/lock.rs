//! The record kept for one locked interval: who holds it, and in which mode.

use vstd::prelude::*;

verus! {

/// Names the entity that asks for a lock. Only equality is used.
pub type FileDescriptor = i32;

/// The kind of lock held on a range.
#[derive(Debug)]
pub enum Lock {
    /// This range is share locked by one or more holders.
    Shared(Vec<FileDescriptor>),
    /// This range is exclusively locked by just this holder.
    Exclusive(FileDescriptor),
}

/// What a `Lock` stands for: the holders of a shared lock as a set.
pub enum LockState {
    Shared(Set<FileDescriptor>),
    Exclusive(FileDescriptor),
}

/// A shared record names at least one holder.
pub open spec fn state_ok(st: LockState) -> bool {
    match st {
        LockState::Shared(s) => exists|x: FileDescriptor| #[trigger] s.contains(x),
        LockState::Exclusive(_) => true,
    }
}

/// `h` is among the holders.
pub open spec fn holds(st: LockState, h: FileDescriptor) -> bool {
    match st {
        LockState::Shared(s) => s.contains(h),
        LockState::Exclusive(o) => o == h,
    }
}

/// Someone other than `h` is among the holders.
pub open spec fn held_by_other(st: LockState, h: FileDescriptor) -> bool {
    match st {
        LockState::Shared(s) => exists|x: FileDescriptor| #[trigger] s.contains(x) && x != h,
        LockState::Exclusive(o) => o != h,
    }
}

/// Whether a record stands in the way of a request by `h`.
/// An exclusive request yields to any other holder; a shared request only to
/// another holder's exclusive lock.
pub open spec fn conflicts(st: LockState, h: FileDescriptor, exclusive: bool) -> bool {
    if exclusive {
        held_by_other(st, h)
    } else {
        st is Exclusive && st->Exclusive_0 != h
    }
}

/// The state of a byte once `h` gives up its part in it; `None` is free.
pub open spec fn without(st: Option<LockState>, h: FileDescriptor) -> Option<LockState> {
    match st {
        None => None,
        Some(LockState::Exclusive(o)) => if o == h { None } else { st },
        Some(LockState::Shared(s)) => if held_by_other(LockState::Shared(s), h) {
            Some(LockState::Shared(s.remove(h)))
        } else {
            None
        },
    }
}

/// The state of a byte once `h` takes a lock on it, where nobody else's hold
/// conflicts: `base` is the byte's state without `h`.
pub open spec fn with_holder(base: Option<LockState>, h: FileDescriptor, exclusive: bool)
    -> LockState {
    if exclusive {
        LockState::Exclusive(h)
    } else {
        match base {
            Some(LockState::Shared(s)) => LockState::Shared(s.insert(h)),
            _ => LockState::Shared(set![h]),
        }
    }
}

/// The view of an optional record.
pub open spec fn view_opt(l: Option<Lock>) -> Option<LockState> {
    match l {
        Some(x) => Some(x@),
        None => None,
    }
}

/// Giving up a part that one does not have changes nothing.
pub proof fn lemma_without_absent(st: LockState, h: FileDescriptor)
    requires
        state_ok(st),
        !holds(st, h),
    ensures
        without(Some(st), h) == Some(st),
{
    match st {
        LockState::Shared(s) => {
            let x = choose|x: FileDescriptor| s.contains(x);
            assert(s.contains(x) && x != h);
            assert(s.remove(h) =~= s);
        },
        LockState::Exclusive(_) => {},
    }
}

/// After giving up its part, `h` is no longer among the holders, and what is
/// left is a proper record.
pub proof fn lemma_without_ok(st: LockState, h: FileDescriptor)
    ensures
        match without(Some(st), h) {
            Some(rest) => state_ok(rest) && !holds(rest, h) && (held_by_other(st, h)),
            None => !held_by_other(st, h),
        },
{
    match st {
        LockState::Shared(s) => {
            if held_by_other(st, h) {
                let x = choose|x: FileDescriptor| s.contains(x) && x != h;
                let rest = without(Some(st), h)->Some_0;
                assert(rest->Shared_0 == s.remove(h));
                assert(s.remove(h).contains(x));
            }
        },
        LockState::Exclusive(_) => {},
    }
}

/// Whether `h` occurs in `v`.
fn vec_contains(v: &Vec<FileDescriptor>, h: FileDescriptor) -> (res: bool)
    ensures
        res == v@.contains(h),
{
    let mut i: usize = 0;
    while i < v.len()
        invariant
            0 <= i <= v.len(),
            forall|j: int| 0 <= j < i ==> v@[j] != h,
        decreases v.len() - i,
    {
        if v[i] == h {
            return true;
        }
        i += 1;
    }
    false
}

/// Whether every member of `a` occurs in `b`.
fn vec_subset(a: &Vec<FileDescriptor>, b: &Vec<FileDescriptor>) -> (res: bool)
    ensures
        res == a@.to_set().subset_of(b@.to_set()),
{
    let mut i: usize = 0;
    while i < a.len()
        invariant
            0 <= i <= a.len(),
            forall|j: int| 0 <= j < i ==> b@.contains(#[trigger] a@[j]),
        decreases a.len() - i,
    {
        if !vec_contains(b, a[i]) {
            assert(a@.to_set().contains(a@[i as int]));
            return false;
        }
        i += 1;
    }
    assert forall|x: FileDescriptor| a@.to_set().contains(x) implies b@.to_set().contains(x) by {
        let j = choose|j: int| 0 <= j < a@.len() && a@[j] == x;
        assert(b@.contains(a@[j]));
    }
    true
}

impl View for Lock {
    type V = LockState;

    open spec fn view(&self) -> LockState {
        match self {
            Lock::Shared(v) => LockState::Shared(v@.to_set()),
            Lock::Exclusive(h) => LockState::Exclusive(*h),
        }
    }
}

impl Lock {
    /// A shared record names at least one holder.
    pub open spec fn wf(&self) -> bool {
        match self {
            Lock::Shared(v) => v@.len() > 0,
            Lock::Exclusive(_) => true,
        }
    }

    /// A well-formed record stands for a proper state.
    pub proof fn lemma_wf_ok(&self)
        requires
            self.wf(),
        ensures
            state_ok(self@),
    {
        match self {
            Lock::Shared(v) => {
                assert(v@.to_set().contains(v@[0]));
                assert(self@->Shared_0 == v@.to_set());
            },
            Lock::Exclusive(_) => {},
        }
    }

    /// The record of a lock that `h` alone holds.
    pub fn single(h: FileDescriptor, exclusive: bool) -> (l: Lock)
        ensures
            l.wf(),
            l@ == with_holder(None, h, exclusive),
    {
        if exclusive {
            Lock::Exclusive(h)
        } else {
            let mut v: Vec<FileDescriptor> = Vec::new();
            v.push(h);
            assert(v@.to_set() =~= set![h]) by {
                assert(v@[0] == h);
            }
            Lock::Shared(v)
        }
    }

    /// Whether `h` is among the holders.
    pub fn is_held_by(&self, h: FileDescriptor) -> (res: bool)
        ensures
            res == holds(self@, h),
    {
        match self {
            Lock::Shared(v) => vec_contains(v, h),
            Lock::Exclusive(o) => *o == h,
        }
    }

    /// Whether someone other than `h` is among the holders.
    pub fn is_held_by_other(&self, h: FileDescriptor) -> (res: bool)
        ensures
            res == held_by_other(self@, h),
    {
        match self {
            Lock::Shared(v) => {
                let mut i: usize = 0;
                while i < v.len()
                    invariant
                        0 <= i <= v.len(),
                        self@ == LockState::Shared(v@.to_set()),
                        forall|j: int| 0 <= j < i ==> v@[j] == h,
                    decreases v.len() - i,
                {
                    if v[i] != h {
                        assert(self@->Shared_0 == v@.to_set());
                        assert(v@.to_set().contains(v@[i as int]));
                        return true;
                    }
                    i += 1;
                }
                assert(self@->Shared_0 == v@.to_set());
                assert forall|x: FileDescriptor| v@.to_set().contains(x) implies x == h by {
                    let j = choose|j: int| 0 <= j < v@.len() && v@[j] == x;
                    assert(v@[j] == h);
                }
                false
            },
            Lock::Exclusive(o) => *o != h,
        }
    }

    /// Whether this record stands in the way of a request by `h`.
    pub fn conflicts_with(&self, h: FileDescriptor, exclusive: bool) -> (res: bool)
        ensures
            res == conflicts(self@, h, exclusive),
    {
        if exclusive {
            self.is_held_by_other(h)
        } else {
            match self {
                Lock::Shared(_) => false,
                Lock::Exclusive(o) => *o != h,
            }
        }
    }

    /// Whether two records are identical: the same mode and the same holders.
    pub fn same(&self, other: &Lock) -> (res: bool)
        ensures
            res == (self@ == other@),
    {
        match self {
            Lock::Exclusive(a) => match other {
                Lock::Exclusive(b) => *a == *b,
                Lock::Shared(_) => false,
            },
            Lock::Shared(a) => match other {
                Lock::Exclusive(_) => false,
                Lock::Shared(b) => {
                    let res = vec_subset(a, b) && vec_subset(b, a);
                    proof {
                        if res {
                            assert(a@.to_set() =~= b@.to_set());
                        }
                    }
                    res
                },
            },
        }
    }

    /// A copy of this record.
    pub fn duplicate(&self) -> (l: Lock)
        ensures
            l@ == self@,
            l.wf() == self.wf(),
    {
        match self {
            Lock::Exclusive(h) => Lock::Exclusive(*h),
            Lock::Shared(v) => {
                let mut w: Vec<FileDescriptor> = Vec::new();
                let mut i: usize = 0;
                while i < v.len()
                    invariant
                        0 <= i <= v.len(),
                        w@ == v@.take(i as int),
                    decreases v.len() - i,
                {
                    w.push(v[i]);
                    assert(w@ =~= v@.take(i + 1));
                    i += 1;
                }
                assert(v@.take(v@.len() as int) =~= v@);
                Lock::Shared(w)
            },
        }
    }

    /// The record once `h` gives up its part; `None` where nobody is left.
    pub fn released_by(&self, h: FileDescriptor) -> (res: Option<Lock>)
        ensures
            view_opt(res) == without(Some(self@), h),
            res is Some ==> res->Some_0.wf(),
    {
        match self {
            Lock::Exclusive(o) => {
                if *o == h {
                    None
                } else {
                    Some(Lock::Exclusive(*o))
                }
            },
            Lock::Shared(v) => {
                let mut w: Vec<FileDescriptor> = Vec::new();
                let mut i: usize = 0;
                while i < v.len()
                    invariant
                        0 <= i <= v.len(),
                        forall|j: int| 0 <= j < w@.len() ==> (#[trigger] w@[j]) != h && v@.contains(w@[j]),
                        forall|k: int| 0 <= k < i && (#[trigger] v@[k]) != h ==> w@.contains(v@[k]),
                    decreases v.len() - i,
                {
                    let ghost w0 = w@;
                    if v[i] != h {
                        w.push(v[i]);
                        assert(w@[w0.len() as int] == v@[i as int]);
                    }
                    assert forall|k: int| 0 <= k < i + 1 && (#[trigger] v@[k]) != h implies w@.contains(v@[k]) by {
                        if k < i {
                            let j = choose|j: int| 0 <= j < w0.len() && w0[j] == v@[k];
                            assert(w@[j] == v@[k]);
                        }
                    }
                    i += 1;
                }
                assert(self@->Shared_0 == v@.to_set());
                assert forall|x: FileDescriptor| w@.to_set().contains(x) <==> v@.to_set().remove(h).contains(x) by {
                    if w@.contains(x) {
                        let j = choose|j: int| 0 <= j < w@.len() && w@[j] == x;
                        assert(w@[j] != h && v@.contains(w@[j]));
                    }
                    if v@.contains(x) && x != h {
                        let k = choose|k: int| 0 <= k < v@.len() && v@[k] == x;
                        assert(w@.contains(v@[k]));
                    }
                }
                assert(w@.to_set() =~= v@.to_set().remove(h));
                if w.len() == 0 {
                    proof {
                        if held_by_other(self@, h) {
                            let x = choose|x: FileDescriptor| v@.to_set().contains(x) && x != h;
                            assert(w@.to_set().contains(x));
                        }
                    }
                    None
                } else {
                    proof {
                        assert(w@.to_set().contains(w@[0]));
                        assert(v@.to_set().contains(w@[0]) && w@[0] != h);
                    }
                    Some(Lock::Shared(w))
                }
            },
        }
    }

    /// The record once `h` takes a lock beside the holders of `base`, none of
    /// which is `h`.
    pub fn joined_by(base: Option<&Lock>, h: FileDescriptor, exclusive: bool) -> (l: Lock)
        ensures
            l.wf(),
            l@ == with_holder(
                match base {
                    Some(b) => Some(b@),
                    None => None,
                },
                h,
                exclusive,
            ),
    {
        if exclusive {
            return Lock::Exclusive(h);
        }
        match base {
            Some(Lock::Shared(v)) => {
                let mut w: Vec<FileDescriptor> = Vec::new();
                let mut i: usize = 0;
                while i < v.len()
                    invariant
                        0 <= i <= v.len(),
                        w@ == v@.take(i as int),
                    decreases v.len() - i,
                {
                    w.push(v[i]);
                    assert(w@ =~= v@.take(i + 1));
                    i += 1;
                }
                assert(v@.take(v@.len() as int) =~= v@);
                if !vec_contains(&w, h) {
                    w.push(h);
                    assert(w@ =~= v@.push(h));
                    assert(w@.to_set() =~= v@.to_set().insert(h)) by {
                        assert forall|x: FileDescriptor| w@.to_set().contains(x) <==> v@.to_set().insert(h).contains(x) by {
                            if w@.contains(x) {
                                let j = choose|j: int| 0 <= j < w@.len() && w@[j] == x;
                                if j < v@.len() {
                                    assert(v@[j] == x);
                                }
                            }
                            if v@.contains(x) {
                                let j = choose|j: int| 0 <= j < v@.len() && v@[j] == x;
                                assert(w@[j] == x);
                            }
                            if x == h {
                                assert(w@[w@.len() - 1] == h);
                            }
                        }
                    }
                } else {
                    assert(w@.to_set() =~= v@.to_set().insert(h));
                }
                Lock::Shared(w)
            },
            _ => Lock::single(h, false),
        }
    }
}

} // verus!

