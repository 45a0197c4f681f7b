//! Half-open byte intervals and the order in which the interval map keeps them.

use vstd::prelude::*;

verus! {

/// A start offset (inclusive) and an end offset (exclusive).
pub type ByteRange = (u64, u64);

/// A range is valid when it holds at least one byte.
pub open spec fn valid(r: ByteRange) -> bool {
    r.0 < r.1
}

/// The byte at offset `p` lies inside `r`.
pub open spec fn covers(r: ByteRange, p: u64) -> bool {
    r.0 <= p < r.1
}

/// Two intervals intersect.
pub open spec fn overlaps(a: ByteRange, b: ByteRange) -> bool {
    a.0 < b.1 && a.1 > b.0
}

/// Strict order on ranges: by start, ties broken by end.
pub open spec fn key_lt(a: ByteRange, b: ByteRange) -> bool {
    a.0 < b.0 || (a.0 == b.0 && a.1 < b.1)
}

/// Two valid ranges intersect exactly when some byte lies in both.
pub proof fn lemma_overlap_shares_byte(a: ByteRange, b: ByteRange)
    requires
        valid(a),
        valid(b),
    ensures
        overlaps(a, b) <==> exists|p: u64| covers(a, p) && covers(b, p),
{
    if overlaps(a, b) {
        let p: u64 = if a.0 < b.0 { b.0 } else { a.0 };
        assert(covers(a, p) && covers(b, p));
    }
}

/// Whether `r` holds at least one byte.
pub fn is_valid(r: ByteRange) -> (res: bool)
    ensures
        res == valid(r),
{
    r.0 < r.1
}

/// Whether `a` and `b` intersect.
pub fn ranges_overlap(a: ByteRange, b: ByteRange) -> (res: bool)
    ensures
        res == overlaps(a, b),
{
    a.0 < b.1 && a.1 > b.0
}

/// Whether `a` sorts strictly before `b`.
pub fn key_less(a: ByteRange, b: ByteRange) -> (res: bool)
    ensures
        res == key_lt(a, b),
{
    a.0 < b.0 || (a.0 == b.0 && a.1 < b.1)
}

} // verus!
