//! Cyclic ordering of 16-bit sequence numbers.
//!
//! A 16-bit counter wraps at 65536, so "newer" and "older" cannot be decided
//! by plain magnitude.  Among two sequence numbers, the one that is at most a
//! half cycle (32768 steps) ahead of the other is the greater.  When the two
//! are exactly a half cycle apart the relation is asymmetric by construction:
//! the numerically larger one wins.  That tie-break is deliberate and is
//! pinned down by [`lemma_comparison_total`].

use vstd::prelude::*;

verus! {

/// Identifies an ordered protocol unit; the space is cyclic modulo 65536.
pub type SequenceNumber = u16;

/// The number of steps from `from` forward (with wraparound) to `to`.
pub open spec fn wrap_dist(from: u16, to: u16) -> int {
    if to >= from {
        to - from
    } else {
        to + 65536 - from
    }
}

/// The sequence number `n` steps ahead of `from`, for `0 <= n < 65536`.
pub open spec fn wrap_fwd(from: u16, n: int) -> u16 {
    if from + n < 65536 {
        (from + n) as u16
    } else {
        (from + n - 65536) as u16
    }
}

/// `a + b` with wraparound at 65536.
pub open spec fn wrap_add(a: u16, b: u16) -> u16 {
    if a + b < 65536 {
        (a + b) as u16
    } else {
        (a + b - 65536) as u16
    }
}

/// `a - b` with wraparound at 65536.
pub open spec fn wrap_sub(a: u16, b: u16) -> u16 {
    if a >= b {
        (a - b) as u16
    } else {
        (a + 65536 - b) as u16
    }
}

/// `a` is cyclically ahead of `b` within a half cycle of 32768.
pub open spec fn seq_gt(a: u16, b: u16) -> bool {
    (a > b && a - b <= 32768) || (a < b && b - a > 32768)
}

/// `a` is cyclically behind `b`: the mirror of [`seq_gt`].
pub open spec fn seq_lt(a: u16, b: u16) -> bool {
    seq_gt(b, a)
}

/// Decides whether `s1` is cyclically ahead of `s2` within a half cycle.
pub fn sequence_greater_than(s1: u16, s2: u16) -> (r: bool)
    ensures
        r == seq_gt(s1, s2),
{
    ((s1 > s2) && (s1 - s2 <= 32768)) || ((s1 < s2) && (s2 - s1 > 32768))
}

/// Decides whether `s1` is cyclically behind `s2` within a half cycle.
pub fn sequence_less_than(s1: u16, s2: u16) -> (r: bool)
    ensures
        r == seq_lt(s1, s2),
{
    sequence_greater_than(s2, s1)
}

/// Law: for every pair of sequence numbers, `seq_gt` and its mirror are
/// mutually exclusive, and together with equality they decide every pair, so
/// that the relation agrees with minimal forward distance wherever that
/// distance is below a half cycle.  At a distance of exactly 32768 the
/// relation is asymmetric: the numerically larger number is the greater.
pub proof fn lemma_comparison_total(a: u16, b: u16)
    ensures
        !(seq_gt(a, b) && seq_gt(b, a)),
        a == b ==> !seq_gt(a, b),
        a != b ==> (seq_gt(a, b) || seq_gt(b, a)),
        seq_gt(a, b) <==> (a != b && (wrap_dist(b, a) < 32768 || (wrap_dist(b, a) == 32768
            && a > b))),
        seq_lt(a, b) == seq_gt(b, a),
{
}

} // verus!
