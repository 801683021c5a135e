//! Sequence-number arithmetic modulo 2^32.

use vstd::prelude::*;

verus! {

/// How far `a` lies ahead of `b` in sequence space, in `0 .. 2^32`.
pub open spec fn seq_diff(a: u32, b: u32) -> nat {
    ((a as int - b as int) % 0x1_0000_0000) as nat
}

/// `lt(a, b)`: the 32-bit difference `a - b`, read as a signed integer, is negative.
pub open spec fn seq_lt_spec(a: u32, b: u32) -> bool {
    seq_diff(a, b) >= 0x8000_0000
}

pub fn wrapping_diff(a: u32, b: u32) -> (r: u32)
    ensures
        r == seq_diff(a, b),
{
    a.wrapping_sub(b)
}

/// `a` comes before `b` in sequence space.
pub fn seq_lt(a: u32, b: u32) -> (r: bool)
    ensures
        r == seq_lt_spec(a, b),
{
    wrapping_diff(a, b) >= 0x8000_0000
}

/// `a` comes before `b` or equals it.
pub fn seq_leq(a: u32, b: u32) -> (r: bool)
    ensures
        r == (a == b || seq_lt_spec(a, b)),
{
    a == b || seq_lt(a, b)
}

/// `b` lies in the cyclic interval `(a, c]`: `lt(a, b) && leq(b, c)`.
pub fn seq_between(a: u32, b: u32, c: u32) -> (r: bool)
    ensures
        r == (seq_lt_spec(a, b) && (b == c || seq_lt_spec(b, c))),
{
    seq_lt(a, b) && seq_leq(b, c)
}

/// Adding `n` to `b` modulo 2^32 lands `n` ahead of `b`.
pub proof fn lemma_diff_add(b: u32, n: nat)
    requires
        n < 0x1_0000_0000,
    ensures
        seq_diff(((b as int + n) % 0x1_0000_0000) as u32, b) == n,
{
    let a = ((b as int + n) % 0x1_0000_0000) as u32;
    if b as int + n < 0x1_0000_0000 {
        assert(a == b + n);
    } else {
        assert(a == b + n - 0x1_0000_0000);
    }
}

} // verus!
