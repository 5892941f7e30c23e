//! Statistics counters, which wrap around at 2^64 as unsigned additions do.

use vstd::prelude::*;

verus! {

/// `a` advanced by `n` increments that each wrap around at 2^64.
pub open spec fn wrap_add(a: u64, n: nat) -> u64 {
    ((a + n) % 0x1_0000_0000_0000_0000int) as u64
}

pub proof fn lemma_wrap_add_zero(a: u64)
    ensures
        wrap_add(a, 0) == a,
{
    vstd::arithmetic::div_mod::lemma_small_mod(a as nat, 0x1_0000_0000_0000_0000nat);
}

pub proof fn lemma_wrap_add_step(a: u64, n: nat)
    ensures
        wrap_add(a, n).wrapping_add(1) == wrap_add(a, n + 1),
{
    let m: int = 0x1_0000_0000_0000_0000int;
    let w = (a + n) % m;
    vstd::arithmetic::div_mod::lemma_add_mod_noop(a + n, 1, m);
    vstd::arithmetic::div_mod::lemma_small_mod(1, m as nat);
    assert((w + 1) % m == (a + n + 1) % m);
    if w + 1 < m {
        vstd::arithmetic::div_mod::lemma_small_mod((w + 1) as nat, m as nat);
    } else {
        assert(w + 1 == m);
        vstd::arithmetic::div_mod::lemma_mod_self_0(m);
    }
}


/// One wrapping addition of `b` is `b` wrapping increments.
pub proof fn lemma_wrap_add_once(a: u64, b: u64)
    ensures
        a.wrapping_add(b) == wrap_add(a, b as nat),
{
    let m: int = 0x1_0000_0000_0000_0000int;
    if a + b < m {
        vstd::arithmetic::div_mod::lemma_small_mod((a + b) as nat, m as nat);
    } else {
        vstd::arithmetic::div_mod::lemma_mod_add_multiples_vanish(a + b - m, m);
        vstd::arithmetic::div_mod::lemma_small_mod((a + b - m) as nat, m as nat);
    }
}

/// `a` advanced by `n` additions that each wrap around at `usize::MAX + 1`.
pub open spec fn wrap_usize(a: usize, n: nat) -> usize {
    ((a + n) % (usize::MAX + 1)) as usize
}

pub proof fn lemma_wrap_usize_zero(a: usize)
    ensures
        wrap_usize(a, 0) == a,
{
    vstd::arithmetic::div_mod::lemma_small_mod(a as nat, (usize::MAX + 1) as nat);
}

pub proof fn lemma_wrap_usize_step(a: usize, n: nat, c: usize)
    ensures
        wrap_usize(a, n).wrapping_add(c) == wrap_usize(a, (n + c) as nat),
{
    let m: int = usize::MAX + 1;
    let w = (a + n) % m;
    vstd::arithmetic::div_mod::lemma_add_mod_noop(a + n, c as int, m);
    vstd::arithmetic::div_mod::lemma_small_mod(c as nat, m as nat);
    assert((w + c) % m == (a + n + c) % m);
    if w + c < m {
        vstd::arithmetic::div_mod::lemma_small_mod((w + c) as nat, m as nat);
    } else {
        vstd::arithmetic::div_mod::lemma_mod_add_multiples_vanish((w + c - m) as int, m);
        vstd::arithmetic::div_mod::lemma_small_mod((w + c - m) as nat, m as nat);
    }
}

} // verus!
