use vstd::prelude::*;

verus! {

/// `r` is the integer square root of `n`: the largest natural number whose square is at most `n`.
pub open spec fn is_floor_sqrt(n: int, r: int) -> bool {
    0 <= r && r * r <= n && n < (r + 1) * (r + 1)
}

/// The integer square root of `n` (rounded down).
pub open spec fn floor_sqrt(n: nat) -> nat {
    choose|r: nat| is_floor_sqrt(n as int, r as int)
}

/// Two integer square roots of the same number are equal.
pub proof fn lemma_floor_sqrt_unique(n: int, r1: int, r2: int)
    requires
        is_floor_sqrt(n, r1),
        is_floor_sqrt(n, r2),
    ensures
        r1 == r2,
{
    if r1 < r2 {
        assert((r1 + 1) * (r1 + 1) <= r2 * r2) by (nonlinear_arith)
            requires r1 + 1 <= r2, 0 <= r1;
    } else if r2 < r1 {
        assert((r2 + 1) * (r2 + 1) <= r1 * r1) by (nonlinear_arith)
            requires r2 + 1 <= r1, 0 <= r2;
    }
}

/// Computes the integer square root of `n` by bisection.
pub fn isqrt(n: u128) -> (r: u64)
    requires
        n <= 0x3_0000_0000_0000_0000u128,
    ensures
        is_floor_sqrt(n as int, r as int),
        r as nat == floor_sqrt(n as nat),
{
    let mut lo: u128 = 0;
    let mut hi: u128 = 0x2_0000_0000u128;
    assert(hi * hi > n) by (nonlinear_arith)
        requires hi == 0x2_0000_0000u128, n <= 0x3_0000_0000_0000_0000u128;
    while lo + 1 < hi
        invariant
            lo < hi <= 0x2_0000_0000u128,
            lo * lo <= n,
            n < hi * hi,
        decreases hi - lo,
    {
        let mid: u128 = lo + (hi - lo) / 2;
        assert(mid * mid <= 0x4_0000_0000_0000_0000u128) by (nonlinear_arith)
            requires mid <= 0x2_0000_0000u128;
        if mid * mid <= n {
            lo = mid;
        } else {
            hi = mid;
        }
    }
    assert(is_floor_sqrt(n as int, lo as int));
    proof {
        let r = floor_sqrt(n as nat);
        assert(is_floor_sqrt(n as int, r as int));
        lemma_floor_sqrt_unique(n as int, lo as int, r as int);
    }
    lo as u64
}

} // verus!
