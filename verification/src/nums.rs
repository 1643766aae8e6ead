use vstd::prelude::*;

verus! {

/// Largest argument `isqrt` accepts: its square root then stays below
/// `2^60`, so the binary search can square its probes without overflow.
pub const MAX_ISQRT_ARG: u128 = 0xFF_FFFF_FFFF_FFFF_FFFF_FFFF_FFFF_FFFF;

/// The integer square root: the largest `r` with `r * r <= n`.
pub open spec fn isqrt_spec(n: nat) -> nat
    decreases n,
{
    if n == 0 {
        0
    } else {
        let r = isqrt_spec((n - 1) as nat);
        if (r + 1) * (r + 1) <= n {
            r + 1
        } else {
            r
        }
    }
}

pub proof fn lemma_isqrt_bounds(n: nat)
    ensures
        isqrt_spec(n) * isqrt_spec(n) <= n,
        n < (isqrt_spec(n) + 1) * (isqrt_spec(n) + 1),
    decreases n,
{
    if n == 0 {
        assert(isqrt_spec(0) == 0);
        assert(n < (isqrt_spec(n) + 1) * (isqrt_spec(n) + 1)) by (nonlinear_arith)
            requires
                n == 0,
                isqrt_spec(n) == 0,
        ;
    } else {
        let m = (n - 1) as nat;
        lemma_isqrt_bounds(m);
        let r = isqrt_spec(m);
        assert(r * r <= m);
        assert(m < (r + 1) * (r + 1));
        if (r + 1) * (r + 1) <= n {
            assert(isqrt_spec(n) == r + 1);
            assert(n <= (r + 1) * (r + 1));
            assert(n < (r + 1 + 1) * (r + 1 + 1)) by (nonlinear_arith)
                requires
                    n <= (r + 1) * (r + 1),
            ;
        } else {
            assert(isqrt_spec(n) == r);
            assert(r * r <= n);
            assert(n < (r + 1) * (r + 1));
        }
        assert(isqrt_spec(n) * isqrt_spec(n) <= n);
        assert(n < (isqrt_spec(n) + 1) * (isqrt_spec(n) + 1));
    }
}

/// Any value bracketed the same way as the integer square root is it.
pub proof fn lemma_isqrt_unique(n: nat, r: nat)
    requires
        r * r <= n,
        n < (r + 1) * (r + 1),
    ensures
        r == isqrt_spec(n),
{
    lemma_isqrt_bounds(n);
    let s = isqrt_spec(n);
    assert(r == s) by (nonlinear_arith)
        requires
            r * r <= n,
            n < (r + 1) * (r + 1),
            s * s <= n,
            n < (s + 1) * (s + 1),
    ;
}

pub open spec fn abs_i(x: int) -> int {
    if x < 0 {
        -x
    } else {
        x
    }
}

pub open spec fn sgn(x: int) -> int {
    if x < 0 {
        -1
    } else if x == 0 {
        0
    } else {
        1
    }
}

/// The integer square root of a perfect square.
pub proof fn lemma_isqrt_square(a: nat)
    ensures
        isqrt_spec(a * a) == a,
{
    assert(a * a < (a + 1) * (a + 1)) by (nonlinear_arith);
    lemma_isqrt_unique(a * a, a);
}

/// A strict square bound turns into a strict root bound.
pub proof fn lemma_isqrt_lt(n: nat, x: nat)
    requires
        n < x * x,
    ensures
        isqrt_spec(n) < x,
{
    lemma_isqrt_bounds(n);
    let r = isqrt_spec(n);
    assert(r < x) by (nonlinear_arith)
        requires
            r * r <= n,
            n < x * x,
    ;
}

/// Bound on a product from bounds on its factors.
pub proof fn lemma_mul_bounds(a: int, ma: int, b: int, mb: int)
    requires
        -ma <= a <= ma,
        -mb <= b <= mb,
        0 <= ma,
        0 <= mb,
    ensures
        -(ma * mb) <= a * b <= ma * mb,
{
    assert(-(ma * mb) <= a * b <= ma * mb) by (nonlinear_arith)
        requires
            -ma <= a <= ma,
            -mb <= b <= mb,
            0 <= ma,
            0 <= mb,
    ;
}

/// Binary search for the integer square root.
pub fn isqrt(n: u128) -> (r: u128)
    requires
        n <= MAX_ISQRT_ARG,
    ensures
        r == isqrt_spec(n as nat),
        r * r <= n,
{
    proof {
        lemma_isqrt_bounds(n as nat);
    }
    if n == 0 {
        return 0;
    }
    let mut lo: u128 = 0;
    let mut hi: u128 = 0x1000_0000_0000_0000;
    proof {
        assert(hi * hi > n);
    }
    while lo + 1 < hi
        invariant
            lo < hi,
            hi <= 0x1000_0000_0000_0000,
            lo * lo <= n,
            hi * hi > n,
            n <= MAX_ISQRT_ARG,
        decreases hi - lo,
    {
        let mid = lo + (hi - lo) / 2;
        proof {
            assert(mid < hi);
            assert(mid * mid <= 0x1000_0000_0000_0000_0000_0000_0000_0000) by (nonlinear_arith)
                requires
                    mid <= 0x1000_0000_0000_0000,
            ;
        }
        if mid * mid <= n {
            lo = mid;
        } else {
            hi = mid;
        }
    }
    proof {
        assert(hi == lo + 1);
        lemma_isqrt_unique(n as nat, lo as nat);
    }
    lo
}

} // verus!
