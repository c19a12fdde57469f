use vstd::prelude::*;

verus! {

/// Pi in microradians: angles are carried as integer microradians.
pub const PI_URAD: i64 = 3_141_593;

/// The integer square root as a mathematical function: the greatest
/// `r` with `r * r <= n`.
pub open spec fn spec_sqrt(n: nat) -> nat
    decreases n,
{
    if n == 0 {
        0
    } else {
        let s = spec_sqrt((n - 1) as nat);
        if (s + 1) * (s + 1) <= n {
            (s + 1) as nat
        } else {
            s
        }
    }
}

/// `spec_sqrt` is characterized by its squaring bounds.
pub proof fn lemma_spec_sqrt_bounds(n: nat)
    ensures
        spec_sqrt(n) * spec_sqrt(n) <= n,
        n < (spec_sqrt(n) + 1) * (spec_sqrt(n) + 1),
    decreases n,
{
    let r = spec_sqrt(n);
    if n > 0 {
        lemma_spec_sqrt_bounds((n - 1) as nat);
        let s = spec_sqrt((n - 1) as nat);
        assert(s * s <= n - 1 && n - 1 < (s + 1) * (s + 1));
        if (s + 1) * (s + 1) <= n {
            assert(r == s + 1);
            assert(r * r <= n && n < (r + 1) * (r + 1)) by (nonlinear_arith)
                requires
                    r == s + 1,
                    (s + 1) * (s + 1) <= n,
                    n <= (s + 1) * (s + 1),
            ;
        } else {
            assert(r == s);
            assert(r * r <= n && n < (r + 1) * (r + 1)) by (nonlinear_arith)
                requires
                    r == s,
                    s * s <= n,
                    n < (s + 1) * (s + 1),
            ;
        }
    } else {
        assert(n == 0);
        assert(r == 0);
        assert(r * r <= n && n < (r + 1) * (r + 1)) by (nonlinear_arith)
            requires
                r == 0,
                n == 0,
        ;
    }
}

/// Any value within the squaring bounds is the square root.
pub proof fn lemma_sqrt_unique(n: nat, r: nat)
    requires
        r * r <= n,
        n < (r + 1) * (r + 1),
    ensures
        r == spec_sqrt(n),
{
    lemma_spec_sqrt_bounds(n);
    let s = spec_sqrt(n);
    assert(r == s) by (nonlinear_arith)
        requires
            r * r <= n,
            n < (r + 1) * (r + 1),
            s * s <= n,
            n < (s + 1) * (s + 1),
    ;
}

/// Integer square root: the greatest `r` with `r * r <= n`.
pub fn isqrt(n: u64) -> (r: u64)
    ensures
        r * r <= n,
        n < (r + 1) * (r + 1),
        r == spec_sqrt(n as nat),
{
    let mut lo: u64 = 0;
    let mut hi: u64 = 4_294_967_296;
    proof {
        assert(4_294_967_296int * 4_294_967_296 > u64::MAX);
    }
    while lo + 1 < hi
        invariant
            lo < hi,
            hi <= 4_294_967_296,
            lo * lo <= n,
            n < hi * hi,
        decreases hi - lo,
    {
        let mid: u64 = lo + (hi - lo) / 2;
        proof {
            assert(mid * mid <= u64::MAX) by (nonlinear_arith)
                requires
                    mid <= 4_294_967_295u64,
            ;
        }
        if mid * mid <= n {
            lo = mid;
        } else {
            hi = mid;
        }
    }
    proof {
        lemma_sqrt_unique(n as nat, lo as nat);
    }
    lo
}

/// Squared Euclidean length of an integer offset, exact.
pub fn dist_squared(dx: i64, dy: i64) -> (d2: u64)
    requires
        -2_000_000_000 <= dx <= 2_000_000_000,
        -2_000_000_000 <= dy <= 2_000_000_000,
    ensures
        d2 == dx * dx + dy * dy,
{
    proof {
        assert(0 <= dx * dx <= 4_000_000_000_000_000_000 && 0 <= dy * dy
            <= 4_000_000_000_000_000_000) by (nonlinear_arith)
            requires
                -2_000_000_000 <= dx <= 2_000_000_000,
                -2_000_000_000 <= dy <= 2_000_000_000,
        ;
    }
    let xx: i64 = dx * dx;
    let yy: i64 = dy * dy;
    (xx as u64) + (yy as u64)
}

/// `isqrt(n) < r` exactly when `n < r * r`: comparing a Euclidean
/// distance against a radius can be done on the squares.
pub proof fn lemma_isqrt_lt(n: u64, s: u64, r: u64)
    requires
        s * s <= n,
        n < (s + 1) * (s + 1),
    ensures
        (s < r) <==> (n < r * r),
{
    if s < r {
        assert((s + 1) * (s + 1) <= r * r) by (nonlinear_arith)
            requires
                s < r,
        ;
    } else {
        assert(r * r <= s * s) by (nonlinear_arith)
            requires
                r <= s,
        ;
    }
}

} // verus!
