//! Trial division.

use vstd::prelude::*;

verus! {

/// `d` divides `n`.
pub open spec fn divides(d: int, n: int) -> bool {
    n % d == 0
}

/// Nothing from two up to the square root of `n` divides `n`.
pub open spec fn no_small_divisor(n: int) -> bool {
    forall|d: int| 2 <= d && d * d <= n ==> !#[trigger] divides(d, n)
}

/// Nothing but one and `n` itself divides `n`.
pub open spec fn no_proper_divisor(n: int) -> bool {
    forall|d: int| 2 <= d < n ==> !#[trigger] divides(d, n)
}

/// Tests by trial division whether `n` has no divisor from two up to its
/// square root. From two on these are the primes (`lemma_small_divisors`);
/// zero and one pass the test too.
pub fn is_prime(n: u64) -> (r: bool)
    ensures
        r == no_small_divisor(n as int),
{
    let mut i: u64 = 2;
    while i <= n / i
        invariant
            2 <= i,
            i <= 0x1_0000_0000,
            forall|d: int| 2 <= d < i ==> !#[trigger] divides(d, n as int),
        decreases n - i,
    {
        assert(i * i <= n) by (nonlinear_arith)
            requires
                1 <= i <= n / i,
        ;
        assert(i < 0x1_0000_0000) by (nonlinear_arith)
            requires
                i * i <= n,
                n <= 0xffff_ffff_ffff_ffff,
        ;
        assert(i < n) by (nonlinear_arith)
            requires
                2 <= i,
                i * i <= n,
        ;
        if n % i == 0 {
            assert(divides(i as int, n as int));
            return false;
        }
        i += 1;
    }
    assert forall|d: int| 2 <= d && d * d <= n implies !#[trigger] divides(d, n as int) by {
        assert(d < i) by (nonlinear_arith)
            requires
                2 <= i,
                0 <= n,
                i > n / i,
                2 <= d,
                d * d <= n,
        ;
    }
    true
}

/// A number from two on that has a divisor besides one and itself has one
/// that is no greater than its square root, so trial division up to the root
/// finds exactly the primes.
pub proof fn lemma_small_divisors(n: int)
    requires
        2 <= n,
    ensures
        no_small_divisor(n) <==> no_proper_divisor(n),
{
    if no_small_divisor(n) && !no_proper_divisor(n) {
        let d = choose|d: int| 2 <= d < n && divides(d, n);
        let e = n / d;
        assert(n == d * e && 2 <= e < n && divides(e, n)) by (nonlinear_arith)
            requires
                2 <= d < n,
                n % d == 0,
                e == n / d,
        ;
        assert(d * d <= n || e * e <= n) by (nonlinear_arith)
            requires
                n == d * e,
                2 <= d,
                2 <= e,
        ;
    }
    if no_proper_divisor(n) && !no_small_divisor(n) {
        let d = choose|d: int| 2 <= d && d * d <= n && divides(d, n);
        assert(d < n) by (nonlinear_arith)
            requires
                2 <= d,
                d * d <= n,
        ;
    }
}

} // verus!
