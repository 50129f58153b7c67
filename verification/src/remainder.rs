//! Remainders of negative numbers.
use vstd::prelude::*;

verus! {

/// The remainder that is never negative, from the remainder that has the
/// sign of the number.
pub proof fn lemma_wrapped(t: int, n: int)
    requires
        n > 0,
    ensures
        t < 0 && (-t) % n == 0 ==> t % n == 0,
        t < 0 && (-t) % n != 0 ==> t % n == n - (-t) % n,
        0 <= t % n < n,
{
    let a = -t;
    let q = a / n;
    let m = a % n;
    assert(a == q * n + m && 0 <= m < n) by (nonlinear_arith)
        requires
            n > 0,
            q == a / n,
            m == a % n,
    ;
    if t < 0 {
        if m == 0 {
            assert((-q) * n == -(q * n)) by (nonlinear_arith);
            assert(t % n == 0) by (nonlinear_arith)
                requires
                    n > 0,
                    t == (-q) * n,
            ;
        } else {
            assert((-q - 1) * n == -(q * n) - n) by (nonlinear_arith);
            assert(t % n == n - m) by (nonlinear_arith)
                requires
                    n > 0,
                    t == (-q - 1) * n + (n - m),
                    0 < n - m < n,
            ;
        }
    }
    assert(0 <= t % n < n) by (nonlinear_arith)
        requires
            n > 0,
    ;
}

} // verus!
