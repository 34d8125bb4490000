//! The binomial coefficient and the identities that the counting code rests on.
use vstd::prelude::*;

verus! {

/// `C(n, k)`, the number of ways to choose `k` items out of `n`, by Pascal's rule.
pub open spec fn binom(n: nat, k: nat) -> nat
    decreases n,
{
    if k == 0 {
        1
    } else if n == 0 {
        0
    } else {
        binom((n - 1) as nat, (k - 1) as nat) + binom((n - 1) as nat, k)
    }
}

/// There is no way to choose more items than there are.
pub proof fn lemma_binom_above(n: nat, k: nat)
    requires
        k > n,
    ensures
        binom(n, k) == 0,
    decreases n,
{
    if n > 0 {
        lemma_binom_above((n - 1) as nat, (k - 1) as nat);
        lemma_binom_above((n - 1) as nat, k);
    }
}

/// There is exactly one way to choose all items.
pub proof fn lemma_binom_all(n: nat)
    ensures
        binom(n, n) == 1,
    decreases n,
{
    if n > 0 {
        lemma_binom_all((n - 1) as nat);
        lemma_binom_above((n - 1) as nat, n);
    }
}

/// Absorption: `(k + 1) * C(n + 1, k + 1) == (n + 1) * C(n, k)`.
pub proof fn lemma_binom_absorb(n: nat, k: nat)
    ensures
        (k + 1) * binom(n + 1, k + 1) == (n + 1) * binom(n, k),
    decreases n,
{
    if n == 0 {
        assert(binom(1, k + 1) == binom(0, k) + binom(0, k + 1));
        if k > 0 {
            assert(binom(0, k) == 0);
        }
    } else {
        let m = (n - 1) as nat;
        // C(m + 2, k + 1) = C(m + 1, k) + C(m + 1, k + 1)
        assert(binom(n + 1, k + 1) == binom(n, k) + binom(n, k + 1));
        lemma_binom_absorb(m, k);
        let a = binom(n, k);
        let b = binom(n, k + 1);
        assert((k + 1) * b == n * binom(m, k));
        if k == 0 {
            assert(binom(n, 0) == 1);
            assert(binom(m, 0) == 1);
            assert(b == n) by (nonlinear_arith)
                requires
                    (k + 1) * b == n * binom(m, k),
                    k == 0,
                    binom(m, k) == 1,
            ;
            assert((k + 1) * binom(n + 1, k + 1) == (n + 1) * a) by (nonlinear_arith)
                requires
                    k == 0,
                    a == 1,
                    b == n,
                    binom(n + 1, k + 1) == a + b,
            ;
        } else {
            let j = (k - 1) as nat;
            lemma_binom_absorb(m, j);
            assert((j + 1) * binom(m + 1, j + 1) == (m + 1) * binom(m, j));
            assert(k * a == n * binom(m, j));
            assert(a == binom(m, j) + binom(m, k));
            let c = binom(m, j);
            let d = binom(m, k);
            assert((k + 1) * (a + b) == k * a + a + (k + 1) * b) by (nonlinear_arith);
            assert((k + 1) * (a + b) == n * c + a + n * d);
            assert(n * c + n * d == n * (c + d)) by (nonlinear_arith);
            assert((k + 1) * (a + b) == (n + 1) * a) by (nonlinear_arith)
                requires
                    (k + 1) * (a + b) == n * c + a + n * d,
                    n * c + n * d == n * (c + d),
                    a == c + d,
            ;
        }
    }
}

/// `(n - k) * C(n, k) == n * C(n - 1, k)` for `1 <= n` and `k <= n`.
pub proof fn lemma_binom_complement(n: nat, k: nat)
    requires
        1 <= n,
        k <= n,
    ensures
        (n - k) * binom(n, k) == n * binom((n - 1) as nat, k),
{
    let m = (n - 1) as nat;
    if k == 0 {
        assert(binom(m, 0) == 1);
    } else {
        let j = (k - 1) as nat;
        lemma_binom_absorb(m, j);
        let a = binom(n, k);
        let c = binom(m, j);
        let d = binom(m, k);
        assert(a == c + d);
        assert(k * a == n * c);
        assert((n - k) * a == n * d) by (nonlinear_arith)
            requires
                a == c + d,
                k * a == n * c,
        ;
    }
}

/// One step of the multiplicative formula:
/// `C(n, i) * (n - i) == C(n, i + 1) * (i + 1)` for `i < n`.
pub proof fn lemma_binom_step(n: nat, i: nat)
    requires
        i < n,
    ensures
        binom(n, i) * (n - i) == binom(n, i + 1) * (i + 1),
{
    let m = (n - 1) as nat;
    lemma_binom_absorb(m, i);
    lemma_binom_complement(n, i);
    assert((i + 1) * binom(n, i + 1) == n * binom(m, i));
    assert((n - i) * binom(n, i) == n * binom(m, i));
    assert(binom(n, i) * (n - i) == binom(n, i + 1) * (i + 1)) by (nonlinear_arith)
        requires
            (i + 1) * binom(n, i + 1) == (n - i) * binom(n, i),
    ;
}

/// Symmetry: choosing `k` items is choosing the `n - k` that stay.
pub proof fn lemma_binom_symmetric(n: nat, k: nat)
    requires
        k <= n,
    ensures
        binom(n, k) == binom(n, (n - k) as nat),
    decreases n,
{
    if k == 0 {
        lemma_binom_all(n);
    } else if k == n {
        lemma_binom_all(n);
    } else {
        let m = (n - 1) as nat;
        lemma_binom_symmetric(m, (k - 1) as nat);
        lemma_binom_symmetric(m, k);
        assert(binom(n, (n - k) as nat) == binom(m, (n - k - 1) as nat) + binom(m, (n - k) as nat));
    }
}

} // verus!
