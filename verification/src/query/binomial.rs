//! Binomial coefficients, for counting combinations.

use vstd::prelude::*;

verus! {

/// The number of ways to pick `k` of `n` things, by Pascal's rule.
pub open spec fn binomial(n: nat, k: nat) -> nat
    decreases n,
{
    if k == 0 {
        1
    } else if n == 0 {
        0
    } else {
        binomial((n - 1) as nat, (k - 1) as nat) + binomial((n - 1) as nat, k)
    }
}

/// There is no way to pick more than there is.
pub proof fn lemma_binomial_zero(n: nat, k: nat)
    requires
        k > n,
    ensures
        binomial(n, k) == 0,
    decreases n,
{
    if n > 0 {
        lemma_binomial_zero((n - 1) as nat, (k - 1) as nat);
        lemma_binomial_zero((n - 1) as nat, k);
    }
}

/// There is one way to pick everything.
pub proof fn lemma_binomial_all(n: nat)
    ensures
        binomial(n, n) == 1,
    decreases n,
{
    if n > 0 {
        lemma_binomial_all((n - 1) as nat);
        lemma_binomial_zero((n - 1) as nat, n);
    }
}

/// There are `n` ways to pick one of `n`.
pub proof fn lemma_binomial_one(n: nat)
    ensures
        binomial(n, 1) == n,
    decreases n,
{
    if n > 0 {
        lemma_binomial_one((n - 1) as nat);
        assert(binomial((n - 1) as nat, 0) == 1);
        assert(binomial(n, 1) == binomial((n - 1) as nat, 0) + binomial((n - 1) as nat, 1));
    }
}

/// Picking `k` is leaving `n - k`.
pub proof fn lemma_binomial_symmetric(n: nat, k: nat)
    requires
        k <= n,
    ensures
        binomial(n, k) == binomial(n, (n - k) as nat),
    decreases n,
{
    if k == 0 {
        lemma_binomial_all(n);
    } else if k == n {
        lemma_binomial_all(n);
    } else {
        lemma_binomial_symmetric((n - 1) as nat, (k - 1) as nat);
        lemma_binomial_symmetric((n - 1) as nat, k);
    }
}

/// The step from one coefficient of a row to the next:
/// `C(n, k) * k == C(n, k - 1) * (n - k + 1)`.
pub proof fn lemma_binomial_step(n: nat, k: nat)
    requires
        1 <= k <= n,
    ensures
        binomial(n, k) * k == binomial(n, (k - 1) as nat) * (n - k + 1),
    decreases n,
{
    let m = (n - 1) as nat;
    if k == 1 {
        lemma_binomial_one(n);
        assert(binomial(n, 0) == 1);
        assert(binomial(n, 1) * 1 == n);
        assert(1 * (n - 1 + 1) == n);
    } else {
        let a = binomial(m, (k - 2) as nat);
        let b = binomial(m, (k - 1) as nat);
        let c = binomial(m, k);
        assert(binomial(n, k) == b + c);
        assert(binomial(n, (k - 1) as nat) == a + b);
        // b * (k - 1) == a * (n - k + 1)
        lemma_binomial_step(m, (k - 1) as nat);
        assert(b * (k - 1) == a * (m - (k - 1) + 1));
        // c * k == b * (n - k)
        if k <= m {
            lemma_binomial_step(m, k);
            assert(c * k == b * (m - k + 1));
        } else {
            lemma_binomial_zero(m, k);
            assert(c * k == 0) by (nonlinear_arith)
                requires
                    c == 0,
            ;
            assert(b * (n - k) == 0) by (nonlinear_arith)
                requires
                    n == k,
            ;
        }
        assert(c * k == b * (n - k));
        assert(b * (k - 1) == a * (n - k + 1));
        assert((b + c) * k == (a + b) * (n - k + 1)) by (nonlinear_arith)
            requires
                c * k == b * (n - k),
                b * (k - 1) == a * (n - k + 1),
        ;
    }
}

/// Up to the middle of a row the coefficients do not fall:
/// `C(n, k - 1) <= C(n, k)` while `2 * k <= n + 1`.
pub proof fn lemma_binomial_rises(n: nat, k: nat)
    requires
        1 <= k,
        2 * k <= n + 1,
    ensures
        binomial(n, (k - 1) as nat) <= binomial(n, k),
{
    lemma_binomial_step(n, k);
    let a = binomial(n, (k - 1) as nat);
    let b = binomial(n, k);
    assert(a <= b) by (nonlinear_arith)
        requires
            b * k == a * (n - k + 1),
            n - k + 1 >= k,
            k >= 1,
            a >= 0,
            b >= 0,
    ;
}

/// In the first half of a row a coefficient is at least as large as every
/// coefficient before it.
pub proof fn lemma_binomial_monotonic(n: nat, j: nat, k: nat)
    requires
        j <= k,
        2 * k <= n,
    ensures
        binomial(n, j) <= binomial(n, k),
    decreases k - j,
{
    if j < k {
        lemma_binomial_monotonic(n, j, (k - 1) as nat);
        lemma_binomial_rises(n, k);
    }
}

/// Computes `C(n, k)`: `None` exactly when the coefficient does not fit in
/// a `usize`.
///
/// The row is walked from its nearer end, `C(n, j) = C(n, j - 1) * (n - j
/// + 1) / j`, with products in 128 bits, so that no step overflows before
/// the coefficient itself does.
pub fn n_choose_k(n: usize, k: usize) -> (r: Option<usize>)
    ensures
        r == if binomial(n as nat, k as nat) <= usize::MAX {
            Some(binomial(n as nat, k as nat) as usize)
        } else {
            None
        },
{
    if k > n {
        proof {
            lemma_binomial_zero(n as nat, k as nat);
        }
        return Some(0);
    }
    let smallest: usize = if k <= n - k {
        k
    } else {
        n - k
    };
    proof {
        lemma_binomial_symmetric(n as nat, k as nat);
    }
    let mut acc: usize = 1;
    let mut done: usize = 0;
    while done < smallest
        invariant
            done <= smallest,
            2 * smallest <= n,
            binomial(n as nat, k as nat) == binomial(n as nat, smallest as nat),
            acc == binomial(n as nat, done as nat),
        decreases smallest - done,
    {
        let j: usize = done + 1;
        let factor: usize = n - done;
        assert(acc as u128 * factor as u128 <= 0xFFFF_FFFF_FFFF_FFFF * 0xFFFF_FFFF_FFFF_FFFF)
            by (nonlinear_arith)
            requires
                acc <= 0xFFFF_FFFF_FFFF_FFFF,
                factor <= 0xFFFF_FFFF_FFFF_FFFF,
        ;
        let product: u128 = (acc as u128) * (factor as u128);
        let next: u128 = product / (j as u128);
        proof {
            lemma_binomial_step(n as nat, j as nat);
            let c = binomial(n as nat, j as nat);
            assert(product == c * j);
            assert((c * j) / (j as int) == c) by (nonlinear_arith)
                requires
                    j > 0,
            ;
            assert(next == c);
        }
        if next > usize::MAX as u128 {
            proof {
                lemma_binomial_monotonic(n as nat, j as nat, smallest as nat);
            }
            return None;
        }
        acc = next as usize;
        done = j;
    }
    Some(acc)
}

} // verus!
