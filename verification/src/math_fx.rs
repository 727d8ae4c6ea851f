//! Integer helpers behind the Bezier curves of the animation code.

use vstd::prelude::*;

verus! {

/// `n!`, the product of the first `n` positive integers.
pub open spec fn spec_factorial(n: nat) -> nat
    decreases n,
{
    if n == 0 {
        1
    } else {
        n * spec_factorial((n - 1) as nat)
    }
}

/// The binomial coefficient "`n` choose `k`", by Pascal's rule.
pub open spec fn spec_binomial(n: nat, k: nat) -> nat
    decreases n,
{
    if k == 0 {
        1
    } else if n == 0 {
        0
    } else {
        spec_binomial((n - 1) as nat, (k - 1) as nat) + spec_binomial((n - 1) as nat, k)
    }
}

/// Factorials are positive.
pub proof fn lemma_factorial_positive(n: nat)
    ensures
        spec_factorial(n) >= 1,
    decreases n,
{
    if n > 0 {
        lemma_factorial_positive((n - 1) as nat);
        assert(n * spec_factorial((n - 1) as nat) >= 1) by (nonlinear_arith)
            requires
                n >= 1,
                spec_factorial((n - 1) as nat) >= 1,
        ;
    }
}

/// Factorials never decrease.
pub proof fn lemma_factorial_monotonic(a: nat, b: nat)
    requires
        a <= b,
    ensures
        spec_factorial(a) <= spec_factorial(b),
    decreases b,
{
    if a < b {
        lemma_factorial_monotonic(a, (b - 1) as nat);
        lemma_factorial_positive((b - 1) as nat);
        assert(spec_factorial((b - 1) as nat) <= b * spec_factorial((b - 1) as nat))
            by (nonlinear_arith)
            requires
                b >= 1,
                spec_factorial((b - 1) as nat) >= 1,
        ;
    }
}

/// Choosing more than there is cannot be done.
pub proof fn lemma_binomial_beyond(n: nat, k: nat)
    requires
        k > n,
    ensures
        spec_binomial(n, k) == 0,
    decreases n,
{
    if n > 0 {
        lemma_binomial_beyond((n - 1) as nat, (k - 1) as nat);
        lemma_binomial_beyond((n - 1) as nat, k);
    }
}

/// One step of Pascal's rule, on the products that the factorial formula is
/// made of.
proof fn lemma_pascal_step(c1: nat, c2: nat, fj: nat, fmk: nat, fm: nat, n: nat, k: nat)
    requires
        0 < k < n,
        c1 * (fj * ((n - k) * fmk)) == fm,
        c2 * ((k * fj) * fmk) == fm,
    ensures
        (c1 + c2) * ((k * fj) * ((n - k) * fmk)) == n * fm,
{
    let p = fj * fmk;
    let a = c1 * p;
    let b = c2 * p;
    assert(c1 * (fj * ((n - k) * fmk)) == (n - k) * a) by (nonlinear_arith)
        requires
            p == fj * fmk,
            a == c1 * p,
    ;
    assert(c2 * ((k * fj) * fmk) == k * b) by (nonlinear_arith)
        requires
            p == fj * fmk,
            b == c2 * p,
    ;
    assert((c1 + c2) * ((k * fj) * ((n - k) * fmk)) == k * ((n - k) * a) + (n - k) * (k * b))
        by (nonlinear_arith)
        requires
            p == fj * fmk,
            a == c1 * p,
            b == c2 * p,
    ;
    assert(k * fm + (n - k) * fm == n * fm) by (nonlinear_arith);
}

/// The factorial formula: `C(n, k) * k! * (n - k)! == n!`.
pub proof fn lemma_binomial_factorial(n: nat, k: nat)
    requires
        k <= n,
    ensures
        spec_binomial(n, k) * (spec_factorial(k) * spec_factorial((n - k) as nat))
            == spec_factorial(n),
    decreases n,
{
    let c = spec_binomial(n, k);
    let fk = spec_factorial(k);
    let fnk = spec_factorial((n - k) as nat);
    if k == 0 {
        assert(c == 1 && fk == 1);
        assert(1 * (1 * fnk) == fnk);
    } else if k == n {
        let m = (n - 1) as nat;
        lemma_binomial_factorial(m, m);
        lemma_binomial_beyond(m, n);
        lemma_factorial_positive(m);
        let cm = spec_binomial(m, m);
        let fm = spec_factorial(m);
        assert(spec_factorial(0) == 1);
        assert(cm == 1) by (nonlinear_arith)
            requires
                cm * (fm * 1) == fm,
                fm >= 1,
        ;
        assert(c == 1 && fnk == 1);
        assert(1 * (fk * 1) == fk);
    } else {
        let m = (n - 1) as nat;
        let j = (k - 1) as nat;
        lemma_binomial_factorial(m, j);
        lemma_binomial_factorial(m, k);
        let c1 = spec_binomial(m, j);
        let c2 = spec_binomial(m, k);
        let fj = spec_factorial(j);
        let fmk = spec_factorial((m - k) as nat);
        let fm = spec_factorial(m);
        assert(c == c1 + c2);
        assert(fk == k * fj);
        assert(fnk == (n - k) * fmk);
        assert((m - j) as nat == (n - k) as nat);
        lemma_pascal_step(c1, c2, fj, fmk, fm, n, k);
    }
}

/// `value!`.
///
/// The product has to fit the machine word; from twenty-one on (thirteen on a
/// 32-bit machine) it does not.
pub fn factorial(value: usize) -> (result: usize)
    requires
        spec_factorial(value as nat) <= usize::MAX,
    ensures
        result == spec_factorial(value as nat),
    decreases value,
{
    if value == 0 {
        1
    } else {
        proof {
            lemma_factorial_monotonic((value - 1) as nat, value as nat);
        }
        value * factorial(value - 1)
    }
}

/// `value!` where it fits the machine word, and `None` where it does not.
pub fn checked_factorial(value: usize) -> (result: Option<usize>)
    ensures
        match result {
            Some(product) => product == spec_factorial(value as nat),
            None => spec_factorial(value as nat) > usize::MAX,
        },
{
    let mut product: usize = 1;
    let mut i: usize = 0;
    while i < value
        invariant
            i <= value,
            product == spec_factorial(i as nat),
        decreases value - i,
    {
        i += 1;
        assert(spec_factorial(i as nat) == i * product);
        match product.checked_mul(i) {
            Some(next) => {
                product = next;
            },
            None => {
                proof {
                    lemma_factorial_monotonic(i as nat, value as nat);
                }
                return None;
            },
        }
    }
    Some(product)
}

/// The number of ways to choose `k` out of `n`, computed as
/// `n! / (k! * (n - k)!)`.
pub fn calculate_binominal_coefficient(n: usize, k: usize) -> (result: usize)
    requires
        k <= n,
        spec_factorial(n as nat) <= usize::MAX,
    ensures
        result == spec_binomial(n as nat, k as nat),
        result == spec_factorial(n as nat) / (spec_factorial(k as nat) * spec_factorial(
            (n - k) as nat,
        )),
{
    let ghost fk = spec_factorial(k as nat);
    let ghost fnk = spec_factorial((n - k) as nat);
    let ghost c = spec_binomial(n as nat, k as nat);
    proof {
        lemma_factorial_monotonic(k as nat, n as nat);
        lemma_factorial_monotonic((n - k) as nat, n as nat);
        lemma_factorial_positive(k as nat);
        lemma_factorial_positive((n - k) as nat);
        lemma_binomial_factorial(n as nat, k as nat);
        assert(fk * fnk >= 1) by (nonlinear_arith)
            requires
                fk >= 1,
                fnk >= 1,
        ;
        assert(fk * fnk <= c * (fk * fnk) && c >= 1) by (nonlinear_arith)
            requires
                c * (fk * fnk) >= 1,
                fk * fnk >= 1,
        ;
        assert((c * (fk * fnk)) / (fk * fnk) == c) by (nonlinear_arith)
            requires
                fk * fnk >= 1,
        ;
    }
    factorial(n) / (factorial(k) * factorial(n - k))
}

} // verus!
