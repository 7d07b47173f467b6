//! Integer polynomials, and Lagrange's bound on the number of their roots
//! modulo a prime.

use crate::primality::{divides, is_prime, lemma_prime_divides_product};
use vstd::arithmetic::div_mod::*;
use vstd::prelude::*;

verus! {

/// The value at `x` of the polynomial whose coefficients, from the leading
/// one down to the constant term, are `c(0), c(1), ..., c(n)`.
pub open spec fn eval(c: spec_fn(nat) -> int, n: nat, x: int) -> int
    decreases n,
{
    if n == 0 {
        c(0)
    } else {
        eval(c, (n - 1) as nat, x) * x + c(n)
    }
}

/// The coefficients of the quotient on division by `X - r`: each one is the
/// value at `r` of the polynomial cut off after that many steps.
pub open spec fn quotient(c: spec_fn(nat) -> int, r: int) -> spec_fn(nat) -> int {
    |i: nat| eval(c, i, r)
}

/// Division by a linear factor: a polynomial is `X - r` times its quotient,
/// plus its value at `r`.
pub proof fn lemma_divide_by_linear(c: spec_fn(nat) -> int, n: nat, r: int, x: int)
    requires
        n >= 1,
    ensures
        eval(c, n, x) == (x - r) * eval(quotient(c, r), (n - 1) as nat, x) + eval(c, n, r),
    decreases n,
{
    let q = quotient(c, r);
    let k = (n - 1) as nat;
    let cn = c(n);
    if n == 1 {
        let c0 = c(0);
        assert(q(0) == c0);
        assert(eval(c, 0, x) == c0);
        assert(eval(c, 0, r) == c0);
        assert(eval(q, 0, x) == c0);
        assert(c0 * x + cn == (x - r) * c0 + (c0 * r + cn)) by (nonlinear_arith);
    } else {
        lemma_divide_by_linear(c, k, r, x);
        let ex = eval(c, k, x);
        let er = eval(c, k, r);
        let qe = eval(q, (k - 1) as nat, x);
        assert(q(k) == er);
        assert(eval(q, k, x) == qe * x + er);
        assert(eval(c, n, r) == er * r + cn);
        assert(ex * x + cn == (x - r) * (qe * x + er) + (er * r + cn)) by (nonlinear_arith)
            requires
                ex == (x - r) * qe + er,
        ;
    }
}

/// Lagrange's theorem: modulo a prime, a polynomial of degree `n` whose
/// leading coefficient the prime does not divide has at most `n` roots.
pub proof fn lemma_root_bound(p: int, c: spec_fn(nat) -> int, n: nat, roots: Set<int>)
    requires
        is_prime(p),
        !divides(p, c(0)),
        roots.finite(),
        forall|x: int| #[trigger] roots.contains(x) ==> 0 <= x < p && divides(p, eval(c, n, x)),
    ensures
        roots.len() <= n,
    decreases n,
{
    if roots.len() > 0 {
        let r = roots.choose();
        assert(roots.contains(r));
        if n > 0 {
            let k = (n - 1) as nat;
            let q = quotient(c, r);
            let rest = roots.remove(r);
            assert(q(0) == c(0));
            assert forall|x: int| #[trigger] rest.contains(x) implies 0 <= x < p && divides(
                p,
                eval(q, k, x),
            ) by {
                assert(roots.contains(x));
                lemma_divide_by_linear(c, n, r, x);
                lemma_sub_mod_noop(eval(c, n, x), eval(c, n, r), p);
                lemma_small_mod(0, p as nat);
                lemma_prime_divides_product(p, x - r, eval(q, k, x));
                if divides(p, x - r) {
                    lemma_mod_equivalence(x, r, p);
                    lemma_small_mod(x as nat, p as nat);
                    lemma_small_mod(r as nat, p as nat);
                }
            }
            lemma_root_bound(p, q, k, rest);
        }
    }
}

} // verus!
