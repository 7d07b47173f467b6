//! Fermat's little theorem.
//!
//! The proof is the classical one: multiplying `1, 2, ..., p - 1` by a
//! number that `p` does not divide only reorders the residues, so both
//! products agree modulo `p`, and the common factor `(p - 1)!` cancels.

use crate::congruence::lemma_mul_congruent;
use crate::primality::{divides, is_prime, lemma_prime_divides_product};
use vstd::arithmetic::div_mod::*;
use vstd::arithmetic::power::*;
use vstd::prelude::*;

verus! {

/// The product `f(1) * f(2) * ... * f(n)`.
pub open spec fn product(f: spec_fn(int) -> int, n: nat) -> int
    decreases n,
{
    if n == 0 {
        1
    } else {
        product(f, (n - 1) as nat) * f(n as int)
    }
}

/// The product `1 * 2 * ... * n`.
pub open spec fn factorial(n: nat) -> int
    decreases n,
{
    if n == 0 {
        1
    } else {
        factorial((n - 1) as nat) * n
    }
}

/// `f` sends `1..=n` into `1..=n`.
pub open spec fn maps_into(f: spec_fn(int) -> int, n: nat) -> bool {
    forall|i: int| #![trigger f(i)] 1 <= i <= n ==> 1 <= f(i) <= n
}

/// `f` takes no value twice on `1..=n`.
pub open spec fn injective_upto(f: spec_fn(int) -> int, n: nat) -> bool {
    forall|i: int, j: int| #![trigger f(i), f(j)] 1 <= i < j <= n ==> f(i) != f(j)
}

/// `f` takes the value `v` somewhere on `1..=n`.
pub open spec fn hits(f: spec_fn(int) -> int, n: nat, v: int) -> bool {
    exists|i: int| #![trigger f(i)] 1 <= i <= n && f(i) == v
}

/// Functions that agree on `1..=n` have the same product.
proof fn lemma_product_agree(f: spec_fn(int) -> int, g: spec_fn(int) -> int, n: nat)
    requires
        forall|i: int| #![trigger f(i)] 1 <= i <= n ==> f(i) == g(i),
    ensures
        product(f, n) == product(g, n),
    decreases n,
{
    if n > 0 {
        lemma_product_agree(f, g, (n - 1) as nat);
    }
}

/// Functions that agree on `1..=n` except at `j` have products that differ
/// by exchanging the factor at `j`.
proof fn lemma_product_replace(f: spec_fn(int) -> int, g: spec_fn(int) -> int, n: nat, j: int)
    requires
        1 <= j <= n,
        forall|i: int| #![trigger f(i)] 1 <= i <= n && i != j ==> f(i) == g(i),
    ensures
        product(f, n) * g(j) == product(g, n) * f(j),
    decreases n,
{
    let m = (n - 1) as nat;
    let pf = product(f, m);
    let pg = product(g, m);
    let fj = f(j);
    let gj = g(j);
    if j == n {
        lemma_product_agree(f, g, m);
        assert((pf * fj) * gj == (pf * gj) * fj) by (nonlinear_arith);
    } else {
        lemma_product_replace(f, g, m, j);
        let fn_ = f(n as int);
        assert(fn_ == g(n as int));
        assert((pf * fn_) * gj == (pg * fn_) * fj) by (nonlinear_arith)
            requires
                pf * gj == pg * fj,
        ;
    }
}

/// Functions that are congruent on `1..=n` have congruent products.
proof fn lemma_product_congruent(
    f: spec_fn(int) -> int,
    g: spec_fn(int) -> int,
    n: nat,
    m: int,
)
    requires
        m > 0,
        forall|i: int| #![trigger f(i)] 1 <= i <= n ==> f(i) % m == g(i) % m,
    ensures
        product(f, n) % m == product(g, n) % m,
    decreases n,
{
    if n > 0 {
        let k = (n - 1) as nat;
        lemma_product_congruent(f, g, k, m);
        lemma_mul_congruent(product(f, k), product(g, k), f(n as int), g(n as int), m);
    }
}

/// The product of the first `n` multiples of `a` is `a^n * n!`.
proof fn lemma_product_of_multiples(f: spec_fn(int) -> int, a: int, n: nat)
    requires
        forall|i: int| #![trigger f(i)] 1 <= i <= n ==> f(i) == a * i,
    ensures
        product(f, n) == pow(a, n) * factorial(n),
    decreases n,
{
    if n == 0 {
        lemma_pow0(a);
    } else {
        let k = (n - 1) as nat;
        lemma_product_of_multiples(f, a, k);
        reveal(pow);
        let pw = pow(a, k);
        let fk = factorial(k);
        let ni = n as int;
        assert(f(ni) == a * ni);
        assert((pw * fk) * (a * ni) == (a * pw) * (fk * ni)) by (nonlinear_arith);
    }
}

/// A function that sends `1..=n` into itself without repeating a value
/// takes every value, and its product is `n!`.
proof fn lemma_product_of_permutation(f: spec_fn(int) -> int, n: nat)
    requires
        maps_into(f, n),
        injective_upto(f, n),
    ensures
        product(f, n) == factorial(n),
        forall|v: int| 1 <= v <= n ==> #[trigger] hits(f, n, v),
    decreases n,
{
    if n > 0 {
        let m = (n - 1) as nat;
        let last = n as int;
        if hits(f, n, last) {
            let i0 = choose|i: int| #![trigger f(i)] 1 <= i <= n && f(i) == last;
            let g = |i: int|
                if i == i0 {
                    f(last)
                } else {
                    f(i)
                };
            assert forall|i: int| #![trigger g(i)] 1 <= i <= m implies 1 <= g(i) <= m by {
                if i == i0 {
                    assert(f(i0) != f(last));
                } else {
                    assert(f(i) != f(i0));
                }
            }
            assert forall|i: int, j: int| #![trigger g(i), g(j)] 1 <= i < j <= m implies g(i)
                != g(j) by {
                if i == i0 {
                    assert(f(j) != f(last));
                } else if j == i0 {
                    assert(f(i) != f(last));
                } else {
                    assert(f(i) != f(j));
                }
            }
            lemma_product_of_permutation(g, m);
            if i0 == last {
                lemma_product_agree(f, g, m);
            } else {
                lemma_product_replace(f, g, m, i0);
            }
            assert forall|v: int| 1 <= v <= n implies #[trigger] hits(f, n, v) by {
                if v != last {
                    assert(hits(g, m, v));
                    let i = choose|i: int| #![trigger g(i)] 1 <= i <= m && g(i) == v;
                    if i == i0 {
                        assert(f(last) == v);
                    } else {
                        assert(f(i) == v);
                    }
                }
            }
        } else {
            assert forall|i: int| #![trigger f(i)] 1 <= i <= n implies f(i) != last by {
                if f(i) == last {
                    assert(hits(f, n, last));
                }
            }
            if m == 0 {
                assert(f(1) == 1);
            } else {
                lemma_product_of_permutation(f, m);
                let v = f(last);
                assert(hits(f, m, v));
                let i = choose|i: int| #![trigger f(i)] 1 <= i <= m && f(i) == v;
                assert(f(i) != f(last));
            }
        }
    }
}

/// A prime divides no factorial below it.
proof fn lemma_factorial_not_divisible(p: int, n: nat)
    requires
        is_prime(p),
        n < p,
    ensures
        !divides(p, factorial(n)),
    decreases n,
{
    if n == 0 {
        lemma_small_mod(1, p as nat);
    } else {
        let k = (n - 1) as nat;
        lemma_factorial_not_divisible(p, k);
        if divides(p, factorial(n)) {
            lemma_prime_divides_product(p, factorial(k), n as int);
            lemma_small_mod(n, p as nat);
        }
    }
}

/// Fermat's little theorem: if the prime `p` does not divide `a`, then
/// `a^(p - 1)` leaves remainder one modulo `p`.
pub proof fn lemma_fermat_little(p: int, a: int)
    requires
        is_prime(p),
        !divides(p, a),
    ensures
        pow(a, (p - 1) as nat) % p == 1,
{
    let n = (p - 1) as nat;
    let f = |i: int| (a * i) % p;
    let g = |i: int| a * i;
    assert forall|i: int| #![trigger f(i)] 1 <= i <= n implies 1 <= f(i) <= n by {
        lemma_mod_bound(a * i, p);
        if (a * i) % p == 0 {
            lemma_prime_divides_product(p, a, i);
            lemma_small_mod(i as nat, p as nat);
        }
    }
    assert forall|i: int, j: int| #![trigger f(i), f(j)] 1 <= i < j <= n implies f(i) != f(
        j,
    ) by {
        if f(i) == f(j) {
            lemma_mod_equivalence(a * j, a * i, p);
            assert(a * j - a * i == a * (j - i)) by (nonlinear_arith);
            lemma_prime_divides_product(p, a, j - i);
            lemma_small_mod((j - i) as nat, p as nat);
        }
    }
    lemma_product_of_permutation(f, n);
    assert forall|i: int| #![trigger f(i)] 1 <= i <= n implies f(i) % p == g(i) % p by {
        lemma_mod_twice(a * i, p);
    }
    lemma_product_congruent(f, g, n, p);
    lemma_product_of_multiples(g, a, n);
    let fact = factorial(n);
    let pw = pow(a, n);
    lemma_mod_equivalence(pw * fact, fact, p);
    assert(pw * fact - fact == (pw - 1) * fact) by (nonlinear_arith);
    lemma_prime_divides_product(p, pw - 1, fact);
    lemma_factorial_not_divisible(p, n);
    lemma_mod_equivalence(pw, 1, p);
    lemma_small_mod(1, p as nat);
}

} // verus!
