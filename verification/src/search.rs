//! The search for the largest hard prime below a power of two.

use crate::modular::{
    is_two_adic_valuation,
    modulus_in_range,
    power_of_two,
    two_adic_split,
    two_adic_valuation,
};
use crate::primality::{divides, is_hard_prime, is_prime};
use vstd::arithmetic::div_mod::*;
use vstd::arithmetic::power2::*;
use vstd::prelude::*;

verus! {

/// Calls `primes::is_prime`.
///
/// That function tests its argument by trial division: it rejects zero and
/// one, and otherwise looks for a divisor among two and the odd numbers
/// whose square does not exceed the argument, so it returns whether the
/// argument is prime. It squares each trial divisor in 64 bits, the first
/// one past the square root included; the precondition keeps the argument
/// below `(2^32 - 1)^2`, where none of these squares overflows.
#[verifier::external_body]
pub(crate) fn is_prime_u64(n: u64) -> (r: bool)
    requires
        n < 0xffff_fffe_0000_0001,
    ensures
        r == is_prime(n as int),
{
    primes::is_prime(n)
}

/// `q` is the largest hard prime below `bound`, or zero where no hard prime
/// lies below `bound`.
pub open spec fn is_largest_hard_prime_below(q: int, bound: int) -> bool {
    if q == 0 {
        forall|t: int| 0 <= t < bound ==> !#[trigger] is_hard_prime(t)
    } else {
        &&& is_hard_prime(q)
        &&& q < bound
        &&& forall|t: int| q < t < bound ==> !#[trigger] is_hard_prime(t)
    }
}

/// There is only one largest hard prime below a bound.
pub proof fn lemma_largest_hard_prime_unique(q1: int, q2: int, bound: int)
    requires
        q1 >= 0,
        q2 >= 0,
        is_largest_hard_prime_below(q1, bound),
        is_largest_hard_prime_below(q2, bound),
    ensures
        q1 == q2,
{
    if q1 != 0 {
        assert(is_hard_prime(q1));
    }
    if q2 != 0 {
        assert(is_hard_prime(q2));
    }
}

/// Five is the smallest hard prime.
pub proof fn lemma_five_is_hard()
    ensures
        is_hard_prime(5),
        forall|t: int| 0 <= t < 5 ==> !#[trigger] is_hard_prime(t),
{
    assert forall|d: int| 1 < d < 5 implies !#[trigger] divides(d, 5) by {
        if d == 2 {
        } else if d == 3 {
        } else {
        }
    }
    assert forall|t: int| 0 <= t < 5 implies !#[trigger] is_hard_prime(t) by {
        if t == 1 {
        } else if t == 2 {
        } else if t == 3 {
        } else {
        }
    }
}

/// The 2-adic valuation of `q - 1`, for a hard prime `q` below `2^l`, is at
/// least two and less than `l`.
pub proof fn lemma_hard_prime_exponent(q: int, e: nat, l: nat)
    requires
        is_hard_prime(q),
        q < pow2(l),
        is_two_adic_valuation(q - 1, e),
    ensures
        2 <= e < l,
{
    let w = pow2(e) as int;
    let s = (q - 1) / w;
    lemma_pow2_pos(e);
    lemma_fundamental_div_mod(q - 1, w);
    lemma_div_pos_is_pos(q - 1, w);
    lemma2_to64();
    if e == 0 {
        assert(w * s == s) by (nonlinear_arith)
            requires
                w == 1,
        ;
    } else if e == 1 {
        assert(w * s == 2 * s) by (nonlinear_arith)
            requires
                w == 2,
        ;
    }
    assert(w * s >= w) by (nonlinear_arith)
        requires
            s >= 1,
            w >= 0,
    ;
    if e > l {
        lemma_pow2_strictly_increases(l, e);
    }
}

/// Finds the largest hard prime below `2^l`, and the exponent of two in the
/// factorisation of its predecessor.
///
/// Returns `(p, e)` where `p` is the largest prime below `2^l` that leaves
/// remainder one modulo four, and `p - 1` is `2^e` times an odd number.
/// Below `2^3` there is no hard prime, and the result is `(0, 0)`. The bound
/// `2^l` has to fit in 64 bits. A prime that is found is in the range of
/// moduli that the square-root extraction accepts.
pub fn find_largest_prime(l: usize) -> (r: (u128, u32))
    requires
        l < 64,
    ensures
        is_largest_hard_prime_below(r.0 as int, pow2(l as nat) as int),
        r.0 == 0 <==> l < 3,
        r.0 == 0 ==> r.1 == 0,
        r.0 != 0 ==> r.1 == two_adic_valuation(r.0 - 1),
        r.0 != 0 ==> is_two_adic_valuation(r.0 - 1, r.1 as nat) && 2 <= r.1 < l,
        r.0 != 0 ==> modulus_in_range(r.0 as int),
{
    let bound128 = power_of_two(l as u32);
    proof {
        lemma2_to64();
        lemma2_to64_rest();
        if l < 63 {
            lemma_pow2_strictly_increases(l as nat, 63);
        }
        if l >= 1 {
            lemma_pow2_unfold(l as nat);
        }
        lemma_five_is_hard();
        if l > 3 {
            lemma_pow2_strictly_increases(3, l as nat);
        }
        if l < 2 {
            lemma_pow2_strictly_increases(l as nat, 2);
        }
    }
    let bound = bound128 as u64;
    let mut hi: u64 = bound;
    while hi >= 2
        invariant
            hi <= bound,
            bound == pow2(l as nat),
            bound <= 0x8000_0000_0000_0000,
            hi % 2 == 0 || hi == 1,
            forall|t: int| hi <= t < bound ==> !#[trigger] is_hard_prime(t),
        decreases hi,
    {
        let t = hi - 1;
        if t % 4 != 3 && is_prime_u64(t) {
            let (e, _) = two_adic_split((t - 1) as u128);
            proof {
                lemma_hard_prime_exponent(t as int, e as nat, l as nat);
            }
            return (t as u128, e);
        }
        proof {
            assert forall|x: int| hi - 2 <= x < bound implies !#[trigger] is_hard_prime(x) by {
                if x == hi - 2 {
                    assert(x % 4 != 1);
                }
            }
        }
        hi = hi - 2;
    }
    proof {
        assert forall|x: int| 0 <= x < bound implies !#[trigger] is_hard_prime(x) by {
            if x < hi {
                assert(x == 0);
            }
        }
    }
    (0, 0)
}

} // verus!
