//! A fixed round trip through the library: find a hard prime, take a square
//! root modulo it, and square the root again.

use crate::modular::square;
use crate::residue::{legendre, square_mod};
use crate::search::{find_largest_prime, is_largest_hard_prime_below};
use crate::tonelli::{square_root_pair, square_root_with_exponent};
use vstd::arithmetic::div_mod::lemma_small_mod;
use vstd::arithmetic::power2::*;
use vstd::prelude::*;

verus! {

/// The bit length below which the demonstration looks for its prime.
pub const DEMO_BITS: usize = 14;

/// The number whose square root the demonstration takes.
pub const DEMO_PLAIN_TEXT: u128 = 12;

/// What the demonstration computed.
pub struct Demo {
    /// The largest hard prime below `2^DEMO_BITS`.
    pub prime: u128,
    /// The square roots of `DEMO_PLAIN_TEXT` modulo the prime, or `(0, 0)`.
    pub roots: (u128, u128),
    /// The square of the first root modulo the prime.
    pub square: u128,
}

impl Demo {
    /// Whether squaring the root gave the plain text back.
    pub fn succeeded(&self) -> (r: bool)
        ensures
            r == (self.square == DEMO_PLAIN_TEXT),
    {
        self.square == DEMO_PLAIN_TEXT
    }
}

/// Runs the demonstration: the largest hard prime below `2^14`, the square
/// roots of 12 modulo that prime, and the square of the first root.
pub fn demo() -> (r: Demo)
    ensures
        r.prime != 0,
        is_largest_hard_prime_below(r.prime as int, pow2(DEMO_BITS as nat) as int),
        (r.roots.0 as int, r.roots.1 as int) == square_root_pair(
            DEMO_PLAIN_TEXT as int,
            r.prime as int,
        ),
        r.square == square_mod(r.roots.0 as int, r.prime as int),
        r.square == if legendre(DEMO_PLAIN_TEXT as int, r.prime as int) == 1 {
            DEMO_PLAIN_TEXT as int % (r.prime as int)
        } else {
            0
        },
{
    let found = find_largest_prime(DEMO_BITS);
    let prime = found.0;
    proof {
        lemma_small_mod(0, prime as nat);
    }
    let roots = square_root_with_exponent(DEMO_PLAIN_TEXT, prime, Some(found.1));
    let square = square(roots.0, prime);
    Demo { prime, roots, square }
}

} // verus!
