//! Hard primes and modular square roots.
//!
//! A *hard* prime is a prime `p` with `p % 4 == 1`: for such a modulus no
//! closed formula gives a square root, and the Tonelli-Shanks iteration has
//! to run in full. This crate finds the largest hard prime below a power of
//! two, evaluates the Legendre symbol, squares, and extracts square roots
//! modulo a prime. Every function is verified against a contract stated
//! over mathematical integers.

pub mod congruence;
pub mod demo;
pub mod fermat;
pub mod modular;
pub mod polynomial;
pub mod primality;
pub mod residue;
pub mod search;
pub mod tonelli;

pub use crate::demo::demo;
pub use crate::modular::{legendre_symbol, square};
pub use crate::search::find_largest_prime;
pub use crate::tonelli::{square_root, square_root_with_exponent};
