use hardprime::demo::{demo, DEMO_PLAIN_TEXT};
use hardprime::modular::{power_of_two, two_adic_split};
use hardprime::{
    find_largest_prime, legendre_symbol, square, square_root, square_root_with_exponent,
};

/// The 56-bit hard prime `2^56 - 27`.
const PRIME_56: u128 = 72057594037927909;

/// The largest prime below `2^64`, which is hard: `2^64 - 59`.
const PRIME_64: u128 = 18446744073709551557;

/// Squares of residues computed without the library, for moduli up to `2^64`.
fn reference_square(x: u128, p: u128) -> u128 {
    let r = x % p;
    (r * r) % p
}

/// Checks everything the library promises of `square_root(a, p)` for a prime
/// `p`, against the Legendre symbol and the reference square.
fn check_roots(a: u128, p: u128) {
    let (x, y) = square_root(a, p);
    if legendre_symbol(a, p) == 1 {
        assert!(0 < x && x < p);
        assert!(0 < y && y < p);
        assert_eq!(x + y, p);
        assert_ne!(x, y);
        assert_eq!(reference_square(x, p), a % p);
        assert_eq!(reference_square(y, p), a % p);
        assert_eq!(square(x, p), a % p);
        assert_eq!(square(y, p), a % p);
    } else {
        assert_eq!((x, y), (0, 0));
    }
}

#[test]
fn round_trip_for_every_residue_of_small_primes() {
    for p in [3u128, 5, 7, 11, 13, 17, 41, 61, 97, 113, 193, 241, 257] {
        let mut residues = 0;
        for a in 0..p {
            check_roots(a, p);
            if legendre_symbol(a, p) == 1 {
                residues += 1;
                assert_eq!(square(square_root(a, p).0, p), a);
                assert_eq!(square(square_root(a, p).1, p), a);
            }
        }
        assert_eq!(residues, (p - 1) / 2);
    }
}

#[test]
fn round_trip_reduces_larger_arguments() {
    // 22 is congruent to 9 modulo 13
    let roots = square_root(22, 13);
    assert!(roots == (3, 10) || roots == (10, 3));
    assert_eq!(square(roots.0, 13), 9);
    assert_eq!(legendre_symbol(22, 13), 1);
}

#[test]
fn root_symmetry() {
    for (a, p) in [(9u128, 13u128), (4, 13), (12, 13), (2, 17), (13, 23), (2601, 65521)] {
        let (x, y) = square_root(a, p);
        assert!(x != 0 && y != 0);
        assert_eq!(x + y, p);
        assert_ne!(x, y);
    }
}

#[test]
fn non_residue_has_no_root() {
    // the squares modulo 13 are 1, 3, 4, 9, 10 and 12
    for a in [2u128, 5, 6, 7, 8, 11] {
        assert_eq!(legendre_symbol(a, 13), 0);
        assert_eq!(square_root(a, 13), (0, 0));
    }
}

#[test]
fn legendre_symbol_exact_values() {
    assert_eq!(legendre_symbol(1, 13), 1);
    assert_eq!(legendre_symbol(3, 13), 1);
    assert_eq!(legendre_symbol(10, 13), 1);
    assert_eq!(legendre_symbol(2, 13), 0);
    // multiples of the modulus
    assert_eq!(legendre_symbol(0, 13), 0);
    assert_eq!(legendre_symbol(13, 13), 0);
    assert_eq!(legendre_symbol(26, 13), 0);
    // modulo two the Euler power is one, which is also minus one
    assert_eq!(legendre_symbol(0, 2), 0);
    assert_eq!(legendre_symbol(1, 2), 0);
    assert_eq!(legendre_symbol(7, 2), 0);
}

#[test]
fn degenerate_inputs_give_the_sentinel() {
    assert_eq!(square_root(0, 13), (0, 0));
    assert_eq!(square_root(13, 13), (0, 0));
    assert_eq!(square_root(39, 13), (0, 0));
    assert_eq!(square_root(0, 2), (0, 0));
    assert_eq!(square_root(1, 2), (0, 0));
    assert_eq!(square_root(0, 23), (0, 0));
}

#[test]
fn fast_path_for_three_modulo_four() {
    // 13^((23 + 1) / 4) = 13^6 = 6 modulo 23
    assert_eq!(square_root(13, 23), (6, 17));
    // 2^((7 + 1) / 4) = 4 modulo 7
    assert_eq!(square_root(2, 7), (4, 3));
    assert_eq!(square_root(3, 7), (0, 0));
    for a in 0..103u128 {
        check_roots(a, 103);
    }
}

#[test]
fn general_path_with_high_power_of_two() {
    // 257 - 1 = 2^8 and 12289 - 1 = 2^12 * 3
    for a in 0..257u128 {
        check_roots(a, 257);
    }
    for a in 1..400u128 {
        check_roots(a, 12289);
    }
    let roots = square_root(4, 257);
    assert!(roots == (2, 255) || roots == (255, 2));
}

#[test]
fn square_exact_values() {
    assert_eq!(square(0, 13), 0);
    assert_eq!(square(12, 13), 1);
    assert_eq!(square(13, 13), 0);
    assert_eq!(square(100, 7), 4);
    assert_eq!(square(1, 2), 1);
    assert_eq!(square(51, 65521), 2601);
    assert_eq!(square(65521 - 51, 65521), 2601);
}

#[test]
fn no_overflow_near_the_upper_bound() {
    for p in [PRIME_56, PRIME_64] {
        assert_eq!(p % 4, 1);
        assert_eq!(square(51, p), 2601);
        assert_eq!(square(p - 51, p), 2601);
        assert_eq!(square(p - 1, p), 1);
        assert_eq!(square(u128::MAX, p), reference_square(u128::MAX, p));
        let roots = square_root(2601, p);
        assert!(roots == (51, p - 51) || roots == (p - 51, 51));
        for a in [2u128, 3, 5, 12, 1 << 40, p - 1, p - 2, p / 2, p / 3] {
            check_roots(a, p);
        }
    }
    // the largest modulus in range, 2^64, is not prime, but squaring modulo it is exact
    let top: u128 = 1 << 64;
    assert_eq!(square(top - 1, top), 1);
    assert_eq!(square(3, top), 9);
}

#[test]
fn hard_primes_found() {
    assert_eq!(find_largest_prime(8), (241, 4)); // 240 = 2^4 * 15
    assert_eq!(find_largest_prime(7), (113, 4)); // 112 = 2^4 * 7
    assert_eq!(find_largest_prime(6), (61, 2)); // 60 = 2^2 * 15
    assert_eq!(find_largest_prime(5), (29, 2));
    assert_eq!(find_largest_prime(4), (13, 2));
    assert_eq!(find_largest_prime(3), (5, 2));
    assert_eq!(find_largest_prime(14).0, 16381);
    assert_eq!(find_largest_prime(16).0, 65521);
    assert_eq!(find_largest_prime(32).0, 4294967197);
    assert_eq!(find_largest_prime(40).0, 1099511627689);
    for l in 3..=24usize {
        let (p, e) = find_largest_prime(l);
        assert_eq!((p - 1) % 4, 0);
        assert!(p < (1 << l));
        assert!(2 <= e && (e as usize) < l);
        assert_eq!((p - 1) % (1 << e), 0);
        assert_eq!(((p - 1) >> e) % 2, 1);
    }
}

#[test]
fn no_hard_prime_below_eight() {
    assert_eq!(find_largest_prime(0), (0, 0));
    assert_eq!(find_largest_prime(1), (0, 0));
    assert_eq!(find_largest_prime(2), (0, 0));
}

#[test]
fn found_prime_is_the_largest() {
    // between 241 and 256 the primes are 251, which is 3 modulo 4, and no other
    let (p, _) = find_largest_prime(8);
    for t in (p + 1)..256 {
        let prime = (2..t).all(|d| t % d != 0);
        assert!(!(prime && t % 4 == 1));
    }
}

#[test]
fn found_prime_feeds_the_square_root() {
    let (p, _) = find_largest_prime(20);
    for a in 1..200u128 {
        check_roots(a, p);
    }
}

#[test]
fn two_adic_split_exact_values() {
    assert_eq!(two_adic_split(240), (4, 15));
    assert_eq!(two_adic_split(1), (0, 1));
    assert_eq!(two_adic_split(7), (0, 7));
    assert_eq!(two_adic_split(1 << 127), (127, 1));
    assert_eq!(two_adic_split(u128::MAX), (0, u128::MAX));
    assert_eq!(two_adic_split(96), (5, 3));
}

#[test]
fn power_of_two_exact_values() {
    assert_eq!(power_of_two(0), 1);
    assert_eq!(power_of_two(1), 2);
    assert_eq!(power_of_two(10), 1024);
    assert_eq!(power_of_two(64), 1 << 64);
    assert_eq!(power_of_two(127), 1 << 127);
}

#[test]
fn demonstration_round_trip() {
    let outcome = demo();
    assert_eq!(outcome.prime, 16381);
    assert!(outcome.succeeded());
    assert_eq!(outcome.square, DEMO_PLAIN_TEXT);
    assert_eq!(outcome.roots.0 + outcome.roots.1, outcome.prime);
    assert_eq!(reference_square(outcome.roots.0, outcome.prime), 12);
}

#[test]
fn supplied_exponent_gives_the_same_roots() {
    for l in [3usize, 6, 7, 8, 14, 20] {
        let (p, e) = find_largest_prime(l);
        for a in 1..60u128 {
            assert_eq!(square_root_with_exponent(a, p, Some(e)), square_root(a, p));
            assert_eq!(square_root_with_exponent(a, p, None), square_root(a, p));
        }
    }
    // 257 - 1 = 2^8
    assert_eq!(square_root_with_exponent(4, 257, Some(8)), square_root(4, 257));
    // on the fast path the exponent is not looked at: 23 - 1 = 2 * 11
    assert_eq!(square_root_with_exponent(13, 23, Some(1)), (6, 17));
}

#[test]
fn tonelli_shanks_exact_values() {
    // 13 - 1 = 2^2 * 3, and 2 is the least non-residue modulo 13
    // 9: x = 9^2 = 3 and b = 9^3 = 1, so the iteration ends at once
    assert_eq!(square_root(9, 13), (3, 10));
    // 4: x = 3 and b = 12 of order 2; one round multiplies x by 2^3 = 8
    assert_eq!(square_root(4, 13), (11, 2));
    // 12: x = 1 and b = 12 of order 2; one round multiplies x by 8
    assert_eq!(square_root(12, 13), (8, 5));
}
