use hardprime::{find_largest_prime, legendre_symbol, square, square_root};

#[test]
fn lib_square_test() {
    assert_eq!(9, square(3, 13)); // 3**2 = 9 mod 13
    assert_eq!(4, square(2, 13)); // 2**2 = 4 mod 13
    assert_eq!(12, square(5, 13)); // 5**2 = 12 mod 13
}

#[test]
fn lib_square_root_test() {
    // two combinations are possible in each scenario
    let mut res = square_root(9, 13); // 3**2 = 9 mod 13, also 10 is a root
    if res != (3, 10) && res != (10, 3) {
        panic!("Should have been equal to at least one of them");
    }

    res = square_root(4, 13); // 2**2 = 4 mod 13, also 11 is a root
    if res != (2, 11) && res != (11, 2) {
        panic!("Should have been equal to at least one of them");
    }

    res = square_root(12, 13); // 5**2 = 12 mod 13, also 8 is a root
    if res != (5, 8) && res != (8, 5) {
        panic!("Should have been equal to at least one of them");
    }
}

#[test]
fn lib_legendre_symbol_test() {
    assert_eq!(1, legendre_symbol(9, 13)); // 3**2 = 9 mod 13
    assert_eq!(1, legendre_symbol(4, 13)); // 2**2 = 4 mod 13
    assert_eq!(1, legendre_symbol(12, 13)); // 5**2 = 12 mod 13
}

#[test]
fn lib_find_largest_prime_test() {
    assert_eq!(241, find_largest_prime(8).0); // the largest hard prime with 8 bits
    assert_eq!(113, find_largest_prime(7).0); // the largest hard prime with 7 bits
    assert_eq!(61, find_largest_prime(6).0); // the largest hard prime with 6 bits

    assert!(8 >= find_largest_prime(8).1);
    assert!(7 >= find_largest_prime(7).1);
    assert!(6 >= find_largest_prime(6).1);
}

#[test]
fn main_square_test() {
    assert_eq!(9, square(3, 13)); // 3**2 = 9 mod 13
    assert_eq!(4, square(2, 13)); // 2**2 = 4 mod 13
    assert_eq!(12, square(5, 13)); // 5**2 = 12 mod 13
}

#[test]
fn main_square_root_test() {
    let mut res = square_root(9, 13); // 3**2 = 9 mod 13, also 10 is a root
    if res != (3, 10) && res != (10, 3) {
        panic!("Should have been equal to at least one of them");
    }

    res = square_root(4, 13); // 2**2 = 4 mod 13, also 11 is a root
    if res != (2, 11) && res != (11, 2) {
        panic!("Should have been equal to at least one of them");
    }

    res = square_root(12, 13); // 5**2 = 12 mod 13, also 8 is a root
    if res != (5, 8) && res != (8, 5) {
        panic!("Should have been equal to at least one of them");
    }
}

#[test]
fn main_legendre_symbol_test() {
    assert_eq!(1, legendre_symbol(9, 13)); // 3**2 = 9 mod 13
    assert_eq!(1, legendre_symbol(4, 13)); // 2**2 = 4 mod 13
    assert_eq!(1, legendre_symbol(12, 13)); // 5**2 = 12 mod 13
}

#[test]
fn main_find_largest_prime_test() {
    assert_eq!(241, find_largest_prime(8).0); // the largest hard prime with 8 bits
    assert_eq!(113, find_largest_prime(7).0); // the largest hard prime with 7 bits
    assert_eq!(61, find_largest_prime(6).0); // the largest hard prime with 6 bits
}
