use gmp::mpz::Mpz;
use gmp::sign::Sign;

#[test]
fn zero_and_from_u64_compare_equal() {
    assert_eq!(Mpz::new(), Mpz::from_u64(0));
    assert_eq!(Mpz::from_u64(7), Mpz::from_u64(7));
    assert!(Mpz::from_u64(7) != Mpz::from_u64(8));
}

#[test]
fn comparison_is_three_way() {
    let a = Mpz::from_u64(100);
    let b = Mpz::from_u64(0x1_0000_0001);
    assert_eq!(a.cmp_value(&b), Sign::Less);
    assert_eq!(b.cmp_value(&a), Sign::Greater);
    assert_eq!(a.cmp_value(&Mpz::from_u64(100)), Sign::Equal);
}

#[test]
fn bit_length_exact_values() {
    assert_eq!(Mpz::new().bit_length(), 0);
    assert_eq!(Mpz::from_u64(1).bit_length(), 1);
    assert_eq!(Mpz::from_u64(255).bit_length(), 8);
    assert_eq!(Mpz::from_u64(256).bit_length(), 9);
    assert_eq!(Mpz::from_u64(u64::MAX).bit_length(), 64);
}

#[test]
fn low_bits_of_small_values() {
    assert_eq!(Mpz::from_u64(0xdead_beef_0123_4567).low_u64(), 0xdead_beef_0123_4567);
    assert_eq!(Mpz::new().low_u64(), 0);
}
