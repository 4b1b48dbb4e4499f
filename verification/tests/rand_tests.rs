use gmp::mpz::Mpz;
use gmp::rand::RandState;
use gmp::sign::Sign;

fn draw_some(state: &mut RandState, count: usize) -> Vec<Mpz> {
    let mut out = Vec::new();
    for _ in 0..count {
        out.push(state.urandom_2exp(32));
    }
    out
}

#[test]
fn clone_draws_identical_sequence_default() {
    let mut a = RandState::new();
    let mut b = a.clone();
    assert_eq!(draw_some(&mut a, 8), draw_some(&mut b, 8));
}

#[test]
fn clone_draws_identical_sequence_mt() {
    let mut a = RandState::new_mt();
    a.seed_ui(12345);
    let mut b = a.clone();
    assert_eq!(draw_some(&mut a, 8), draw_some(&mut b, 8));
}

#[test]
fn clone_draws_identical_sequence_lc_2exp() {
    let mut a = RandState::new_lc_2exp(Mpz::from_u64(6364136223846793005), 1442695040888963407, 64);
    a.seed_ui(99);
    let mut b = a.clone();
    assert_eq!(draw_some(&mut a, 8), draw_some(&mut b, 8));
}

#[test]
fn clone_draws_identical_sequence_lc_2exp_size() {
    let mut a = RandState::new_lc_2exp_size(48);
    a.seed_ui(7);
    let mut b = a.clone();
    assert_eq!(draw_some(&mut a, 8), draw_some(&mut b, 8));
}

#[test]
fn clones_evolve_independently() {
    let mut a = RandState::new();
    let mut b = a.clone();
    let first_a = draw_some(&mut a, 4);
    // advancing `a` further must not disturb `b`
    let _ = draw_some(&mut a, 4);
    assert_eq!(first_a, draw_some(&mut b, 4));
}

#[test]
fn clone_draws_identical_sequence_wide_lc() {
    let mut a = RandState::new_lc_2exp(Mpz::from_u64(6364136223846793005), 1442695040888963407, 100);
    a.seed_ui(77);
    let mut b = a.clone();
    assert_eq!(draw_some(&mut a, 8), draw_some(&mut b, 8));
}

#[test]
fn wide_modulus_advances_past_the_word_width() {
    // with multiplier 1 and addend 1 the state walks 2^64-1, 2^64, 2^64+1, ...
    // modulo 2^65; the emitted low words are the low words of those states
    let mut state = RandState::new_lc_2exp(Mpz::from_u64(1), 1, 65);
    state.seed_ui(u64::MAX);
    assert_eq!(state.urandom_2exp(32), Mpz::from_u64(0));
    assert_eq!(state.urandom_2exp(32), Mpz::from_u64(1));
    assert_eq!(state.urandom_2exp(32), Mpz::from_u64(2));
}

#[test]
fn wide_lc_urandom_stays_below_bound() {
    let mut state = RandState::new_lc_2exp(Mpz::from_u64(6364136223846793005), 1442695040888963407, 96);
    state.seed_ui(9);
    let n = Mpz::from_u64(1000);
    for _ in 0..200 {
        let v = state.urandom(&n);
        assert_eq!(v.cmp_value(&n), Sign::Less);
    }
}

#[test]
fn urandom_stays_below_bound() {
    let mut state = RandState::new();
    state.seed_ui(2024);
    let n = Mpz::from_u64(97);
    for _ in 0..1000 {
        let v = state.urandom(&n);
        assert_eq!(v.cmp_value(&n), Sign::Less);
    }
}

#[test]
fn urandom_below_large_bound() {
    let mut state = RandState::new();
    state.seed_ui(5);
    let n = state.urandom_2exp(100);
    if n.cmp_value(&Mpz::new()) == Sign::Greater {
        let v = state.urandom(&n);
        assert_eq!(v.cmp_value(&n), Sign::Less);
    }
}

#[test]
fn urandom_2exp_stays_below_power() {
    let mut state = RandState::new_mt();
    state.seed_ui(3);
    assert_eq!(state.urandom_2exp(0), Mpz::new());
    let bound8 = Mpz::from_u64(256);
    for _ in 0..200 {
        let v = state.urandom_2exp(8);
        assert_eq!(v.cmp_value(&bound8), Sign::Less);
    }
    for bits in [1u64, 31, 32, 33, 63, 64, 65, 100] {
        let v = state.urandom_2exp(bits);
        assert!(v.bit_length() <= bits);
    }
}

#[test]
fn reseeding_twice_equals_reseeding_once() {
    let mut once = RandState::new();
    once.seed_ui(4242);
    let mut twice = RandState::new();
    twice.seed_ui(4242);
    twice.seed_ui(4242);
    assert_eq!(draw_some(&mut once, 6), draw_some(&mut twice, 6));

    let mut lc_once = RandState::new_lc_2exp_size(64);
    lc_once.seed_ui(11);
    let mut lc_twice = RandState::new_lc_2exp_size(64);
    lc_twice.seed_ui(11);
    lc_twice.seed_ui(11);
    assert_eq!(draw_some(&mut lc_once, 6), draw_some(&mut lc_twice, 6));
}

#[test]
fn seeding_from_mpz_matches_native_seed() {
    let mut a = RandState::new();
    a.seed(Mpz::from_u64(31337));
    let mut b = RandState::new();
    b.seed_ui(31337);
    assert_eq!(draw_some(&mut a, 6), draw_some(&mut b, 6));
}

#[test]
fn seeded_byte_draws_reproduce_bit_for_bit() {
    let run = || {
        let mut state = RandState::new();
        state.seed_ui(42);
        let mut out = Vec::new();
        for _ in 0..3 {
            out.push(state.urandom_2exp(8));
        }
        out
    };
    assert_eq!(run(), run());
}

#[test]
fn sized_lc_generator_stays_in_range() {
    let mut state = RandState::new_lc_2exp_size(64);
    state.seed_ui(1);
    let n = Mpz::from_u64(100);
    for _ in 0..10000 {
        let v = state.urandom(&n);
        assert_eq!(v.cmp_value(&n), Sign::Less);
    }
}
