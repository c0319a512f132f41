use taus_rng::{
    random, taus_get, taus_get_float, taus_set, tausworthe, uniform_int, GeneratorState,
    SamplingError,
};

fn state(s1: u32, s2: u32, s3: u32) -> GeneratorState {
    GeneratorState { s1, s2, s3 }
}

#[test]
fn tausworthe_follows_the_formula() {
    let s: u32 = 0x1234_5678;
    let expected = ((s & 0xFFFF_FFFE) << 12) ^ (((s << 13) ^ s) >> 19);
    assert_eq!(tausworthe(s, 13, 19, 0xFFFF_FFFE, 12), expected);
    assert_eq!(tausworthe(s, 13, 19, 0xFFFF_FFFE, 12), 1164415775);
    assert_eq!(tausworthe(0, 2, 25, 0xFFFF_FFF8, 4), 0);
}

#[test]
fn taus_get_steps_every_register() {
    let st = state(3121265377, 3118757698, 1289191218);
    let (next, value) = taus_get(st);
    assert_eq!(next.s1, tausworthe(st.s1, 13, 19, 4294967294, 12));
    assert_eq!(next.s2, tausworthe(st.s2, 2, 25, 4294967288, 4));
    assert_eq!(next.s3, tausworthe(st.s3, 3, 11, 4294967280, 17));
    assert_eq!(value, next.s1 ^ next.s2 ^ next.s3);
    assert_eq!(value, 3414959125);
}

#[test]
fn taus_get_on_dead_registers_gives_zero() {
    assert_eq!(taus_get(state(1, 2, 3)), (state(0, 0, 0), 0));
    assert_eq!(taus_get(state(0, 0, 0)), (state(0, 0, 0), 0));
}

#[test]
fn taus_set_gives_known_states() {
    assert_eq!(taus_set(1), state(858228033, 728354164, 2782359688));
    assert_eq!(taus_set(42), state(3121265377, 3118757698, 1289191218));
    assert_eq!(taus_set(12345), state(449434556, 597028893, 3579035703));
    assert_eq!(taus_set(0xFFFF_FFFF), state(3437200000, 3546926452, 3558305975));
}

#[test]
fn taus_set_raises_registers_that_start_too_low() {
    // 69069 * 2783094533 is 1 modulo 2^32: the first register starts at 1 + 2.
    assert_eq!(69069u32.wrapping_mul(2783094533), 1);
    assert_eq!(taus_set(2783094533), state(526402, 1610644583, 1198574503));
    // Here the second register would start at 5, and starts at 5 + 8.
    assert_eq!(taus_set(3539574397), state(348172286, 134217729, 3249983212));
    // Here the third register would start at 9, and starts at 9 + 16.
    assert_eq!(taus_set(3400882533), state(28179327, 741950748, 2453667904));
}

#[test]
fn seed_zero_is_seed_one() {
    assert_eq!(taus_set(0), taus_set(1));
    let (a, x) = random(taus_set(0), 100);
    let (b, y) = random(taus_set(1), 100);
    assert_eq!(a, b);
    assert_eq!(x, y);
}

#[test]
fn seeded_registers_are_live_and_stay_live() {
    for seed in [0u32, 1, 2, 7, 42, 0x8000_0000, 0xFFFF_FFFF] {
        let mut st = taus_set(seed);
        for _ in 0..1000 {
            assert!(st.s1 >= 2 && st.s2 >= 8 && st.s3 >= 16);
            st = taus_get(st).0;
        }
    }
}

#[test]
fn taus_get_float_is_the_output_over_two_to_the_32() {
    let st = taus_set(42);
    let (next, bits) = taus_get_float(st);
    assert_eq!(next, taus_get(st).0);
    assert_eq!(f64::from_bits(bits), 3414959125.0 / 4294967296.0);
    assert_eq!(bits, 0x3FE9_7184_82A0_0000);
    let (_, zero) = taus_get_float(state(0, 0, 0));
    assert_eq!(f64::from_bits(zero), 0.0);
}

#[test]
fn random_gives_the_successive_fractions() {
    let st = taus_set(42);
    let (end, values) = random(st, 5);
    let outputs: [u32; 5] = [3414959125, 2659993108, 3194772521, 4279482208, 2582472681];
    assert_eq!(end, state(2404910011, 1949252309, 1654283911));
    assert_eq!(values.len(), 5);
    let mut walk = st;
    for (v, out) in values.iter().zip(outputs) {
        let (next, raw) = taus_get(walk);
        assert_eq!(raw, out);
        assert_eq!(f64::from_bits(*v), raw as f64 / 4294967296.0);
        walk = next;
    }
    assert_eq!(walk, end);
    assert_eq!(random(st, 0), (st, vec![]));
}

#[test]
fn random_stays_in_the_unit_interval() {
    let (_, values) = random(taus_set(6), 50_000);
    let mut sum: f64 = 0.0;
    for v in values {
        let x = f64::from_bits(v);
        assert!(0.0 <= x && x < 1.0);
        sum += x;
    }
    assert!((sum / 50_000.0 - 0.5).abs() < 0.01);
}

#[test]
fn same_seed_same_sequence() {
    let (a, x) = random(taus_set(99), 1000);
    let (b, y) = random(taus_set(99), 1000);
    assert_eq!(a, b);
    assert_eq!(x, y);
    let (_, z) = random(taus_set(100), 1000);
    assert_ne!(y, z);
}

#[test]
fn uniform_int_takes_the_first_accepted_draw() {
    let st = taus_set(42);
    assert_eq!(uniform_int(st, 10), Ok((state(2880314794, 2655482927, 4268051856), 7)));
    // The first output, 3414959125, is not below 3000000000 and is rejected.
    assert_eq!(
        uniform_int(st, 3_000_000_000),
        Ok((state(3789204739, 3833021171, 2602674660), 2659993108))
    );
}

#[test]
fn uniform_int_with_one_gives_zero() {
    let st = taus_set(5);
    let (next, k) = uniform_int(st, 1).unwrap();
    assert_eq!(k, 0);
    assert_eq!(next, taus_get(st).0);
}

#[test]
fn uniform_int_refuses_zero() {
    assert_eq!(uniform_int(taus_set(1), 0), Err(SamplingError::InvalidArgument));
}

#[test]
fn uniform_int_stays_below_its_bound() {
    let mut st = taus_set(3);
    for n in [1u32, 2, 3, 10, 1000, 0x7FFF_FFFF, 0x8000_0000, 0x8000_0001, 0xFFFF_FFFF] {
        for _ in 0..2000 {
            let (next, k) = uniform_int(st, n).unwrap();
            assert!(k < n);
            st = next;
        }
    }
}

#[test]
fn uniform_int_ends_even_from_dead_registers() {
    let (next, k) = uniform_int(state(0, 0, 0), 0xFFFF_FFFF).unwrap();
    assert_eq!((next, k), (state(0, 0, 0), 0));
}

#[test]
fn uniform_int_is_uniform_over_ten_values() {
    let mut st = taus_set(2024);
    let mut counts = [0u32; 10];
    for _ in 0..100_000 {
        let (next, k) = uniform_int(st, 10).unwrap();
        counts[k as usize] += 1;
        st = next;
    }
    assert_eq!(counts, [10162, 9893, 9890, 9980, 10019, 10064, 9979, 10217, 9877, 9919]);
    let mut chi_square: f64 = 0.0;
    for c in counts {
        let d = c as f64 - 10_000.0;
        chi_square += d * d / 10_000.0;
    }
    // 16.92 is the 5% point of chi-square with 9 degrees of freedom.
    assert!(chi_square < 16.92);
}

#[test]
fn state_is_its_three_words() {
    let st = GeneratorState::from_words([5, 6, 7]);
    assert_eq!(st, state(5, 6, 7));
    assert_eq!(st.to_words(), [5, 6, 7]);
    assert_eq!(GeneratorState::from_words(taus_set(42).to_words()), taus_set(42));
}
