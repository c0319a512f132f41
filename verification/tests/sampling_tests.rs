use taus_rng::{choice, integers, shuffle, taus_get, taus_set, uniform_int, GeneratorState, SamplingError};

fn state(s1: u32, s2: u32, s3: u32) -> GeneratorState {
    GeneratorState { s1, s2, s3 }
}

fn is_permutation(values: &[u32]) -> bool {
    let mut seen = vec![false; values.len()];
    for &v in values {
        if v as usize >= values.len() || seen[v as usize] {
            return false;
        }
        seen[v as usize] = true;
    }
    true
}

fn sorted(values: &[u32]) -> Vec<u32> {
    let mut v = values.to_vec();
    v.sort();
    v
}

#[test]
fn integers_gives_known_values() {
    let st = taus_set(42);
    assert_eq!(
        integers(st, 8, -5, 11),
        Ok((state(3857452568, 4088222281, 1579184122), vec![3, 1, 3, 5, 1, 0, -5, -2]))
    );
}

#[test]
fn integers_are_offset_uniform_ints() {
    let st = taus_set(8);
    let (end, values) = integers(st, 50, 1_000_000_000_000, 6).unwrap();
    let mut walk = st;
    for v in values {
        let (next, k) = uniform_int(walk, 6).unwrap();
        assert_eq!(v, 1_000_000_000_000 + k as i64);
        walk = next;
    }
    assert_eq!(walk, end);
}

#[test]
fn integers_stay_in_their_interval() {
    let cases: [(i64, u32); 5] =
        [(0, 1), (-3, 7), (i64::MIN, 0xFFFF_FFFF), (i64::MAX - 9, 10), (100, 0x8000_0001)];
    for (low, gap) in cases {
        let (_, values) = integers(taus_set(11), 500, low, gap).unwrap();
        assert_eq!(values.len(), 500);
        for v in values {
            assert!(low <= v && (v as i128) < low as i128 + gap as i128);
        }
    }
}

#[test]
fn integers_with_no_count_draws_nothing() {
    let st = taus_set(4);
    assert_eq!(integers(st, 0, 5, 3), Ok((st, vec![])));
}

#[test]
fn integers_refuses_an_empty_interval() {
    assert_eq!(integers(taus_set(4), 3, 0, 0), Err(SamplingError::InvalidArgument));
    assert_eq!(integers(taus_set(4), 0, 0, 0), Err(SamplingError::InvalidArgument));
}

#[test]
fn shuffle_gives_a_known_permutation() {
    let st = taus_set(42);
    assert_eq!(
        shuffle(st, 10),
        (state(3236007045, 987047070, 3757433954), vec![1, 4, 9, 0, 2, 3, 6, 8, 5, 7])
    );
}

#[test]
fn shuffle_of_one_is_zero() {
    let st = taus_set(42);
    assert_eq!(shuffle(st, 1), (st, vec![0]));
}

#[test]
fn shuffle_of_none_is_empty() {
    let st = taus_set(42);
    assert_eq!(shuffle(st, 0), (st, vec![]));
}

#[test]
fn shuffle_always_permutes() {
    let mut st = taus_set(77);
    for n in 1..200u32 {
        let (next, values) = shuffle(st, n);
        assert_eq!(values.len(), n as usize);
        assert!(is_permutation(&values));
        st = next;
    }
}

#[test]
fn shuffle_draws_once_for_each_place_but_the_first() {
    let st = taus_set(5);
    let (end, _) = shuffle(st, 2);
    // One draw below 2: an output below 2^32 - 1 is never rejected then.
    assert_eq!(end, taus_get(st).0);
}

#[test]
fn choice_without_replacement_gives_known_samples() {
    let st = taus_set(42);
    assert_eq!(
        choice(st, 5, 20, false, false),
        Ok((state(3193112461, 2349709093, 952295007), vec![6, 7, 8, 13, 16]))
    );
    assert_eq!(
        choice(st, 5, 20, false, true),
        Ok((state(1615471256, 3072713179, 1419398111), vec![13, 8, 16, 6, 7]))
    );
}

#[test]
fn choice_with_replacement_gives_known_sample() {
    let st = taus_set(42);
    assert_eq!(
        choice(st, 7, 3, true, false),
        Ok((state(3139329728, 792384804, 2452270864), vec![2, 1, 2, 2, 1, 1, 0]))
    );
    assert_eq!(choice(st, 7, 3, true, true), choice(st, 7, 3, true, false));
}

#[test]
fn choice_without_replacement_is_ascending_and_full() {
    let mut st = taus_set(13);
    for n in [0u32, 1, 2, 5, 17, 100] {
        for count in [0u32, 1, 2, 5, 17, 100, 250] {
            let (next, values) = choice(st, count, n, false, false).unwrap();
            assert_eq!(values.len() as u32, count.min(n));
            for w in values.windows(2) {
                assert!(w[0] < w[1]);
            }
            for v in values {
                assert!(v < n);
            }
            st = next;
        }
    }
}

#[test]
fn choice_of_more_than_there_is_gives_everything() {
    let st = taus_set(42);
    assert_eq!(
        choice(st, 30, 8, false, false),
        Ok((state(3857452568, 4088222281, 1579184122), vec![0, 1, 2, 3, 4, 5, 6, 7]))
    );
    assert_eq!(
        choice(st, 30, 8, false, true),
        Ok((state(2819886270, 2659978679, 1876978929), vec![5, 4, 0, 2, 6, 7, 3, 1]))
    );
}

#[test]
fn choice_with_permutation_keeps_the_sample() {
    let mut st = taus_set(21);
    for _ in 0..50 {
        let (mid, plain) = choice(st, 12, 40, false, false).unwrap();
        let (end, mixed) = choice(st, 12, 40, false, true).unwrap();
        assert_eq!(sorted(&mixed), plain);
        let (after, order) = shuffle(mid, 12);
        assert_eq!(end, after);
        let by_order: Vec<u32> = order.iter().map(|&k| plain[k as usize]).collect();
        assert_eq!(mixed, by_order);
        st = end;
    }
}

#[test]
fn choice_with_permutation_reaches_every_order() {
    let mut st = taus_set(31);
    let mut seen: Vec<Vec<u32>> = Vec::new();
    for _ in 0..200 {
        let (next, mixed) = choice(st, 3, 3, false, true).unwrap();
        if !seen.contains(&mixed) {
            seen.push(mixed);
        }
        st = next;
    }
    assert_eq!(seen.len(), 6);
}

#[test]
fn choice_with_replacement_has_the_length_asked_for() {
    let st = taus_set(9);
    let (_, values) = choice(st, 1000, 4, true, false).unwrap();
    assert_eq!(values.len(), 1000);
    for k in 0..4u32 {
        assert!(values.iter().filter(|&&v| v == k).count() > 1);
    }
    assert_eq!(choice(st, 0, 4, true, false), Ok((st, vec![])));
}

#[test]
fn choice_with_replacement_is_a_run_of_uniform_ints() {
    let st = taus_set(9);
    let (end, values) = choice(st, 40, 7, true, false).unwrap();
    let mut walk = st;
    for v in values {
        let (next, k) = uniform_int(walk, 7).unwrap();
        assert_eq!(v, k);
        walk = next;
    }
    assert_eq!(walk, end);
}

#[test]
fn choice_with_replacement_refuses_no_candidates() {
    assert_eq!(choice(taus_set(9), 3, 0, true, false), Err(SamplingError::InvalidArgument));
    assert_eq!(choice(taus_set(9), 0, 0, true, true), Err(SamplingError::InvalidArgument));
}

#[test]
fn choice_without_replacement_from_nothing_is_empty() {
    let st = taus_set(9);
    assert_eq!(choice(st, 3, 0, false, false), Ok((st, vec![])));
    assert_eq!(choice(st, 3, 0, false, true), Ok((st, vec![])));
    assert_eq!(choice(st, 0, 5, false, true), Ok((st, vec![])));
}

#[test]
fn choice_draws_once_for_each_candidate_visited() {
    let st = taus_set(17);
    let (end, values) = choice(st, 4, 4, false, false).unwrap();
    assert_eq!(values, vec![0, 1, 2, 3]);
    let mut walk = st;
    for _ in 0..4 {
        walk = taus_get(walk).0;
    }
    assert_eq!(end, walk);
}

#[test]
fn same_calls_give_same_results() {
    let run = |seed: u32| {
        let st = taus_set(seed);
        let (st, a) = integers(st, 20, -100, 201).unwrap();
        let (st, b) = shuffle(st, 30);
        let (st, c) = choice(st, 10, 50, false, true).unwrap();
        let (st, d) = choice(st, 10, 5, true, false).unwrap();
        (st, a, b, c, d)
    };
    assert_eq!(run(314), run(314));
    assert_ne!(run(314), run(315));
}
