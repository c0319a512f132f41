use taus_rng::{discrete, taus_set, AliasBuilder, AliasTable, Level, Pairing, SamplingError};

// The shares and cutoffs are the caller's to compute: this is the arithmetic
// that goes with the builder's decisions.
fn preprocess(weights: &[f64]) -> (AliasTable, Vec<f64>) {
    let k = weights.len();
    let mut total: f64 = weights.iter().sum();
    if total <= 0.0 {
        total = 2.22e-16;
    }
    let mut share: Vec<f64> = weights.iter().map(|w| w / total).collect();
    let mut cutoff: Vec<f64> = vec![0.0; k];
    let mean = 1.0 / k as f64;
    let below: Vec<bool> = share.iter().map(|s| *s < mean).collect();
    let mut builder = AliasBuilder::new(&below).unwrap();
    let mut level = Level::At;
    loop {
        let (next, pairing) = builder.next(level);
        builder = next;
        match pairing {
            Pairing::Done => break,
            Pairing::Keep { bucket } => cutoff[bucket as usize] = 1.0,
            Pairing::Pair { small, big } => {
                let (s, b) = (small as usize, big as usize);
                cutoff[s] = k as f64 * share[s];
                let d = mean - share[s];
                share[s] += d;
                share[b] -= d;
                level = if share[b] < mean {
                    Level::Below
                } else if share[b] > mean {
                    Level::Above
                } else {
                    cutoff[b] = 1.0;
                    Level::At
                };
            }
        }
    }
    for i in 0..k {
        cutoff[i] = (cutoff[i] + i as f64) / k as f64;
    }
    let bits: Vec<u64> = cutoff.iter().map(|f| f.to_bits()).collect();
    (builder.finish(bits).unwrap(), cutoff)
}

// The same method written in one piece, with the worklists in the open.
fn preprocess_in_one_piece(weights: &[f64]) -> (Vec<u32>, Vec<f64>) {
    let k = weights.len();
    let mut total: f64 = weights.iter().sum();
    if total <= 0.0 {
        total = 2.22e-16;
    }
    let mut share: Vec<f64> = weights.iter().map(|w| w / total).collect();
    let mut alias: Vec<u32> = vec![0; k];
    let mut cutoff: Vec<f64> = vec![0.0; k];
    let mean = 1.0 / k as f64;
    let mut bigs: Vec<u32> = Vec::new();
    let mut smalls: Vec<u32> = Vec::new();
    for i in 0..k {
        if share[i] < mean {
            smalls.push(i as u32);
        } else {
            bigs.push(i as u32);
        }
    }
    while smalls.len() > 0 {
        let s = smalls.pop().unwrap() as usize;
        if bigs.len() == 0 {
            alias[s] = s as u32;
            cutoff[s] = 1.0;
            continue;
        }
        let b = bigs.pop().unwrap() as usize;
        alias[s] = b as u32;
        cutoff[s] = k as f64 * share[s];
        let d = mean - share[s];
        share[s] += d;
        share[b] -= d;
        if share[b] < mean {
            smalls.push(b as u32);
        } else if share[b] > mean {
            bigs.push(b as u32);
        } else {
            alias[b] = b as u32;
            cutoff[b] = 1.0;
        }
    }
    while bigs.len() > 0 {
        let b = bigs.pop().unwrap() as usize;
        alias[b] = b as u32;
        cutoff[b] = 1.0;
    }
    for i in 0..k {
        cutoff[i] = (cutoff[i] + i as f64) / k as f64;
    }
    (alias, cutoff)
}

#[test]
fn builder_pairs_the_last_small_with_the_last_big() {
    // Buckets 0 and 2 are small, 1 and 3 are big.
    let builder = AliasBuilder::new(&vec![true, false, true, false]).unwrap();
    assert_eq!(builder.bucket_count(), 4);
    assert!(!builder.is_done());
    let (builder, p) = builder.next(Level::At);
    assert_eq!(p, Pairing::Pair { small: 2, big: 3 });
    // Bucket 3 has come below the mean: it is the small bucket to go next.
    let (builder, p) = builder.next(Level::Below);
    assert_eq!(p, Pairing::Pair { small: 3, big: 1 });
    // Bucket 1 stays above the mean, and meets bucket 0.
    let (builder, p) = builder.next(Level::Above);
    assert_eq!(p, Pairing::Pair { small: 0, big: 1 });
    // Bucket 1 has come down to the mean: it keeps itself, and all is done.
    let (builder, p) = builder.next(Level::At);
    assert_eq!(p, Pairing::Done);
    assert!(builder.is_done());
    let one = (1.0f64).to_bits();
    let table = builder.finish(vec![one, one, one, one]).unwrap();
    assert_eq!(table.alias_of(), &vec![1, 1, 3, 1]);
    assert_eq!(table.bucket_count(), 4);
}

#[test]
fn builder_lets_lone_buckets_keep_themselves() {
    let builder = AliasBuilder::new(&vec![true, true]).unwrap();
    let (builder, p) = builder.next(Level::Above);
    assert_eq!(p, Pairing::Keep { bucket: 1 });
    let (builder, p) = builder.next(Level::Above);
    assert_eq!(p, Pairing::Keep { bucket: 0 });
    let (builder, p) = builder.next(Level::Above);
    assert_eq!(p, Pairing::Done);
    assert_eq!(builder.finish(vec![0, 0]).unwrap().alias_of(), &vec![0, 1]);

    let builder = AliasBuilder::new(&vec![false, false, false]).unwrap();
    let (builder, p) = builder.next(Level::At);
    assert_eq!(p, Pairing::Keep { bucket: 2 });
    let (builder, p) = builder.next(Level::At);
    assert_eq!(p, Pairing::Keep { bucket: 1 });
    let (builder, p) = builder.next(Level::At);
    assert_eq!(p, Pairing::Keep { bucket: 0 });
    let (builder, p) = builder.next(Level::At);
    assert_eq!(p, Pairing::Done);
    let (builder, p) = builder.next(Level::Below);
    assert_eq!(p, Pairing::Done);
    assert!(builder.is_done());
}

#[test]
fn builder_refuses_no_buckets() {
    assert!(matches!(AliasBuilder::new(&vec![]), Err(SamplingError::InvalidArgument)));
}

#[test]
fn builder_does_not_finish_early() {
    let builder = AliasBuilder::new(&vec![true, false]).unwrap();
    assert!(matches!(builder.finish(vec![0, 0]), Err(SamplingError::InvalidArgument)));
    let builder = AliasBuilder::new(&vec![true, false]).unwrap();
    let (builder, p) = builder.next(Level::At);
    assert_eq!(p, Pairing::Pair { small: 0, big: 1 });
    // The level of bucket 1 has not been reported yet.
    assert!(!builder.is_done());
    assert!(matches!(builder.finish(vec![0, 0]), Err(SamplingError::InvalidArgument)));
    let builder = AliasBuilder::new(&vec![false]).unwrap();
    let (builder, _) = builder.next(Level::At);
    assert!(matches!(builder.finish(vec![0, 0]), Err(SamplingError::InvalidArgument)));
}

#[test]
fn builder_ends_within_one_step_more_than_buckets() {
    let mut st = taus_set(3);
    for k in 1..60usize {
        let mut flags = Vec::new();
        for _ in 0..k {
            let (next, r) = taus_rng::taus_get(st);
            st = next;
            flags.push(r % 3 == 0);
        }
        let mut builder = AliasBuilder::new(&flags).unwrap();
        let mut steps = 0;
        loop {
            let (next, r) = taus_rng::taus_get(st);
            st = next;
            let level = match r % 3 {
                0 => Level::Below,
                1 => Level::At,
                _ => Level::Above,
            };
            let (after, pairing) = builder.next(level);
            builder = after;
            steps += 1;
            if pairing == Pairing::Done {
                break;
            }
        }
        assert!(steps <= k + 1);
        let table = builder.finish(vec![0; k]).unwrap();
        assert!(table.alias_of().iter().all(|&a| (a as usize) < k));
    }
}

#[test]
fn preprocessing_gives_known_tables() {
    let (t, cutoff) = preprocess(&[1.0, 1.0, 1.0, 1.0]);
    assert_eq!(t.alias_of(), &vec![0, 1, 2, 3]);
    assert_eq!(cutoff, vec![0.25, 0.5, 0.75, 1.0]);

    let (t, cutoff) = preprocess(&[1.0, 0.0, 0.0, 0.0]);
    assert_eq!(t.alias_of(), &vec![0, 0, 0, 0]);
    assert_eq!(cutoff, vec![0.25, 0.25, 0.5, 0.75]);

    let (t, cutoff) = preprocess(&[0.1, 0.2, 0.3, 0.4]);
    assert_eq!(t.bucket_count(), 4);
    assert_eq!(t.alias_of(), &vec![3, 3, 2, 2]);
    assert_eq!(cutoff, vec![0.1, 0.45, 0.75, 0.9500000000000001]);
    assert_eq!(
        t.cutoff_bits(),
        &vec![4591870180066957722, 4601778099247172813, 4604930618986332160, 4606732058837280359]
    );

    let (t, cutoff) = preprocess(&[5.0]);
    assert_eq!(t.alias_of(), &vec![0]);
    assert_eq!(cutoff, vec![1.0]);
}

#[test]
fn preprocessing_of_weights_without_sum_keeps_every_bucket() {
    // The weights are divided by a tiny number in place of their sum, so
    // every share is zero or below, and every bucket ends up keeping itself.
    let (t, cutoff) = preprocess(&[0.0, 0.0, 0.0]);
    assert_eq!(t.alias_of(), &vec![0, 1, 2]);
    assert_eq!(cutoff, vec![0.3333333333333333, 0.6666666666666666, 1.0]);
    let (t, cutoff) = preprocess(&[-1.0, -2.0]);
    assert!(cutoff.iter().all(|f| f.is_finite()));
    assert!(t.alias_of().iter().all(|&a| a < 2));
}

#[test]
fn preprocessing_agrees_with_the_method_in_one_piece() {
    let mut st = taus_set(41);
    for k in 1..40usize {
        for _ in 0..20 {
            let mut weights = Vec::new();
            for _ in 0..k {
                let (next, r) = taus_rng::taus_get(st);
                st = next;
                weights.push(if r % 5 == 0 { 0.0 } else { (r % 1000) as f64 / 7.0 });
            }
            let (t, cutoff) = preprocess(&weights);
            let (alias, expected) = preprocess_in_one_piece(&weights);
            assert_eq!(t.alias_of(), &alias);
            assert_eq!(cutoff, expected);
        }
    }
}

#[test]
fn equal_weights_give_equal_frequencies() {
    let (t, _) = preprocess(&[1.0, 1.0, 1.0, 1.0]);
    let (_, values) = discrete(taus_set(7), 40_000, &t);
    let mut counts = [0u32; 4];
    for v in values {
        counts[v as usize] += 1;
    }
    let mut chi_square: f64 = 0.0;
    for c in counts {
        let d = c as f64 - 10_000.0;
        chi_square += d * d / 10_000.0;
    }
    // 7.81 is the 5% point of chi-square with 3 degrees of freedom.
    assert!(chi_square < 7.81);
}

#[test]
fn a_single_weight_always_wins() {
    let (t, _) = preprocess(&[1.0, 0.0, 0.0, 0.0]);
    let (_, values) = discrete(taus_set(7), 10_000, &t);
    assert!(values.iter().all(|&v| v == 0));
}

#[test]
fn frequencies_follow_the_weights() {
    let weights = [3.0, 1.0, 0.0, 6.0, 2.0, 8.0];
    let (t, _) = preprocess(&weights);
    let (_, values) = discrete(taus_set(53), 200_000, &t);
    let mut counts = [0u32; 6];
    for v in values {
        counts[v as usize] += 1;
    }
    assert_eq!(counts[2], 0);
    for (k, c) in counts.iter().enumerate() {
        let expected = 200_000.0 * weights[k] / 20.0;
        assert!((*c as f64 - expected).abs() <= 0.03 * expected);
    }
}
