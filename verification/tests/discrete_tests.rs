use taus_rng::{discrete, taus_get, taus_set, AliasTable, GeneratorState, SamplingError};

fn table(alias_of: Vec<u32>, cutoff: Vec<f64>) -> AliasTable {
    let bits: Vec<u64> = cutoff.iter().map(|f| f.to_bits()).collect();
    match AliasTable::new(alias_of.len() as u32, alias_of, bits) {
        Ok(t) => t,
        Err(_) => panic!("not a valid table"),
    }
}

fn discrete_in_doubles(
    rng: GeneratorState,
    count: u32,
    buckets: u32,
    alias_of: &[u32],
    cutoff: &[f64],
) -> (GeneratorState, Vec<u32>) {
    let mut st = rng;
    let mut out = Vec::new();
    for _ in 0..count {
        let (next, raw) = taus_get(st);
        st = next;
        let u = raw as f64 / 4294967296.0;
        let c = (u * buckets as f64).floor() as u32;
        let f = cutoff[c as usize];
        if f == 1.0 || u < f {
            out.push(c);
        } else {
            out.push(alias_of[c as usize]);
        }
    }
    (st, out)
}

#[test]
fn alias_table_keeps_its_parts() {
    let t = table(vec![3, 3, 2, 2], vec![0.1, 0.45, 0.75, 0.9500000000000001]);
    assert_eq!(t.bucket_count(), 4);
    assert_eq!(t.alias_of(), &vec![3, 3, 2, 2]);
    assert_eq!(
        t.cutoff_bits(),
        &vec![4591870180066957722, 4601778099247172813, 4604930618986332160, 4606732058837280359]
    );
}

#[test]
fn alias_table_refuses_invalid_parts() {
    let one = (1.0f64).to_bits();
    assert!(matches!(AliasTable::new(0, vec![], vec![]), Err(SamplingError::InvalidArgument)));
    assert!(matches!(
        AliasTable::new(2, vec![0], vec![one, one]),
        Err(SamplingError::InvalidArgument)
    ));
    assert!(matches!(
        AliasTable::new(2, vec![0, 1], vec![one]),
        Err(SamplingError::InvalidArgument)
    ));
    assert!(matches!(
        AliasTable::new(2, vec![0, 2], vec![one, one]),
        Err(SamplingError::InvalidArgument)
    ));
    assert!(matches!(
        AliasTable::new(1, vec![0, 0], vec![one, one]),
        Err(SamplingError::InvalidArgument)
    ));
    assert!(AliasTable::new(2, vec![1, 0], vec![0, u64::MAX]).is_ok());
}

#[test]
fn discrete_gives_known_indices() {
    // The table of the weights 0.1, 0.2, 0.3, 0.4.
    let t = table(vec![3, 3, 2, 2], vec![0.1, 0.45, 0.75, 0.9500000000000001]);
    let st = taus_set(42);
    let (end, values) = discrete(st, 12, &t);
    assert_eq!(values, vec![3, 2, 2, 2, 2, 3, 0, 1, 3, 3, 1, 3]);
    assert_eq!(end, GeneratorState { s1: 774249269, s2: 1380575424, s3: 3105122279 });
}

#[test]
fn discrete_with_equal_weights_is_uniform() {
    // The table of the weights 1, 1, 1, 1: every bucket keeps itself.
    let t = table(vec![0, 1, 2, 3], vec![0.25, 0.5, 0.75, 1.0]);
    let (_, values) = discrete(taus_set(7), 40_000, &t);
    let mut counts = [0u32; 4];
    for v in values {
        counts[v as usize] += 1;
    }
    assert_eq!(counts, [9999, 10025, 10007, 9969]);
    let mut chi_square: f64 = 0.0;
    for c in counts {
        let d = c as f64 - 10_000.0;
        chi_square += d * d / 10_000.0;
    }
    // 7.81 is the 5% point of chi-square with 3 degrees of freedom.
    assert!(chi_square < 7.81);
}

#[test]
fn discrete_with_one_weight_always_gives_it() {
    // The table of the weights 1, 0, 0, 0: every other bucket gives way to 0.
    let t = table(vec![0, 0, 0, 0], vec![0.25, 0.25, 0.5, 0.75]);
    let (_, values) = discrete(taus_set(7), 10_000, &t);
    assert!(values.iter().all(|&v| v == 0));
}

#[test]
fn discrete_follows_the_weights() {
    let t = table(vec![3, 3, 2, 2], vec![0.1, 0.45, 0.75, 0.9500000000000001]);
    let (_, values) = discrete(taus_set(19), 100_000, &t);
    let mut counts = [0u32; 4];
    for v in values {
        counts[v as usize] += 1;
    }
    for (k, c) in counts.iter().enumerate() {
        let expected = 10_000.0 * (k as f64 + 1.0);
        assert!((*c as f64 - expected).abs() < 0.03 * expected);
    }
}

#[test]
fn discrete_agrees_with_double_arithmetic() {
    let cases: Vec<(Vec<u32>, Vec<f64>)> = vec![
        (vec![0], vec![1.0]),
        (vec![1, 1], vec![0.0, 1.0]),
        (vec![3, 3, 2, 2], vec![0.1, 0.45, 0.75, 0.9500000000000001]),
        (vec![2, 0, 1], vec![f64::NAN, -1.0, f64::INFINITY]),
        (vec![6, 5, 4, 3, 2, 1, 0], vec![0.05, 0.2, 0.4, 0.45, 0.6, 0.8, 1.0]),
    ];
    let mut st = taus_set(23);
    for (alias_of, cutoff) in cases {
        let t = table(alias_of.clone(), cutoff.clone());
        let ours = discrete(st, 5_000, &t);
        let theirs = discrete_in_doubles(st, 5_000, alias_of.len() as u32, &alias_of, &cutoff);
        assert_eq!(ours, theirs);
        st = ours.0;
    }
}

#[test]
fn discrete_with_many_buckets_stays_in_range() {
    let buckets: u32 = 3_000_000;
    let alias_of: Vec<u32> = (0..buckets).map(|i| buckets - 1 - i).collect();
    let cutoff: Vec<f64> = (0..buckets).map(|i| (i as f64 + 0.5) / buckets as f64).collect();
    let t = table(alias_of.clone(), cutoff.clone());
    let st = taus_set(29);
    let ours = discrete(st, 20_000, &t);
    assert!(ours.1.iter().all(|&v| v < buckets));
    assert_eq!(ours, discrete_in_doubles(st, 20_000, buckets, &alias_of, &cutoff));
}

#[test]
fn discrete_with_no_count_draws_nothing() {
    let t = table(vec![0, 1], vec![0.5, 1.0]);
    let st = taus_set(1);
    assert_eq!(discrete(st, 0, &t), (st, vec![]));
}
