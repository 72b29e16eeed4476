use succinct_ds::instances::parse_pd_instance;
use succinct_ds::pd::PD;

fn preds(keys: &[u64], queries: &[u64]) -> Vec<u64> {
    let mut numbers = keys.to_vec();
    let pd = PD::new(&mut numbers);
    queries.iter().map(|&q| pd.pred(q).unwrap()).collect()
}

#[test]
fn testing_pd_access() {
    let pd = PD::new(&mut vec![0, 1, 2, 3, 4, 5, 6, 7, 8, 9]);
    let got: Vec<u64> = (0..10).map(|i| pd.access(i).unwrap()).collect();
    assert_eq!(vec![0, 1, 2, 3, 4, 5, 6, 7, 8, 9], got);
}

#[test]
fn testing_pd_split() {
    let (mut lower, mut msb) = PD::split_with_bit_distribution(4, 2, 2);
    assert_eq!(0, lower);
    assert_eq!(1, msb);
    (lower, msb) = PD::split_with_bit_distribution(1, 2, 2);
    assert_eq!(1, lower);
    assert_eq!(0, msb);
}

#[test]
fn small_predecessors() {
    let got = preds(&[1, 3, 4, 7], &[0, 1, 2, 4, 5, 6, 7, 8]);
    assert_eq!(got, vec![u64::MAX, 1, 1, 4, 4, 4, 7, 7]);
}

#[test]
fn duplicate_keys() {
    let got = preds(&[5, 5, 9], &[5, 8, 9, 10]);
    assert_eq!(got, vec![5, 5, 9, 9]);
}

#[test]
fn access_sorts_keys() {
    let mut numbers = vec![40, 3, 17, 3, 1_000_000_007];
    let pd = PD::new(&mut numbers);
    assert_eq!(numbers, vec![3, 3, 17, 40, 1_000_000_007]);
    let got: Vec<u64> = (0..5).map(|i| pd.access(i).unwrap()).collect();
    assert_eq!(got, numbers);
}

#[test]
fn wide_universe() {
    let keys = [u64::MAX - 5, 1 << 40, 12, u64::MAX];
    let got = preds(&keys, &[11, 12, (1 << 40) - 1, 1 << 40, u64::MAX - 6, u64::MAX - 1, u64::MAX]);
    assert_eq!(got, vec![u64::MAX, 12, 12, 1 << 40, 1 << 40, u64::MAX - 5, u64::MAX]);
}

#[test]
fn single_key() {
    assert_eq!(preds(&[7], &[0, 6, 7, 100]), vec![u64::MAX, u64::MAX, 7, 7]);
}

#[test]
fn pred_laws_on_sample() {
    let mut keys: Vec<u64> = (0..300u64).map(|i| (i * 7919 + 13) % 5000).collect();
    let pd = PD::new(&mut keys);
    let mut previous: Option<u64> = None;
    for q in 0..5200u64 {
        let p = pd.pred(q).unwrap();
        let expected = keys.iter().copied().filter(|&k| k <= q).max();
        assert_eq!(p, expected.unwrap_or(u64::MAX));
        assert!(p <= q || p == u64::MAX);
        if p != u64::MAX {
            assert!(!keys.iter().any(|&k| p < k && k <= q));
            if let Some(prev) = previous {
                assert!(prev <= p);
            }
            previous = Some(p);
        }
    }
    for &k in keys.iter() {
        assert_eq!(pd.pred(k).unwrap(), k);
    }
}

#[test]
fn predecessor_testing_pd_test() {
    let text = b"4\n7\n1\n4\n2\n0\n1\n2\n3\n4\n5\n6\n7\n8\n9\n10\n";
    let instance = parse_pd_instance(text).ok().unwrap();
    let want = vec![u64::MAX, 1, 2, 2, 4, 4, 4, 7, 7, 7, 7];
    let mut numbers = instance.numbers.clone();
    let pd = PD::new(&mut numbers);
    for (i, query) in instance.queries.iter().enumerate() {
        let got = pd.pred(*query).unwrap();
        assert_eq!(want[i], got, "Query nr {}: {}", i, query);
    }
}
