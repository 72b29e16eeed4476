use rand::rngs::StdRng;
use rand::{Rng, SeedableRng};
use succinct_ds::rmq::naive_fast::RMQNaiveFast;
use succinct_ds::rmq::naive_slow::RMQNaiveSlow;
use succinct_ds::rmq::rmq_spanning_blocks::{CartesianTrees, RMQSpanningBlocks};
use succinct_ds::rmq::rmq_sparse::RMQSparse;
use succinct_ds::rmq::{RMQError, RMQ};

fn random_instance(seed: u8, n: usize, queries: usize) -> (Vec<u64>, Vec<(usize, usize)>) {
    let mut rng = StdRng::from_seed([seed; 32]);
    let numbers: Vec<u64> = (0..n).map(|_| rng.gen_range(0..1000)).collect();
    let qs = (0..queries)
        .map(|_| {
            let a = rng.gen_range(0..n);
            let b = rng.gen_range(0..n);
            (a.min(b), a.max(b))
        })
        .collect();
    (numbers, qs)
}

fn check_against<T: RMQ, C: RMQ>(numbers: &[u64], queries: &[(usize, usize)], limit: usize) {
    let reference = C::new(numbers.to_vec());
    let under_test = T::new(numbers.to_vec());
    for &(from, to) in queries.iter().take(limit) {
        let want = reference.range_minimum_query(from, to).unwrap();
        let got = under_test.range_minimum_query(from, to).unwrap();
        assert!(got >= from && got <= to);
        assert_eq!(want, got, "query {:?}", (from, to));
    }
}

#[test]
fn testing_rmq_naiveslow_benchmark1() {
    let (numbers, queries) = random_instance(1, 2000, 2000);
    let rmq = RMQNaiveSlow::new(numbers.clone());
    for &(from, to) in queries.iter() {
        let got = rmq.range_minimum_query(from, to).unwrap();
        assert!(got >= from && got <= to);
        assert!((from..=to).all(|m| numbers[got] <= numbers[m]));
    }
}

#[test]
fn testing_rmq_sparse_benchmark1() {
    let (numbers, queries) = random_instance(2, 3000, 3000);
    check_against::<RMQSparse, RMQNaiveSlow>(&numbers, &queries, 2000);
}

#[test]
fn testing_rmq_spanning_benchmark1() {
    let (numbers, queries) = random_instance(3, 5000, 5000);
    check_against::<RMQSpanningBlocks, RMQSparse>(&numbers, &queries, queries.len());
}

#[test]
fn testing_rmq_spanning_benchmark2() {
    let (numbers, queries) = random_instance(4, 777, 5000);
    check_against::<RMQSpanningBlocks, RMQSparse>(&numbers, &queries, queries.len());
}

#[test]
fn test_cartesian_tree_number() {
    let array = vec![3, 2, 4, 4, 5, 2, 4, 7, 6];
    let cartesian_tree_number = CartesianTrees::cartesian_tree_number(&array);
    assert_eq!(cartesian_tree_number, 0b101111000111010000);
}

fn nine_values<T: RMQ>() {
    let rmq = T::new(vec![3, 2, 4, 4, 5, 2, 4, 7, 6]);
    assert_eq!(rmq.range_minimum_query(0, 8), Ok(1));
    assert_eq!(rmq.range_minimum_query(3, 7), Ok(5));
    assert_eq!(rmq.range_minimum_query(6, 8), Ok(6));
    assert_eq!(rmq.range_minimum_query(0, 0), Ok(0));
    assert_eq!(rmq.range_minimum_query(2, 1), Err(RMQError::OutOfRange));
    assert_eq!(rmq.range_minimum_query(0, 9), Err(RMQError::OutOfRange));
}

#[test]
fn small_array_all_structures() {
    nine_values::<RMQNaiveSlow>();
    nine_values::<RMQNaiveFast>();
    nine_values::<RMQSparse>();
    nine_values::<RMQSpanningBlocks>();
}

#[test]
fn structures_agree_on_random_queries() {
    let (numbers, queries) = random_instance(5, 10_000, 10_000);
    let naive = RMQNaiveSlow::new(numbers.clone());
    let sparse = RMQSparse::new(numbers.clone());
    let blocks = RMQSpanningBlocks::new(numbers.clone());
    for &(from, to) in queries.iter() {
        let want = naive.range_minimum_query(from, to).unwrap();
        assert_eq!(sparse.range_minimum_query(from, to), Ok(want));
        assert_eq!(blocks.range_minimum_query(from, to), Ok(want));
    }
}

#[test]
fn fast_table_agrees_and_singletons() {
    let (numbers, _) = random_instance(6, 300, 0);
    let fast = RMQNaiveFast::new(numbers.clone());
    let naive = RMQNaiveSlow::new(numbers.clone());
    let blocks = RMQSpanningBlocks::new(numbers.clone());
    for i in 0..numbers.len() {
        assert_eq!(fast.range_minimum_query(i, i), Ok(i));
        assert_eq!(blocks.range_minimum_query(i, i), Ok(i));
        for j in i..numbers.len() {
            assert_eq!(fast.range_minimum_query(i, j), naive.range_minimum_query(i, j));
        }
    }
}

#[test]
fn ties_go_to_smaller_index() {
    let numbers = vec![5, 1, 3, 1, 1, 7, 1, 2, 9, 1, 4, 1, 6, 1, 8, 1, 0, 0];
    let blocks = RMQSpanningBlocks::new(numbers.clone());
    let sparse = RMQSparse::new(numbers.clone());
    let fast = RMQNaiveFast::new(numbers.clone());
    for i in 0..numbers.len() {
        for j in i..numbers.len() {
            let min = *numbers[i..=j].iter().min().unwrap();
            let first = (i..=j).find(|&m| numbers[m] == min).unwrap();
            assert_eq!(blocks.range_minimum_query(i, j), Ok(first));
            assert_eq!(sparse.range_minimum_query(i, j), Ok(first));
            assert_eq!(fast.range_minimum_query(i, j), Ok(first));
        }
    }
}

#[test]
fn sparse_table_over_empty_array() {
    let sparse = RMQSparse::new(Vec::new());
    assert_eq!(sparse.range_minimum_query(0, 0), Err(RMQError::OutOfRange));
}
