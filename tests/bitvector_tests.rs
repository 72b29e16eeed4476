use rand::rngs::StdRng;
use rand::{Rng, SeedableRng};
use succinct_ds::bits::floor_log2;
use succinct_ds::bitvector::{u64_to_vec_bool, Bitvector, MyError};
use succinct_ds::rank1::Rank1;
use succinct_ds::select1::Select1;
use succinct_ds::select1_naive::Select1Naive;
use succinct_ds::select_lookup_table::SelectLookupTable;
use succinct_ds::sparse_bit_vector::SparseBitVec;

const TEST_RANGE_THOROUGH: usize = 5000;

fn sample() -> Bitvector {
    let vec: Vec<u8> = vec![1, 0, 1, 0, 1, 0, 0, 1, 1, 0, 0, 0, 0, 1, 1, 0];
    Bitvector::from_vec(vec).unwrap()
}

fn check_rank1(bit_vector: &Bitvector) {
    assert_eq!(bit_vector.rank1(0), 0);
    assert_eq!(bit_vector.rank1(1), 1);
    assert_eq!(bit_vector.rank1(2), 1);
    assert_eq!(bit_vector.rank1(3), 2);
    assert_eq!(bit_vector.rank1(4), 2);
    assert_eq!(bit_vector.rank1(5), 3);
    assert_eq!(bit_vector.rank1(6), 3);
    assert_eq!(bit_vector.rank1(7), 3);
    assert_eq!(bit_vector.rank1(8), 4);
    assert_eq!(bit_vector.rank1(9), 5);
    assert_eq!(bit_vector.rank1(10), 5);
    assert_eq!(bit_vector.rank1(11), 5);
    assert_eq!(bit_vector.rank1(12), 5);
    assert_eq!(bit_vector.rank1(13), 5);
    assert_eq!(bit_vector.rank1(14), 6);
    assert_eq!(bit_vector.rank1(15), 7);
}

fn testing_select1_variants<F>(select1: F)
where
    F: Fn(u64) -> Result<u64, MyError>,
{
    // select(0) is 0 by convention.
    assert_eq!(select1(0).unwrap(), 0);
    assert_eq!(select1(1).unwrap(), 0);
    assert_eq!(select1(2).unwrap(), 2);
    assert_eq!(select1(3).unwrap(), 4);
    assert_eq!(select1(4).unwrap(), 7);
    assert_eq!(select1(5).unwrap(), 8);
    assert_eq!(select1(6).unwrap(), 13);
    assert_eq!(select1(7).unwrap(), 14);
    // Only 7 ones in the bit vector.
    for i in 8..16 {
        assert_eq!(select1(i).unwrap_err(), MyError::Select1NotEnough1s);
    }
    // Out of bounds of the bit vector: never that many ones.
    assert_eq!(select1(16).unwrap_err(), MyError::Select1OutOfBounds);
}

fn testing_select0_variants<F>(select0: F)
where
    F: Fn(u64) -> Result<u64, MyError>,
{
    assert_eq!(select0(0).unwrap(), 0);
    assert_eq!(select0(1).unwrap(), 1);
    assert_eq!(select0(2).unwrap(), 3);
    assert_eq!(select0(3).unwrap(), 5);
    assert_eq!(select0(4).unwrap(), 6);
    assert_eq!(select0(5).unwrap(), 9);
    assert_eq!(select0(6).unwrap(), 10);
    assert_eq!(select0(7).unwrap(), 11);
    assert_eq!(select0(8).unwrap(), 12);
    assert_eq!(select0(9).unwrap(), 15);
    for i in 10..16 {
        assert_eq!(select0(i).unwrap_err(), MyError::Select1NotEnough1s);
    }
    assert_eq!(select0(16).unwrap_err(), MyError::Select1OutOfBounds);
}

fn random_bits() -> Vec<bool> {
    let seed = [0; 32];
    let mut rng = StdRng::from_seed(seed);
    (0..TEST_RANGE_THOROUGH)
        .map(|_| rng.gen_range(0..2) == 1)
        .collect()
}

#[test]
fn testing_rank1() {
    let bit_vector = sample();
    check_rank1(&bit_vector);
}

#[test]
fn testing_select1() {
    let bit_vector = sample();
    testing_select1_variants(|i| bit_vector.select1(i));
    testing_select1_variants(|i| bit_vector.select1_simple(i));
}

#[test]
fn testing_rank1_basic() {
    let bit_vector = sample();
    check_rank1(&bit_vector);
}

#[test]
fn testing_select1_basic() {
    let bit_vector = sample();
    testing_select1_variants(|i| bit_vector.select1_simple(i));
    testing_select1_variants(|i| bit_vector.select1_naive(i));
    testing_select1_variants(|i| bit_vector.select1(i));
    testing_select0_variants(|i| bit_vector.select0(i));
}

#[test]
fn testing_select1_thorough() {
    let vec = random_bits();
    let bit_vector = Bitvector::new(vec.clone());
    for i in 0..vec.len() {
        let select1_simple = bit_vector.select1_simple(i as u64);
        let select1_naive = bit_vector.select1_naive(i as u64);
        let select1 = bit_vector.select1(i as u64);
        assert_eq!(select1_simple, select1_naive);
        assert_eq!(select1_simple, select1);
    }
}

#[test]
fn testing_rank1_thorough() {
    let vec = random_bits();
    let bit_vector = Bitvector::new(vec.clone());
    for i in 0..vec.len() {
        let rank1_simple = bit_vector.rank1_simple(i as u64);
        let rank1 = bit_vector.rank1(i as u64);
        assert_eq!(rank1_simple, rank1);
    }
}

#[test]
fn sample_rank_values() {
    let bit_vector = sample();
    assert_eq!(bit_vector.rank1(8), 4);
    assert_eq!(bit_vector.rank1(14), 6);
    assert_eq!(bit_vector.rank1(16), 7);
    assert_eq!(bit_vector.rank0(16), 9);
}

#[test]
fn sample_select_values() {
    let bit_vector = sample();
    let ones: Vec<u64> = (1..=7).map(|j| bit_vector.select1(j).unwrap()).collect();
    assert_eq!(ones, vec![0, 2, 4, 7, 8, 13, 14]);
    assert_eq!(bit_vector.select1(8), Err(MyError::Select1NotEnough1s));
    let zeroes: Vec<u64> = (1..=9).map(|j| bit_vector.select0(j).unwrap()).collect();
    assert_eq!(zeroes, vec![1, 3, 5, 6, 9, 10, 11, 12, 15]);
}

#[test]
fn rank_select_stress_against_scan() {
    let vec = random_bits();
    let bit_vector = Bitvector::new(vec.clone());
    let mut prefix = 0u64;
    let mut ones = Vec::new();
    for (i, &b) in vec.iter().enumerate() {
        assert_eq!(bit_vector.rank1(i as u64), prefix);
        if b {
            prefix += 1;
            ones.push(i as u64);
        }
    }
    assert_eq!(bit_vector.rank1(vec.len() as u64), prefix);
    for (j, &p) in ones.iter().enumerate() {
        assert_eq!(bit_vector.select1(j as u64 + 1), Ok(p));
    }
}

#[test]
fn rank_sum_and_steps() {
    let vec = random_bits();
    let n = vec.len() as u64;
    let bit_vector = Bitvector::new(vec.clone());
    assert_eq!(bit_vector.rank1(n) + bit_vector.rank0(n), n);
    for i in 0..n {
        let step = bit_vector.rank1(i + 1) - bit_vector.rank1(i);
        assert_eq!(step, if bit_vector.get(i) { 1 } else { 0 });
    }
}

#[test]
fn select_lands_and_round_trips() {
    let vec = random_bits();
    let n = vec.len() as u64;
    let bit_vector = Bitvector::new(vec);
    for v in [true, false] {
        let count = if v { bit_vector.rank1(n) } else { bit_vector.rank0(n) };
        for j in 1..=count.min(n - 1) {
            let p = if v { bit_vector.select1(j) } else { bit_vector.select0(j) }.unwrap();
            assert_eq!(bit_vector.get(p), v);
            let rank = if v { bit_vector.rank1(p + 1) } else { bit_vector.rank0(p + 1) };
            assert_eq!(rank, j);
        }
    }
}

#[test]
fn select_of_rank_is_last_before() {
    let vec = random_bits();
    let bit_vector = Bitvector::new(vec.clone());
    let mut last_one: Option<u64> = None;
    for i in 0..vec.len() as u64 {
        if let Some(p) = last_one {
            let r = bit_vector.rank1(i);
            assert_eq!(bit_vector.select1(r), Ok(p));
        }
        if vec[i as usize] {
            last_one = Some(i);
        }
    }
}

#[test]
fn from_vec_rejects_non_bits() {
    assert!(matches!(
        Bitvector::from_vec(vec![1, 0, 2]),
        Err(MyError::InvalidValue)
    ));
}

#[test]
fn empty_sequence() {
    let bit_vector = Bitvector::new(Vec::new());
    assert_eq!(bit_vector.rank1(0), 0);
    assert_eq!(bit_vector.select1(0), Err(MyError::Select1OutOfBounds));
}

#[test]
fn rank1_on_raw_tables() {
    let data = vec![true, true, false, true];
    let rank = Rank1::new(&data);
    assert_eq!(rank.rank1(&data, 4), 3);
    assert_eq!(rank.rank0(&data, 4), 1);
    assert_eq!(rank.rank1_simple(&data, 3), 2);
}

#[test]
fn select_index_on_raw_data() {
    let data = vec![false, true, true, false, true];
    let select = Select1::new(&data, true, false);
    assert_eq!(select.select(&data, 3), Ok(4));
    assert_eq!(select.select(&data, 4), Err(MyError::Select1NotEnough1s));
    assert_eq!(select.selectWithBoundaryCheck(&data, 5), Err(MyError::Select1OutOfBounds));
    assert_eq!(select.select_simple(&data, 2), Ok(2));
    assert_eq!(select.select_naive(&data, 1), Ok(1));
}

#[test]
fn naive_table_errors() {
    let data = vec![true, false, true];
    let naive = Select1Naive::new(&data, true);
    assert_eq!(naive.select(0), Err(MyError::Select1GotZero));
    assert_eq!(naive.select(2), Ok(2));
    assert_eq!(naive.select(3), Err(MyError::Select1OutOfBounds));
    assert_eq!(naive.select(4), Err(MyError::Select1OutOfBounds));
}

#[test]
fn lookup_table_finds_bits() {
    let mut table = SelectLookupTable::new(false);
    table.encountered(3);
    table.encountered(2);
    table.create();
    let data = vec![true, false, true, false, false];
    assert_eq!(table.lookup(&data, 0, 3, 1), 1);
    assert_eq!(table.lookup(&data, 2, 3, 2), 2);
}

#[test]
fn bits_of_integer() {
    assert_eq!(u64_to_vec_bool(6, 4), vec![false, true, true, false]);
}

#[test]
fn sparse_bit_vector_operations() {
    let mut bits = SparseBitVec::from_vec(vec![true, false, true]);
    assert!(bits.contains(0));
    assert!(!bits.contains(1));
    bits.insert(1);
    bits.remove(0);
    assert_eq!(bits.get_range(0, 4), vec![false, true, true, false]);
    let empty = SparseBitVec::new();
    assert!(!empty.contains(5));
}

#[test]
fn floor_log2_values() {
    assert_eq!(floor_log2(0), 0);
    assert_eq!(floor_log2(1), 0);
    assert_eq!(floor_log2(7), 2);
    assert_eq!(floor_log2(8), 3);
    assert_eq!(floor_log2(u64::MAX), 63);
}

#[test]
fn naive_table_rank_equal_to_length() {
    let naive = Select1Naive::new(&[true], true);
    assert_eq!(naive.select(1), Err(MyError::Select1OutOfBounds));
}
