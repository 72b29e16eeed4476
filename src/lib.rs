//! Succinct rank/select bit sequences, an Elias-Fano predecessor index and
//! range-minimum-query structures, with their contracts proved by Verus.

pub mod bits;
pub mod rank1;
pub mod select_lookup_table;
pub mod bitvector;
pub mod select1_naive;
pub mod select1;
pub mod pd;
pub mod rmq;
pub mod instances;
pub mod report;
pub mod sparse_bit_vector;
