use std::collections::HashSet;
use vstd::prelude::*;
use vstd::std_specs::hash::{axiom_usize_obeys_hash_table_key_model, group_hash_axioms};

verus! {

broadcast use group_hash_axioms, axiom_usize_obeys_hash_table_key_model;

/// A bit sequence stored as the set of positions of its ones.
pub struct SparseBitVec {
    set: HashSet<usize>,
}

impl SparseBitVec {
    /// Positions of the ones.
    pub closed spec fn view(&self) -> Set<usize> {
        self.set@
    }

    /// No bit set.
    pub fn new() -> (r: SparseBitVec)
        ensures
            r@ == Set::<usize>::empty(),
    {
        SparseBitVec { set: HashSet::new() }
    }

    /// The ones of `vec`, first bit at position zero.
    pub fn from_vec(vec: Vec<bool>) -> (r: SparseBitVec)
        ensures
            forall|i: usize| r@.contains(i) <==> (i < vec@.len() && vec@[i as int]),
    {
        let mut set: HashSet<usize> = HashSet::new();
        let mut i: usize = 0;
        while i < vec.len()
            invariant
                i <= vec@.len(),
                forall|k: usize| set@.contains(k) <==> (k < i && vec@[k as int]),
            decreases vec@.len() - i,
        {
            if vec[i] {
                set.insert(i);
            }
            i = i + 1;
        }
        SparseBitVec { set }
    }

    /// Sets the bit at `index` to 1.
    pub fn insert(&mut self, index: usize)
        ensures
            final(self)@ == old(self)@.insert(index),
    {
        self.set.insert(index);
    }

    /// Sets the bit at `index` to 0.
    pub fn remove(&mut self, index: usize)
        ensures
            final(self)@ == old(self)@.remove(index),
    {
        self.set.remove(&index);
    }

    /// Whether the bit at `index` is 1.
    pub fn contains(&self, index: usize) -> (r: bool)
        ensures
            r == self@.contains(index),
    {
        self.set.contains(&index)
    }

    /// The bits at positions `start..end`.
    pub fn get_range(&self, start: usize, end: usize) -> (r: Vec<bool>)
        ensures
            r@.len() == if start <= end {
                end - start
            } else {
                0
            },
            forall|k: int| 0 <= k < r@.len() ==> r@[k] == self@.contains((start + k) as usize),
    {
        let mut out: Vec<bool> = Vec::new();
        let mut i = start;
        while i < end
            invariant
                start <= i <= end || (start > end && i == start),
                out@.len() == i - start,
                forall|k: int| 0 <= k < out@.len() ==> out@[k] == self@.contains((start + k) as usize),
            decreases end - i,
        {
            out.push(self.contains(i));
            i = i + 1;
        }
        out
    }
}

} // verus!
