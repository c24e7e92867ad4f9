use vstd::prelude::*;
use crate::utils::{copy_range, get_random_elem_from_range};

verus! {

/// A contiguous index range `[start_index, start_index + length)` over a
/// sequence.  It stores only the two integers; the sequence itself is
/// supplied to each query.
#[derive(Debug)]
pub struct Subsequence {
    /// Where the subsequence starts.
    pub start_index: usize,
    /// How many elements the subsequence covers.
    pub length: usize,
}

impl Subsequence {
    /// Describe the range `[start_index, start_index + length)`.
    pub fn new(start_index: usize, length: usize) -> (s: Subsequence)
        ensures
            s.start_index == start_index,
            s.length == length,
    {
        Subsequence { start_index, length }
    }

    /// Draw a random interior range over a sequence of `len_sequence`
    /// elements: at least one element stays before or at the start, and at
    /// least two stay after the range, so an ordered crossover always has
    /// material of the second parent left to place.  For `len_sequence == 2`
    /// the draws degenerate to the fixed range `[0, 1)`.
    pub fn random_subsequence(len_sequence: usize) -> (s: Subsequence)
        requires
            len_sequence >= 2,
        ensures
            s.length >= 1,
            s.start_index + s.length <= len_sequence,
            len_sequence >= 3 ==> s.start_index + s.length + 2 <= len_sequence,
            len_sequence == 2 ==> s.start_index == 0 && s.length == 1,
    {
        let start_index = get_random_elem_from_range(0, len_sequence - 2);
        let length = get_random_elem_from_range(1, len_sequence - start_index - 1);
        Subsequence { start_index, length }
    }

    /// The elements of `sequence` inside the range, or `None` when the
    /// range reaches past the end of `sequence`.
    pub fn get_values_in(&self, sequence: &Vec<usize>) -> (r: Option<Vec<usize>>)
        ensures
            match r {
                Some(v) => self.start_index + self.length <= sequence@.len() && v@ == sequence@
                    .subrange(
                    self.start_index as int,
                    self.start_index + self.length,
                ),
                None => self.start_index + self.length > sequence@.len(),
            },
    {
        if self.start_index <= sequence.len() && self.length <= sequence.len()
            - self.start_index {
            Some(copy_range(sequence, self.start_index, self.start_index + self.length))
        } else {
            None
        }
    }

    /// The elements of `sequence` strictly before the range, or `None`
    /// when even the start lies past the end of `sequence`.
    pub fn get_values_before(&self, sequence: &Vec<usize>) -> (r: Option<Vec<usize>>)
        ensures
            match r {
                Some(v) => self.start_index <= sequence@.len() && v@ == sequence@.subrange(
                    0,
                    self.start_index as int,
                ),
                None => self.start_index > sequence@.len(),
            },
    {
        if self.start_index <= sequence.len() {
            Some(copy_range(sequence, 0, self.start_index))
        } else {
            None
        }
    }

    /// The elements of `sequence` strictly after the range, or `None` when
    /// the range reaches past the end of `sequence`.
    pub fn get_values_after(&self, sequence: &Vec<usize>) -> (r: Option<Vec<usize>>)
        ensures
            match r {
                Some(v) => self.start_index + self.length <= sequence@.len() && v@ == sequence@
                    .subrange(self.start_index + self.length, sequence@.len() as int),
                None => self.start_index + self.length > sequence@.len(),
            },
    {
        if self.start_index <= sequence.len() && self.length <= sequence.len()
            - self.start_index {
            Some(copy_range(sequence, self.start_index + self.length, sequence.len()))
        } else {
            None
        }
    }
}

} // verus!
