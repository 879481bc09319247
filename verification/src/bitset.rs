//! The visited-state store: one bit per grid cell in a fixed number of
//! 64-bit words.

use vstd::prelude::*;
use crate::geometry::MAX_CELLS;

verus! {

/// Number of 64-bit words in a [`VisitedBitset`].
pub const BITSET_SIZE: usize = 7;

/// Whether bit `bit` of `word` is set.
pub open spec fn bit_is_set(word: u64, bit: u64) -> bool {
    (word >> bit) & 1 == 1
}

proof fn lemma_bit_zero(bit: u64)
    requires
        bit < 64,
    ensures
        !bit_is_set(0, bit),
{
    assert((0u64 >> bit) & 1 != 1) by (bit_vector)
        requires
            bit < 64,
    ;
}

proof fn lemma_bit_or(word: u64, bit: u64, other: u64)
    requires
        bit < 64,
        other < 64,
    ensures
        bit_is_set(word | (1u64 << bit), other) == (other == bit || bit_is_set(word, other)),
{
    assert((((word | (1u64 << bit)) >> other) & 1 == 1) == (other == bit || (word >> other) & 1
        == 1)) by (bit_vector)
        requires
            bit < 64,
            other < 64,
    ;
}

proof fn lemma_bit_and_not(word: u64, bit: u64, other: u64)
    requires
        bit < 64,
        other < 64,
    ensures
        bit_is_set(word & !(1u64 << bit), other) == (other != bit && bit_is_set(word, other)),
{
    assert((((word & !(1u64 << bit)) >> other) & 1 == 1) == (other != bit && (word >> other) & 1
        == 1)) by (bit_vector)
        requires
            bit < 64,
            other < 64,
    ;
}

/// Row-major numbering is injective on cells whose column is below `cols`.
pub proof fn lemma_index_injective(cols: int, a: (int, int), b: (int, int))
    requires
        0 <= a.1 < cols,
        0 <= b.1 < cols,
        a.0 * cols + a.1 == b.0 * cols + b.1,
    ensures
        a == b,
{
    assert(a.0 == b.0) by (nonlinear_arith)
        requires
            0 <= a.1 < cols,
            0 <= b.1 < cols,
            a.0 * cols + a.1 == b.0 * cols + b.1,
    {
        if a.0 < b.0 {
            assert((b.0 - a.0) * cols >= cols);
        } else if a.0 > b.0 {
            assert((a.0 - b.0) * cols >= cols);
        }
    }
}

/// A set of grid cells, one bit per cell, numbered row by row.
#[derive(Clone, Copy)]
pub struct VisitedBitset {
    bits: [u64; BITSET_SIZE],
    cols: usize,
}

impl VisitedBitset {
    /// The row width the cells are numbered with.
    pub closed spec fn width(&self) -> int {
        self.cols as int
    }

    /// The cells this set has a bit for: non-negative coordinates, column
    /// below the width, and a row-major number below the capacity.
    pub open spec fn addressable(&self, cell: (int, int)) -> bool {
        &&& 0 <= cell.0
        &&& 0 <= cell.1 < self.width()
        &&& cell.0 * self.width() + cell.1 < MAX_CELLS
    }

    spec fn bit_of(&self, cell: (int, int)) -> bool {
        let n = cell.0 * self.cols + cell.1;
        bit_is_set(self.bits[n / 64], (n % 64) as u64)
    }

    /// The set of cells marked visited.
    pub closed spec fn view(&self) -> Set<(int, int)> {
        Set::new(|cell: (int, int)| self.addressable(cell) && self.bit_of(cell))
    }

    /// Every member of the set is an addressable cell.
    pub proof fn lemma_members_addressable(&self)
        ensures
            forall|cell: (int, int)| self@.contains(cell) ==> self.addressable(cell),
    {
    }

    /// An empty set for grids with `cols` columns.
    pub fn new(cols: usize) -> (set: Self)
        ensures
            set@ == Set::<(int, int)>::empty(),
            set.width() == cols,
    {
        let set = Self { bits: [0; BITSET_SIZE], cols };
        proof {
            assert forall|cell: (int, int)| !(set.addressable(cell) && set.bit_of(cell)) by {
                if set.addressable(cell) {
                    let n = cell.0 * set.cols + cell.1;
                    assert(0 <= cell.0 * set.cols) by (nonlinear_arith)
                        requires
                            0 <= cell.0,
                            0 <= set.cols,
                    ;
                    lemma_bit_zero((n % 64) as u64);
                }
            }
            assert(set@ =~= Set::<(int, int)>::empty());
        }
        set
    }

    /// The word and the bit within it that stand for a cell.
    pub fn index(&self, row: i32, col: i32) -> (at: (usize, usize))
        requires
            self.addressable((row as int, col as int)),
        ensures
            at.0 == (row * self.width() + col) / 64,
            at.1 == (row * self.width() + col) % 64,
            at.0 < BITSET_SIZE,
            at.1 < 64,
    {
        assert(0 <= row * self.cols <= row * self.cols + col) by (nonlinear_arith)
            requires
                0 <= row,
                0 <= col,
                0 <= self.cols,
        ;
        let bit_index = row as usize * self.cols + col as usize;
        (bit_index / 64, bit_index % 64)
    }

    /// Whether a cell is marked visited.
    pub fn get(&self, row: i32, col: i32) -> (visited: bool)
        requires
            self.addressable((row as int, col as int)),
        ensures
            visited == self@.contains((row as int, col as int)),
    {
        let (word, bit) = self.index(row, col);
        (self.bits[word] >> (bit as u64)) & 1 == 1
    }

    /// Marks a cell visited.
    pub fn set(&mut self, row: i32, col: i32)
        requires
            old(self).addressable((row as int, col as int)),
        ensures
            final(self)@ == old(self)@.insert((row as int, col as int)),
            final(self).width() == old(self).width(),
    {
        let (word, bit) = self.index(row, col);
        let updated: u64 = self.bits[word] | (1u64 << (bit as u64));
        self.bits[word] = updated;
        proof {
            let target = (row as int, col as int);
            assert forall|cell: (int, int)|
                (self.addressable(cell) && self.bit_of(cell)) == (cell == target || (old(
                    self,
                ).addressable(cell) && old(self).bit_of(cell))) by {
                if self.addressable(cell) {
                    let n = cell.0 * self.cols + cell.1;
                    assert(0 <= cell.0 * self.cols) by (nonlinear_arith)
                        requires
                            0 <= cell.0,
                            0 <= self.cols,
                    ;
                    if n / 64 == word {
                        lemma_bit_or(old(self).bits[word as int], bit as u64, (n % 64) as u64);
                        if n % 64 == bit {
                            lemma_index_injective(self.cols as int, cell, target);
                        }
                    }
                }
            }
            assert(self@ =~= old(self)@.insert(target));
        }
    }

    /// Marks a cell unvisited.
    pub fn clear(&mut self, row: i32, col: i32)
        requires
            old(self).addressable((row as int, col as int)),
        ensures
            final(self)@ == old(self)@.remove((row as int, col as int)),
            final(self).width() == old(self).width(),
    {
        let (word, bit) = self.index(row, col);
        let updated: u64 = self.bits[word] & !(1u64 << (bit as u64));
        self.bits[word] = updated;
        proof {
            let target = (row as int, col as int);
            assert forall|cell: (int, int)|
                (self.addressable(cell) && self.bit_of(cell)) == (cell != target && (old(
                    self,
                ).addressable(cell) && old(self).bit_of(cell))) by {
                if self.addressable(cell) {
                    let n = cell.0 * self.cols + cell.1;
                    assert(0 <= cell.0 * self.cols) by (nonlinear_arith)
                        requires
                            0 <= cell.0,
                            0 <= self.cols,
                    ;
                    if n / 64 == word {
                        lemma_bit_and_not(old(self).bits[word as int], bit as u64, (n % 64) as u64);
                        if n % 64 == bit {
                            lemma_index_injective(self.cols as int, cell, target);
                        }
                    }
                }
            }
            assert(self@ =~= old(self)@.remove(target));
        }
    }
}

} // verus!
