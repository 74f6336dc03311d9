use vstd::prelude::*;

verus! {

/// The largest number of categories (and of values per category) a puzzle may have.
pub const MAX_GRID_SIZE: usize = 8;

/// An attribute value within a category: the row and the value's symbol.
#[derive(Debug, Clone, Copy, PartialEq, Eq, Structural)]
pub struct Tile {
    pub row: usize,
    pub variant: char,
}

impl Tile {
    pub fn new(row: usize, variant: char) -> (r: Tile)
        ensures
            r.row == row,
            r.variant == variant,
    {
        Tile { row, variant }
    }
}

/// The symbol of the value with index `i` in every category: 'a', 'b', ...
pub open spec fn variant_of(i: int) -> char {
    ((97 + i) as u32) as char
}

/// Index of a value symbol within its category.
pub open spec fn variant_index(c: char) -> int {
    (c as u32) as int - 97
}

/// The index of value symbol `c` within its category, if `c` is at or after 'a'.
pub fn variant_position(c: char) -> (r: Option<usize>)
    ensures
        r.is_some() <==> variant_index(c) >= 0,
        r.is_some() ==> r.unwrap() == variant_index(c),
{
    let code = c as u32;
    if code < 97 {
        None
    } else {
        Some((code - 97) as usize)
    }
}

/// A named preset; it fixes the size of the square puzzle grid.
#[derive(Debug, Clone, Copy, PartialEq, Eq, Structural)]
pub enum Difficulty {
    Easy,
    Moderate,
    Hard,
    Veteran,
}

impl Difficulty {
    pub open spec fn spec_n_rows(self) -> nat {
        match self {
            Difficulty::Easy => 4,
            Difficulty::Moderate => 5,
            Difficulty::Hard => 6,
            Difficulty::Veteran => 8,
        }
    }

    /// Number of categories, which is also the number of values per category.
    pub fn n_rows(&self) -> (r: usize)
        ensures
            r == self.spec_n_rows(),
            4 <= r <= MAX_GRID_SIZE,
    {
        match self {
            Difficulty::Easy => 4,
            Difficulty::Moderate => 5,
            Difficulty::Hard => 6,
            Difficulty::Veteran => 8,
        }
    }
}

impl Default for Difficulty {
    fn default() -> (r: Self)
        ensures
            r == Difficulty::Easy,
    {
        Difficulty::Easy
    }
}

} // verus!
