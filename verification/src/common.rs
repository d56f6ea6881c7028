//! A crossword as a grid of letters with its four edges, and the record of
//! whether a word is in use.

use vstd::prelude::*;
use vstd::std_specs::cmp::PartialEqSpecImpl;

verus! {

/// A word and whether it is part of the crossword at the moment. Two records
/// are equal when they are about the same word.
#[derive(Debug)]
pub struct WordUsage<'a> {
    pub word: &'a str,
    pub currently_in_use: bool,
}

/// Compares two string slices with `==` of the standard library (`str::eq`):
/// the result says whether both hold the same characters.
#[verifier::external_body]
fn same_text(a: &str, b: &str) -> (same: bool)
    ensures
        same == (a@ == b@),
{
    a == b
}

impl<'a> PartialEq for WordUsage<'a> {
    fn eq(&self, other: &Self) -> (same: bool) {
        same_text(self.word, other.word)
    }
}

impl<'a> PartialEqSpecImpl for WordUsage<'a> {
    open spec fn obeys_eq_spec() -> bool {
        true
    }

    open spec fn eq_spec(&self, other: &Self) -> bool {
        self.word@ == other.word@
    }
}

/// A grid of letters, stored by column, and the edges of the part of it that
/// is in use, all four inclusive.
pub struct Crossword {
    pub left_edge: usize,
    pub upper_edge: usize,
    pub right_edge: usize,
    pub lower_edge: usize,
    pub letters: Vec<Vec<char>>,
}

impl Crossword {
    /// Number of columns between the left and the right edge.
    pub open spec fn width(&self) -> int {
        if self.left_edge <= self.right_edge {
            self.right_edge - self.left_edge + 1
        } else {
            0
        }
    }

    /// Number of lines between the upper and the lower edge.
    pub open spec fn height(&self) -> int {
        if self.upper_edge <= self.lower_edge {
            self.lower_edge - self.upper_edge + 1
        } else {
            0
        }
    }

    /// The grid holds a letter for every cell between the edges: where there
    /// is a line between the upper and the lower edge, every column between
    /// the left and the right edge exists and reaches down to the lower edge.
    pub open spec fn in_bounds(&self) -> bool {
        self.upper_edge <= self.lower_edge ==> forall|x: int|
            self.left_edge <= x <= self.right_edge ==> x < self.letters@.len() && self.lower_edge
                < (#[trigger] self.letters@[x])@.len()
    }

    /// Whether the grid holds a letter for every cell between the edges.
    pub fn is_in_bounds(&self) -> (ok: bool)
        ensures
            ok == self.in_bounds(),
    {
        if self.upper_edge > self.lower_edge || self.left_edge > self.right_edge {
            return true;
        }
        if self.right_edge >= self.letters.len() {
            assert(!self.in_bounds()) by {
                let missing = self.letters@[self.right_edge as int];
            }
            return false;
        }
        let mut x = self.left_edge;
        while x <= self.right_edge
            invariant
                self.left_edge <= x <= self.right_edge + 1,
                self.right_edge < self.letters@.len(),
                self.right_edge < usize::MAX,
                self.upper_edge <= self.lower_edge,
                forall|i: int|
                    self.left_edge <= i < x ==> self.lower_edge < (
                    #[trigger] self.letters@[i])@.len(),
            decreases self.right_edge + 1 - x,
        {
            if self.lower_edge >= self.letters[x].len() {
                return false;
            }
            x += 1;
        }
        true
    }

    /// The letters between the edges, line by line from the upper edge down,
    /// each line from the left edge to the right.
    pub fn rows(&self) -> (rows: Vec<Vec<char>>)
        requires
            self.in_bounds(),
        ensures
            rows@.len() == self.height(),
            forall|j: int| 0 <= j < rows@.len() ==> (#[trigger] rows@[j])@.len() == self.width(),
            forall|j: int, i: int|
                0 <= j < rows@.len() && 0 <= i < self.width() ==> #[trigger] rows@[j]@[i]
                    == self.letters@[self.left_edge + i]@[self.upper_edge + j],
    {
        let mut rows: Vec<Vec<char>> = Vec::new();
        if self.upper_edge > self.lower_edge {
            return rows;
        }
        let mut y = self.upper_edge;
        loop
            invariant_except_break
                self.upper_edge <= y <= self.lower_edge,
                rows@.len() == y - self.upper_edge,
            invariant
                self.in_bounds(),
                self.upper_edge <= self.lower_edge,
                forall|j: int|
                    0 <= j < rows@.len() ==> (#[trigger] rows@[j])@.len() == self.width(),
                forall|j: int, i: int|
                    0 <= j < rows@.len() && 0 <= i < self.width() ==> #[trigger] rows@[j]@[i]
                        == self.letters@[self.left_edge + i]@[self.upper_edge + j],
            ensures
                rows@.len() == self.height(),
            decreases self.lower_edge - y,
        {
            let row = self.row(y);
            rows.push(row);
            if y == self.lower_edge {
                break;
            }
            y += 1;
        }
        rows
    }

    /// The letters of line `y` from the left edge to the right.
    pub fn row(&self, y: usize) -> (row: Vec<char>)
        requires
            self.in_bounds(),
            self.upper_edge <= y <= self.lower_edge,
        ensures
            row@.len() == self.width(),
            forall|i: int|
                0 <= i < self.width() ==> #[trigger] row@[i] == self.letters@[self.left_edge
                    + i]@[y as int],
    {
        let mut row: Vec<char> = Vec::new();
        if self.left_edge > self.right_edge {
            return row;
        }
        let mut x = self.left_edge;
        loop
            invariant_except_break
                self.left_edge <= x <= self.right_edge,
                row@.len() == x - self.left_edge,
            invariant
                self.in_bounds(),
                self.left_edge <= self.right_edge,
                self.upper_edge <= y <= self.lower_edge,
                forall|i: int|
                    0 <= i < row@.len() ==> #[trigger] row@[i] == self.letters@[self.left_edge
                        + i]@[y as int],
            ensures
                row@.len() == self.width(),
            decreases self.right_edge - x,
        {
            row.push(self.letters[x][y]);
            if x == self.right_edge {
                break;
            }
            x += 1;
        }
        row
    }
}

} // verus!
