//! The crossword state: one slot per input word, each holding the word and,
//! while the word is part of the layout, where it lies.

use crate::layout::{
    all_placed, box_low, box_max, box_min, box_width, cells_upto, crossable_cells, has_margin,
    high_upto, lemma_box_fits, lemma_next_order_bound, lemma_placed_upto_bound,
    lemma_seeded_well_formed, low_upto, max_order_upto, next_order, placed_count, placed_upto,
    seeded, shown, shown_upto, slot_cells, well_formed, Cell, Placement, Slot,
};
use vstd::prelude::*;

verus! {

/// Index of the horizontal coordinate in a position pair.
pub const X: usize = 0;

/// Index of the vertical coordinate in a position pair.
pub const Y: usize = 1;

/// The axis a word runs along.
#[derive(Clone, Copy, Debug, PartialEq, Eq, Structural)]
pub enum Direction {
    Across,
    Down,
}

/// Where a placed word lies and when it was inserted.
#[derive(Clone, Copy, Debug, PartialEq, Eq, Structural)]
pub struct CrossData {
    pub row: i32,
    pub start_point: i32,
    pub direction: Direction,
    pub order: usize,
}

/// A word and its placement, if it has one.
#[derive(Clone, Debug, PartialEq, Eq)]
pub struct WordCross<'a> {
    pub word: &'a str,
    pub cross: Option<CrossData>,
}

/// The layout under construction: the slots in input order.
#[derive(Clone, Debug, PartialEq, Eq)]
pub struct Crossword<'a> {
    pub words: Vec<WordCross<'a>>,
}

impl View for CrossData {
    type V = Placement;

    open spec fn view(&self) -> Placement {
        Placement {
            row: self.row as int,
            start: self.start_point as int,
            direction: self.direction,
            order: self.order as nat,
        }
    }
}

impl<'a> View for WordCross<'a> {
    type V = Slot;

    open spec fn view(&self) -> Slot {
        Slot {
            word: self.word@,
            placement: match self.cross {
                Some(cross_data) => Some(cross_data@),
                None => None,
            },
        }
    }
}

impl<'a> View for Crossword<'a> {
    type V = Seq<Slot>;

    open spec fn view(&self) -> Seq<Slot> {
        Seq::new(self.words@.len(), |i: int| self.words@[i]@)
    }
}

impl Direction {
    /// Index of the axis in a position pair: 0 for `Across`, 1 for `Down`.
    pub open spec fn axis_index(self) -> int {
        match self {
            Direction::Across => 0,
            Direction::Down => 1,
        }
    }

    /// The other axis.
    pub open spec fn flipped(self) -> Direction {
        match self {
            Direction::Across => Direction::Down,
            Direction::Down => Direction::Across,
        }
    }

    /// Index of the axis in a position pair: [`X`] for `Across`, [`Y`] for
    /// `Down`.
    pub fn index(&self) -> (i: usize)
        ensures
            i == self.axis_index(),
    {
        match self {
            Direction::Across => X,
            Direction::Down => Y,
        }
    }

    /// The other axis.
    pub fn change(&self) -> (d: Direction)
        ensures
            d == self.flipped(),
            d != *self,
    {
        match self {
            Direction::Across => Direction::Down,
            Direction::Down => Direction::Across,
        }
    }
}

impl CrossData {
    /// The cell of the first letter, as `[x, y]`.
    pub fn get_position(&self) -> (position: [i32; 2])
        ensures
            position[0] == self@.low(Direction::Across),
            position[1] == self@.low(Direction::Down),
    {
        match self.direction {
            Direction::Across => [self.start_point, self.row],
            Direction::Down => [self.row, self.start_point],
        }
    }
}

/// The view of a cell as it is handed out, with 32-bit coordinates.
pub open spec fn cell_view(cell: (char, i32, i32, Direction)) -> Cell {
    (cell.0, cell.1 as int, cell.2 as int, cell.3)
}

/// The views of a list of cells.
pub open spec fn cells_view(cells: Seq<(char, i32, i32, Direction)>) -> Seq<Cell> {
    Seq::new(cells.len(), |k: int| cell_view(cells[k]))
}

impl<'a> Crossword<'a> {
    /// Well-formedness of the state: see [`well_formed`].
    pub open spec fn wf(&self) -> bool {
        well_formed(self@)
    }

    /// Whether the state is well formed: see [`well_formed`].
    pub fn is_well_formed(&self) -> (ok: bool)
        ensures
            ok == self.wf(),
    {
        let n = self.words.len();
        let mut placed: usize = 0;
        let mut i: usize = 0;
        while i < n
            invariant
                i <= n,
                n == self.words.len(),
                placed == placed_upto(self@, i as nat),
                placed <= i,
            decreases n - i,
        {
            if self.words[i].cross.is_some() {
                placed += 1;
            }
            i += 1;
        }
        let mut i: usize = 0;
        while i < n
            invariant
                i <= n,
                n == self.words.len(),
                placed == placed_count(self@),
                forall|j: int|
                    0 <= j < i ==> match (#[trigger] self@[j]).placement {
                        Some(p) => has_margin(self@[j].word.len(), p) && p.order < placed,
                        None => true,
                    },
            decreases n - i,
        {
            assert(self@[i as int] == self.words@[i as int]@);
            match self.words[i].cross {
                Some(cross_data) => {
                    let len = self.words[i].word.unicode_len();
                    if len > 0xffff_ffff {
                        return false;
                    }
                    let end = cross_data.start_point as i64 + len as i64 - 1;
                    let row_ok = i32::MIN < cross_data.row && cross_data.row < i32::MAX;
                    let start_ok = i32::MIN < cross_data.start_point;
                    let end_ok = (i32::MIN as i64) < end && end < (i32::MAX as i64);
                    if !(row_ok && start_ok && end_ok && cross_data.order < placed) {
                        return false;
                    }
                },
                None => {},
            }
            i += 1;
        }
        true
    }

    /// One entry per letter of every placed word, by slot and then by letter
    /// position: the letter, its coordinate along the word, the word's fixed
    /// coordinate and the axis on which another word may cross it.
    pub fn get_crossable_letters(&self) -> (output: Vec<(char, i32, i32, Direction)>)
        requires
            self.wf(),
        ensures
            cells_view(output@) == crossable_cells(self@),
    {
        let mut output: Vec<(char, i32, i32, Direction)> = Vec::new();
        let n = self.words.len();
        let mut i: usize = 0;
        while i < n
            invariant
                i <= n,
                n == self.words.len(),
                self.wf(),
                cells_view(output@) == cells_upto(self@, i as nat),
            decreases n - i,
        {
            let ghost before = cells_view(output@);
            let ghost slot = self@[i as int];
            match self.words[i].cross {
                Some(cross_data) => {
                    let word = self.words[i].word;
                    let direction = cross_data.direction.change();
                    let len = word.unicode_len();
                    let mut k: usize = 0;
                    while k < len
                        invariant
                            k <= len,
                            len == word@.len(),
                            has_margin(word@.len(), cross_data@),
                            direction == cross_data.direction.flipped(),
                            slot == (Slot { word: word@, placement: Some(cross_data@) }),
                            cells_view(output@) == before + slot_cells(slot).take(k as int),
                        decreases len - k,
                    {
                        let letter = word.get_char(k);
                        let along = (cross_data.start_point as i64 + k as i64) as i32;
                        let ghost known = cells_view(output@);
                        output.push((letter, along, cross_data.row, direction));
                        assert(cells_view(output@) =~= known.push(slot_cells(slot)[k as int]));
                        k += 1;
                    }
                },
                None => {},
            }
            i += 1;
        }
        output
    }

    /// The tag for the next insertion.
    pub fn get_next_order(&self) -> (order: usize)
        requires
            self.wf(),
        ensures
            order == next_order(self@),
    {
        let n = self.words.len();
        let mut highest: usize = 0;
        let mut any = false;
        let mut i: usize = 0;
        while i < n
            invariant
                i <= n,
                n == self.words.len(),
                self.wf(),
                highest == max_order_upto(self@, i as nat),
                any == (placed_upto(self@, i as nat) > 0),
            decreases n - i,
        {
            match self.words[i].cross {
                Some(cross_data) => {
                    if cross_data.order > highest {
                        highest = cross_data.order;
                    }
                    any = true;
                },
                None => {},
            }
            i += 1;
        }
        if any {
            proof {
                lemma_next_order_bound(self@);
                lemma_placed_upto_bound(self@, n as nat);
            }
            highest + 1
        } else {
            0
        }
    }

    /// The two sides of the bounding box, shorter first.
    pub fn get_min_max(&self) -> (sides: (usize, usize))
        requires
            self.wf(),
        ensures
            sides.0 == box_min(self@),
            sides.1 == box_max(self@),
    {
        let (_, x_width, _, y_width) = self.get_x_y_width();
        if x_width <= y_width {
            (x_width, y_width)
        } else {
            (y_width, x_width)
        }
    }

    /// Whether every word is part of the layout.
    pub fn all_words_crossed(&self) -> (crossed: bool)
        ensures
            crossed == all_placed(self@),
    {
        let n = self.words.len();
        let mut i: usize = 0;
        while i < n
            invariant
                i <= n,
                n == self.words.len(),
                forall|j: int| 0 <= j < i ==> (#[trigger] self@[j]).placement is Some,
            decreases n - i,
        {
            assert(self@[i as int] == self.words@[i as int]@);
            if self.words[i].cross.is_none() {
                return false;
            }
            i += 1;
        }
        true
    }

    /// The bounding box of the placed words: its lower `x` edge and width,
    /// then its lower `y` edge and height.
    pub fn get_x_y_width(&self) -> (extent: (i32, usize, i32, usize))
        requires
            self.wf(),
        ensures
            extent.0 == box_low(self@, Direction::Across),
            extent.1 == box_width(self@, Direction::Across),
            extent.2 == box_low(self@, Direction::Down),
            extent.3 == box_width(self@, Direction::Down),
    {
        let mut first_word = true;
        let mut x_low: i32 = 0;
        let mut x_high: i32 = 0;
        let mut y_low: i32 = 0;
        let mut y_high: i32 = 0;
        let n = self.words.len();
        let mut i: usize = 0;
        while i < n
            invariant
                i <= n,
                n == self.words.len(),
                self.wf(),
                first_word == (placed_upto(self@, i as nat) == 0),
                x_low == low_upto(self@, Direction::Across, i as nat),
                x_high == high_upto(self@, Direction::Across, i as nat),
                y_low == low_upto(self@, Direction::Down, i as nat),
                y_high == high_upto(self@, Direction::Down, i as nat),
                i32::MIN < x_low,
                i32::MIN < y_low,
                x_high < i32::MAX,
                y_high < i32::MAX,
                x_low - 1 <= x_high,
                y_low - 1 <= y_high,
            decreases n - i,
        {
            assert(self@[i as int] == self.words@[i as int]@);
            match self.words[i].cross {
                Some(cross_data) => {
                    let position_start = cross_data.get_position();
                    let position_end = get_position_end(self.words[i].word, &cross_data);
                    if first_word {
                        x_low = position_start[X];
                        x_high = position_end[X];
                        y_low = position_start[Y];
                        y_high = position_end[Y];
                        first_word = false;
                    } else {
                        if position_start[X] < x_low {
                            x_low = position_start[X];
                        }
                        if position_end[X] > x_high {
                            x_high = position_end[X];
                        }
                        if position_start[Y] < y_low {
                            y_low = position_start[Y];
                        }
                        if position_end[Y] > y_high {
                            y_high = position_end[Y];
                        }
                    }
                },
                None => {},
            }
            i += 1;
        }
        let x_width = (x_high as i64 - x_low as i64 + 1) as usize;
        let y_width = (y_high as i64 - y_low as i64 + 1) as usize;
        (x_low, x_width, y_low, y_width)
    }

    /// What the layout shows at cell (`x`, `y`): where several words have a
    /// letter there, that of the last one in slot order, and a blank where
    /// none has.
    pub fn letter_shown(&self, x: i32, y: i32) -> (letter: char)
        requires
            self.wf(),
        ensures
            letter == shown(self@, x as int, y as int),
    {
        let mut letter = ' ';
        let n = self.words.len();
        let mut i: usize = 0;
        while i < n
            invariant
                i <= n,
                n == self.words.len(),
                self.wf(),
                letter == shown_upto(self@, i as nat, x as int, y as int),
            decreases n - i,
        {
            match self.words[i].cross {
                Some(cross_data) => {
                    let word = self.words[i].word;
                    let (along, across) = match cross_data.direction {
                        Direction::Across => (x as i64, y as i64),
                        Direction::Down => (y as i64, x as i64),
                    };
                    let start = cross_data.start_point as i64;
                    if across == cross_data.row as i64 && start <= along {
                        let len = word.unicode_len();
                        if along - start < len as i64 {
                            letter = word.get_char((along - start) as usize);
                        }
                    }
                },
                None => {},
            }
            i += 1;
        }
        letter
    }

    /// The picture of the layout: one row for each line of the bounding box,
    /// top first, and in each row what the layout shows at each cell of the
    /// line, left first.
    pub fn render(&self) -> (rows: Vec<Vec<char>>)
        requires
            self.wf(),
        ensures
            rows@.len() == box_width(self@, Direction::Down),
            forall|y: int|
                0 <= y < rows@.len() ==> (#[trigger] rows@[y])@.len() == box_width(
                    self@,
                    Direction::Across,
                ),
            forall|y: int, x: int|
                0 <= y < rows@.len() && 0 <= x < box_width(self@, Direction::Across)
                    ==> #[trigger] rows@[y]@[x] == shown(
                    self@,
                    box_low(self@, Direction::Across) + x,
                    box_low(self@, Direction::Down) + y,
                ),
    {
        let (x_low, x_width, y_low, y_width) = self.get_x_y_width();
        let mut rows: Vec<Vec<char>> = Vec::new();
        let mut y: usize = 0;
        while y < y_width
            invariant
                y <= y_width,
                self.wf(),
                x_low == box_low(self@, Direction::Across),
                y_low == box_low(self@, Direction::Down),
                x_width == box_width(self@, Direction::Across),
                y_width == box_width(self@, Direction::Down),
                rows@.len() == y,
                forall|j: int| 0 <= j < y ==> (#[trigger] rows@[j])@.len() == x_width,
                forall|j: int, i: int|
                    0 <= j < y && 0 <= i < x_width ==> #[trigger] rows@[j]@[i] == shown(
                        self@,
                        x_low + i,
                        y_low + j,
                    ),
            decreases y_width - y,
        {
            let mut row: Vec<char> = Vec::new();
            let mut x: usize = 0;
            while x < x_width
                invariant
                    x <= x_width,
                    y < y_width,
                    self.wf(),
                    x_width == box_width(self@, Direction::Across),
                    y_width == box_width(self@, Direction::Down),
                    x_low == box_low(self@, Direction::Across),
                    y_low == box_low(self@, Direction::Down),
                    row@.len() == x,
                    forall|i: int|
                        0 <= i < x ==> #[trigger] row@[i] == shown(self@, x_low + i, y_low + y),
                decreases x_width - x,
            {
                proof {
                    lemma_box_fits(self@, Direction::Across);
                    lemma_box_fits(self@, Direction::Down);
                }
                let cell_x = (x_low as i64 + x as i64) as i32;
                let cell_y = (y_low as i64 + y as i64) as i32;
                row.push(self.letter_shown(cell_x, cell_y));
                x += 1;
            }
            rows.push(row);
            y += 1;
        }
        rows
    }

    /// An independent copy of the state.
    pub fn snapshot(&self) -> (copy: Crossword<'a>)
        ensures
            copy.words@ == self.words@,
    {
        let mut words: Vec<WordCross<'a>> = Vec::new();
        let n = self.words.len();
        let mut i: usize = 0;
        while i < n
            invariant
                i <= n,
                n == self.words.len(),
                words@ == self.words@.take(i as int),
            decreases n - i,
        {
            words.push(WordCross { word: self.words[i].word, cross: self.words[i].cross });
            i += 1;
        }
        Crossword { words }
    }
}

/// The cell of the last letter of `word` placed at `cross_data`, as `[x, y]`.
pub fn get_position_end(word: &str, cross_data: &CrossData) -> (position: [i32; 2])
    requires
        i32::MIN <= cross_data@.end(word@.len()) <= i32::MAX,
    ensures
        position[0] == cross_data@.high(word@.len(), Direction::Across),
        position[1] == cross_data@.high(word@.len(), Direction::Down),
{
    let len = word.unicode_len();
    let end = (cross_data.start_point as i64 + len as i64 - 1) as i32;
    match cross_data.direction {
        Direction::Across => [end, cross_data.row],
        Direction::Down => [cross_data.row, end],
    }
}

/// The state before the search: every word in its slot, the first one
/// anchored at the origin, running across, with tag 0.
pub fn crossword_initialise<'a>(words: &'a [String]) -> (crossword: Crossword<'a>)
    requires
        words@.len() > 0,
    ensures
        crossword@ == seeded(words@.map_values(|w: String| w@)),
        words@[0]@.len() <= i32::MAX ==> crossword.wf(),
{
    let mut word_cross_vec: Vec<WordCross<'a>> = Vec::new();
    let n = words.len();
    let mut i: usize = 0;
    while i < n
        invariant
            i <= n,
            n == words@.len(),
            word_cross_vec@.len() == i,
            forall|j: int|
                0 <= j < i ==> (#[trigger] word_cross_vec@[j]).word@ == words@[j]@
                    && word_cross_vec@[j].cross is None,
        decreases n - i,
    {
        let word_cross = WordCross { word: words[i].as_str(), cross: None };
        word_cross_vec.push(word_cross);
        i += 1;
    }
    let first_word_cross_data = CrossData {
        row: 0,
        start_point: 0,
        direction: Direction::Across,
        order: 0,
    };
    let first = WordCross { word: word_cross_vec[0].word, cross: Some(first_word_cross_data) };
    word_cross_vec.set(0, first);
    let crossword = Crossword { words: word_cross_vec };
    proof {
        let texts = words@.map_values(|w: String| w@);
        if words@[0]@.len() <= i32::MAX {
            lemma_seeded_well_formed(texts);
        }
    }
    crossword
}

} // verus!
