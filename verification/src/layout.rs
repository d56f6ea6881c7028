//! The mathematical model of a layout: word slots with optional placements
//! over unbounded integers, and the quantities derived from them.

use crate::crossword::Direction;
use vstd::prelude::*;

verus! {

/// Where a word lies: the fixed coordinate on the axis it does not run along,
/// the coordinate of its first letter on the axis it runs along, that axis,
/// and the tag that records when it was inserted.
pub struct Placement {
    pub row: int,
    pub start: int,
    pub direction: Direction,
    pub order: nat,
}

/// One input word together with its placement, if it is part of the layout.
pub struct Slot {
    pub word: Seq<char>,
    pub placement: Option<Placement>,
}

impl Placement {
    /// The coordinate of the last letter of a word of `len` letters.
    pub open spec fn end(self, len: nat) -> int {
        self.start + len - 1
    }

    /// The smallest coordinate the word reaches on `axis`.
    pub open spec fn low(self, axis: Direction) -> int {
        if self.direction == axis {
            self.start
        } else {
            self.row
        }
    }

    /// The largest coordinate a word of `len` letters reaches on `axis`.
    pub open spec fn high(self, len: nat, axis: Direction) -> int {
        if self.direction == axis {
            self.end(len)
        } else {
            self.row
        }
    }

    /// The same place on the grid, whatever the insertion tags are.
    pub open spec fn same_place(self, other: Placement) -> bool {
        &&& self.row == other.row
        &&& self.start == other.start
        &&& self.direction == other.direction
    }
}

/// A letter of a placed word, offered as a crossing point: the letter, its
/// coordinate along the word, the word's fixed coordinate, and the axis a
/// crossing word would run along.
pub type Cell = (char, int, int, Direction);

/// Number of placed words among the first `n` slots.
pub open spec fn placed_upto(slots: Seq<Slot>, n: nat) -> nat
    decreases n,
{
    if n == 0 {
        0
    } else {
        placed_upto(slots, (n - 1) as nat) + if slots[n - 1].placement is Some {
            1nat
        } else {
            0nat
        }
    }
}

/// Number of placed words.
pub open spec fn placed_count(slots: Seq<Slot>) -> nat {
    placed_upto(slots, slots.len())
}

/// Every slot holds a placement.
pub open spec fn all_placed(slots: Seq<Slot>) -> bool {
    forall|i: int| 0 <= i < slots.len() ==> (#[trigger] slots[i]).placement is Some
}

/// The slots of `words` with the first word at the origin and no other word
/// placed.
pub open spec fn seeded(words: Seq<Seq<char>>) -> Seq<Slot> {
    Seq::new(
        words.len(),
        |i: int|
            Slot {
                word: words[i],
                placement: if i == 0 {
                    Some(Placement { row: 0, start: 0, direction: Direction::Across, order: 0 })
                } else {
                    None
                },
            },
    )
}

/// The smaller of two integers.
pub open spec fn min_of(a: int, b: int) -> int {
    if a <= b {
        a
    } else {
        b
    }
}

/// The larger of two integers.
pub open spec fn max_of(a: int, b: int) -> int {
    if a >= b {
        a
    } else {
        b
    }
}

/// The smallest coordinate on `axis` that a placed word among the first `n`
/// slots reaches; 0 when none of them is placed.
pub open spec fn low_upto(slots: Seq<Slot>, axis: Direction, n: nat) -> int
    decreases n,
{
    if n == 0 {
        0
    } else {
        let rest = low_upto(slots, axis, (n - 1) as nat);
        match slots[n - 1].placement {
            None => rest,
            Some(p) => if placed_upto(slots, (n - 1) as nat) == 0 {
                p.low(axis)
            } else {
                min_of(rest, p.low(axis))
            },
        }
    }
}

/// The largest coordinate on `axis` that a placed word among the first `n`
/// slots reaches; 0 when none of them is placed.
pub open spec fn high_upto(slots: Seq<Slot>, axis: Direction, n: nat) -> int
    decreases n,
{
    if n == 0 {
        0
    } else {
        let rest = high_upto(slots, axis, (n - 1) as nat);
        match slots[n - 1].placement {
            None => rest,
            Some(p) => if placed_upto(slots, (n - 1) as nat) == 0 {
                p.high(slots[n - 1].word.len(), axis)
            } else {
                max_of(rest, p.high(slots[n - 1].word.len(), axis))
            },
        }
    }
}

/// Lower edge of the bounding box on `axis`.
pub open spec fn box_low(slots: Seq<Slot>, axis: Direction) -> int {
    low_upto(slots, axis, slots.len())
}

/// Upper edge of the bounding box on `axis`.
pub open spec fn box_high(slots: Seq<Slot>, axis: Direction) -> int {
    high_upto(slots, axis, slots.len())
}

/// Side length of the bounding box on `axis`, in cells.
pub open spec fn box_width(slots: Seq<Slot>, axis: Direction) -> int {
    box_high(slots, axis) - box_low(slots, axis) + 1
}

/// The shorter side of the bounding box.
pub open spec fn box_min(slots: Seq<Slot>) -> int {
    min_of(box_width(slots, Direction::Across), box_width(slots, Direction::Down))
}

/// The longer side of the bounding box.
pub open spec fn box_max(slots: Seq<Slot>) -> int {
    max_of(box_width(slots, Direction::Across), box_width(slots, Direction::Down))
}

/// The largest insertion tag among the first `n` slots; 0 when none is placed.
pub open spec fn max_order_upto(slots: Seq<Slot>, n: nat) -> nat
    decreases n,
{
    if n == 0 {
        0
    } else {
        let rest = max_order_upto(slots, (n - 1) as nat);
        match slots[n - 1].placement {
            None => rest,
            Some(p) => if p.order > rest {
                p.order
            } else {
                rest
            },
        }
    }
}

/// The tag for the next insertion: one more than the largest tag in use, or 0
/// for a layout without any placed word.
pub open spec fn next_order(slots: Seq<Slot>) -> nat {
    if placed_count(slots) == 0 {
        0
    } else {
        max_order_upto(slots, slots.len()) + 1
    }
}

/// The cells of one slot, first letter first; none for an unplaced word.
pub open spec fn slot_cells(slot: Slot) -> Seq<Cell> {
    match slot.placement {
        None => Seq::empty(),
        Some(p) => Seq::new(
            slot.word.len(),
            |k: int| (slot.word[k], p.start + k, p.row, p.direction.flipped()),
        ),
    }
}

/// The cells of the first `n` slots, in slot order.
pub open spec fn cells_upto(slots: Seq<Slot>, n: nat) -> Seq<Cell>
    decreases n,
{
    if n == 0 {
        Seq::empty()
    } else {
        cells_upto(slots, (n - 1) as nat) + slot_cells(slots[n - 1])
    }
}

/// Every crossing point of the layout, by slot and then by letter position.
pub open spec fn crossable_cells(slots: Seq<Slot>) -> Seq<Cell> {
    cells_upto(slots, slots.len())
}

/// The slot holds a placed word with a letter at cell (`x`, `y`).
pub open spec fn covers(slot: Slot, x: int, y: int) -> bool {
    match slot.placement {
        Some(p) => match p.direction {
            Direction::Across => y == p.row && p.start <= x <= p.end(slot.word.len()),
            Direction::Down => x == p.row && p.start <= y <= p.end(slot.word.len()),
        },
        None => false,
    }
}

/// The letter that the word of the slot puts at cell (`x`, `y`).
pub open spec fn letter_on(slot: Slot, x: int, y: int) -> char
    recommends
        covers(slot, x, y),
{
    let p = slot.placement->0;
    match p.direction {
        Direction::Across => slot.word[x - p.start],
        Direction::Down => slot.word[y - p.start],
    }
}

/// What the first `n` slots show at cell (`x`, `y`): the letter of the last
/// of them that has one there, or a blank.
pub open spec fn shown_upto(slots: Seq<Slot>, n: nat, x: int, y: int) -> char
    decreases n,
{
    if n == 0 {
        ' '
    } else if covers(slots[n - 1], x, y) {
        letter_on(slots[n - 1], x, y)
    } else {
        shown_upto(slots, (n - 1) as nat, x, y)
    }
}

/// What the layout shows at cell (`x`, `y`).
pub open spec fn shown(slots: Seq<Slot>, x: int, y: int) -> char {
    shown_upto(slots, slots.len(), x, y)
}

/// The placement keeps one cell of margin inside the 32-bit range, so that the
/// neighbours of every cell of the word have coordinates too.
pub open spec fn has_margin(len: nat, p: Placement) -> bool {
    &&& i32::MIN < p.row < i32::MAX
    &&& i32::MIN < p.start
    &&& i32::MIN < p.end(len) < i32::MAX
}

/// Well-formed layout: every placed word has its margin, and every insertion
/// tag is below the number of placed words.
pub open spec fn well_formed(slots: Seq<Slot>) -> bool {
    forall|i: int|
        0 <= i < slots.len() ==> match (#[trigger] slots[i]).placement {
            Some(p) => has_margin(slots[i].word.len(), p) && p.order < placed_count(slots),
            None => true,
        }
}

/// The number of placed words among the first `n` slots is at most `n`.
pub proof fn lemma_placed_upto_bound(slots: Seq<Slot>, n: nat)
    ensures
        placed_upto(slots, n) <= n,
    decreases n,
{
    if n > 0 {
        lemma_placed_upto_bound(slots, (n - 1) as nat);
    }
}

/// Where no word is counted among the first `n` slots, none of them is
/// placed; and one placed word among them is enough to be counted.
pub proof fn lemma_placed_upto_zero(slots: Seq<Slot>, n: nat)
    requires
        n <= slots.len(),
    ensures
        placed_upto(slots, n) == 0 <==> forall|i: int|
            0 <= i < n ==> (#[trigger] slots[i]).placement is None,
    decreases n,
{
    if n > 0 {
        lemma_placed_upto_zero(slots, (n - 1) as nat);
    }
}

/// The lower edge on `axis` of the first `n` slots, one of them being placed,
/// is the least of the lower ends of the placed words among them.
pub proof fn lemma_low_is_least(slots: Seq<Slot>, axis: Direction, n: nat)
    requires
        n <= slots.len(),
        placed_upto(slots, n) > 0,
    ensures
        forall|i: int|
            0 <= i < n && (#[trigger] slots[i]).placement is Some ==> low_upto(slots, axis, n)
                <= slots[i].placement->0.low(axis),
        exists|i: int|
            0 <= i < n && (#[trigger] slots[i]).placement is Some && low_upto(slots, axis, n)
                == slots[i].placement->0.low(axis),
    decreases n,
{
    let before = (n - 1) as nat;
    if placed_upto(slots, before) > 0 {
        lemma_low_is_least(slots, axis, before);
    } else {
        lemma_placed_upto_zero(slots, before);
    }
}

/// The upper edge on `axis` of the first `n` slots, one of them being placed,
/// is the greatest of the upper ends of the placed words among them.
pub proof fn lemma_high_is_greatest(slots: Seq<Slot>, axis: Direction, n: nat)
    requires
        n <= slots.len(),
        placed_upto(slots, n) > 0,
    ensures
        forall|i: int|
            0 <= i < n && (#[trigger] slots[i]).placement is Some ==> high_upto(slots, axis, n)
                >= slots[i].placement->0.high(slots[i].word.len(), axis),
        exists|i: int|
            0 <= i < n && (#[trigger] slots[i]).placement is Some && high_upto(slots, axis, n)
                == slots[i].placement->0.high(slots[i].word.len(), axis),
    decreases n,
{
    let before = (n - 1) as nat;
    if placed_upto(slots, before) > 0 {
        lemma_high_is_greatest(slots, axis, before);
    } else {
        lemma_placed_upto_zero(slots, before);
    }
}

/// Without a placed word among the first `n` slots both edges are 0.
pub proof fn lemma_edges_of_none(slots: Seq<Slot>, axis: Direction, n: nat)
    requires
        n <= slots.len(),
        placed_upto(slots, n) == 0,
    ensures
        low_upto(slots, axis, n) == 0,
        high_upto(slots, axis, n) == 0,
    decreases n,
{
    if n > 0 {
        lemma_edges_of_none(slots, axis, (n - 1) as nat);
    }
}

/// The bounding box of a well-formed layout keeps the margin of its words:
/// its edges are 32-bit values, and its sides fit 32 bits without a sign.
pub proof fn lemma_box_fits(slots: Seq<Slot>, axis: Direction)
    requires
        well_formed(slots),
    ensures
        i32::MIN < box_low(slots, axis) <= i32::MAX,
        i32::MIN < box_high(slots, axis) < i32::MAX,
        0 <= box_width(slots, axis) <= u32::MAX,
{
    if placed_count(slots) > 0 {
        lemma_low_is_least(slots, axis, slots.len());
        lemma_high_is_greatest(slots, axis, slots.len());
    } else {
        lemma_edges_of_none(slots, axis, slots.len());
    }
}

/// Every insertion tag among the first `n` slots is at most the largest one.
pub proof fn lemma_max_order_bounds(slots: Seq<Slot>, n: nat, i: int)
    requires
        0 <= i < n <= slots.len(),
        slots[i].placement is Some,
    ensures
        slots[i].placement->0.order <= max_order_upto(slots, n),
        placed_upto(slots, n) > 0,
    decreases n,
{
    if i < n - 1 {
        lemma_max_order_bounds(slots, (n - 1) as nat, i);
    }
}

/// The largest tag among the first `n` slots is 0 or the tag of one of them.
pub proof fn lemma_max_order_is_a_tag(slots: Seq<Slot>, n: nat)
    requires
        n <= slots.len(),
    ensures
        max_order_upto(slots, n) == 0 || exists|i: int|
            0 <= i < n && (#[trigger] slots[i]).placement is Some && slots[i].placement->0.order
                == max_order_upto(slots, n),
    decreases n,
{
    if n > 0 {
        lemma_max_order_is_a_tag(slots, (n - 1) as nat);
        match slots[n - 1].placement {
            Some(p) => {},
            None => {},
        }
    }
}

/// In a well-formed layout the tag for the next insertion is at most the
/// number of placed words.
pub proof fn lemma_next_order_bound(slots: Seq<Slot>)
    requires
        well_formed(slots),
    ensures
        next_order(slots) <= placed_count(slots),
{
    lemma_max_order_is_a_tag(slots, slots.len());
}

/// The cells of a placed word lie on the line of the word, one step apart,
/// the first at its start and the last at its end, and carry its letters.
pub proof fn lemma_cells_run_along_line(slot: Slot)
    requires
        slot.placement is Some,
    ensures
        slot_cells(slot).len() == slot.word.len(),
        forall|k: int|
            0 <= k < slot.word.len() ==> {
                &&& (#[trigger] slot_cells(slot)[k]).0 == slot.word[k]
                &&& slot_cells(slot)[k].1 == slot.placement->0.start + k
                &&& slot_cells(slot)[k].2 == slot.placement->0.row
            },
        slot.word.len() > 0 ==> slot_cells(slot).last().1 == slot.placement->0.end(slot.word.len()),
{
}

/// Only the first `n` slots being looked at, a seeded layout holds one placed
/// word as soon as `n` is positive.
pub proof fn lemma_seeded_count(words: Seq<Seq<char>>, n: nat)
    requires
        n <= words.len(),
    ensures
        placed_upto(seeded(words), n) == if n == 0 {
            0nat
        } else {
            1nat
        },
    decreases n,
{
    if n > 0 {
        lemma_seeded_count(words, (n - 1) as nat);
    }
}

/// A seeded layout is well formed when its first word is short enough for its
/// last letter to have a 32-bit coordinate with a margin.
pub proof fn lemma_seeded_well_formed(words: Seq<Seq<char>>)
    requires
        words.len() > 0,
        words[0].len() <= i32::MAX,
    ensures
        well_formed(seeded(words)),
{
    lemma_seeded_count(words, words.len());
}

} // verus!
