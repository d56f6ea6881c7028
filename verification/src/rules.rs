//! The placement rules: when a word may be written into a layout next to the
//! words that are already there, what an insertion does to the layout, and
//! what a layout built under these rules can be relied on for.

use crate::crossword::Direction;
use crate::layout::{
    box_high, box_low, box_max, box_min, box_width, has_margin, lemma_edges_of_none,
    lemma_high_is_greatest, lemma_low_is_least, lemma_max_order_bounds, lemma_next_order_bound,
    lemma_placed_upto_zero, max_of, min_of, next_order, placed_count, placed_upto, seeded,
    well_formed, Placement, Slot,
};
use vstd::prelude::*;

verus! {

/// The letter at position `index` of `word`, or a blank outside the word.
pub open spec fn letter_at(word: Seq<char>, index: int) -> char {
    if 0 <= index < word.len() {
        word[index]
    } else {
        ' '
    }
}

/// The slot holds a word that runs along `direction` on line `row` and covers
/// both `point0` and `point1`.
pub open spec fn connects(
    slot: Slot,
    point0: int,
    point1: int,
    row: int,
    direction: Direction,
) -> bool {
    match slot.placement {
        Some(p) => {
            &&& p.direction == direction
            &&& p.row == row
            &&& p.start <= min_of(point0, point1)
            &&& p.start + slot.word.len() > max_of(point0, point1)
        },
        None => false,
    }
}

/// Some placed word runs along `direction` on line `row` and covers both
/// `point0` and `point1`.
pub open spec fn has_connecting_word(
    slots: Seq<Slot>,
    point0: int,
    point1: int,
    row: int,
    direction: Direction,
) -> bool {
    exists|k: int|
        0 <= k < slots.len() && connects(#[trigger] slots[k], point0, point1, row, direction)
}

/// Two words on the same axis, the first on line `row0` from `start0` to
/// `end0`, the second on line `row1` from `start1` to `end1`, keep their
/// distance:
/// - two or more lines apart, anything goes;
/// - on neighbouring lines their spans share no coordinate, or exactly one,
///   the end of one and the start of the other, and a placed word of the
///   other axis runs through both cells there;
/// - on one line at least one empty cell lies between them.
pub open spec fn parallel_ok(
    start0: int,
    end0: int,
    row0: int,
    start1: int,
    end1: int,
    row1: int,
    direction: Direction,
    slots: Seq<Slot>,
) -> bool {
    if row0 < row1 - 1 || row1 < row0 - 1 {
        true
    } else if row0 == row1 - 1 || row1 == row0 - 1 {
        if end0 < start1 || end1 < start0 {
            true
        } else if end0 == start1 {
            has_connecting_word(slots, row0, row1, end0, direction.flipped())
        } else if end1 == start0 {
            has_connecting_word(slots, row0, row1, end1, direction.flipped())
        } else {
            false
        }
    } else {
        end0 < start1 - 1 || end1 < start0 - 1
    }
}

/// The two words are so far apart that no cell of one touches a cell of the
/// other. The first word runs from `start0` to `end0` on line `row1` of its
/// axis, the second from `start1` to `end1` on line `row0` of the other axis.
pub open spec fn crossing_apart(
    start0: int,
    end0: int,
    row1: int,
    start1: int,
    end1: int,
    row0: int,
) -> bool {
    end0 < row0 - 1 || start0 > row0 + 1 || end1 < row1 - 1 || start1 > row1 + 1
}

/// One word ends right beside the other's line, within the other's span: the
/// two touch without crossing.
pub open spec fn crossing_touches(
    start0: int,
    end0: int,
    row1: int,
    start1: int,
    end1: int,
    row0: int,
) -> bool {
    ||| ((end0 == row0 - 1 || start0 == row0 + 1) && start1 <= row1 <= end1)
    ||| ((end1 == row1 - 1 || start1 == row1 + 1) && start0 <= row0 <= end0)
}

/// Two words on different axes get along: they are apart, or they do not
/// touch side to end and the letters they put at the line of the other are
/// the same (a blank standing for a position outside a word).
pub open spec fn crossing_ok(
    start0: int,
    end0: int,
    row1: int,
    word0: Seq<char>,
    start1: int,
    end1: int,
    row0: int,
    word1: Seq<char>,
) -> bool {
    if crossing_apart(start0, end0, row1, start1, end1, row0) {
        true
    } else if crossing_touches(start0, end0, row1, start1, end1, row0) {
        false
    } else {
        letter_at(word0, row0 - start0) == letter_at(word1, row1 - start1)
    }
}

/// `word`, put on line `row` of `direction` from `start` on, gets along with
/// the placed word of `other`.
pub open spec fn pair_ok(
    slots: Seq<Slot>,
    word: Seq<char>,
    row: int,
    start: int,
    direction: Direction,
    other: Slot,
) -> bool
    recommends
        other.placement is Some,
{
    let p = other.placement->0;
    let end = start + word.len() - 1;
    let other_end = p.end(other.word.len());
    if p.direction == direction {
        parallel_ok(start, end, row, p.start, other_end, p.row, direction, slots)
    } else {
        crossing_ok(start, end, row, word, p.start, other_end, p.row, other.word)
    }
}

/// `word`, put on line `row` of `direction` from `start` on, gets along with
/// every placed word.
pub open spec fn fits(
    slots: Seq<Slot>,
    word: Seq<char>,
    row: int,
    start: int,
    direction: Direction,
) -> bool {
    forall|j: int|
        0 <= j < slots.len() && (#[trigger] slots[j]).placement is Some ==> pair_ok(
            slots,
            word,
            row,
            start,
            direction,
            slots[j],
        )
}

/// The layout with the placement of slot `index` replaced.
pub open spec fn with_placement(slots: Seq<Slot>, index: int, placement: Option<Placement>) -> Seq<
    Slot,
> {
    slots.update(index, Slot { word: slots[index].word, placement })
}

/// The placement that an insertion on line `row` of `direction` from `start`
/// on writes into the layout.
pub open spec fn new_placement(
    slots: Seq<Slot>,
    row: int,
    start: int,
    direction: Direction,
) -> Placement {
    Placement { row, start, direction, order: next_order(slots) }
}

/// Two placements on the same line of the same axis.
pub open spec fn on_one_line(a: Placement, b: Placement) -> bool {
    a.direction == b.direction && a.row == b.row
}

/// Two words on one line with at least one empty cell between them.
pub open spec fn spaced(a: Placement, a_len: nat, b: Placement, b_len: nat) -> bool {
    a.end(a_len) < b.start - 1 || b.end(b_len) < a.start - 1
}

/// Two words on different axes that share a cell.
pub open spec fn shares_cell(a: Placement, a_len: nat, b: Placement, b_len: nat) -> bool {
    &&& a.direction != b.direction
    &&& a.start <= b.row <= a.end(a_len)
    &&& b.start <= a.row <= b.end(b_len)
}

/// No two placed words on one line overlap or run flush against each other.
pub open spec fn no_overlap(slots: Seq<Slot>) -> bool {
    forall|i: int, j: int|
        #![trigger slots[i], slots[j]]
        0 <= i < slots.len() && 0 <= j < slots.len() && i != j && slots[i].placement is Some
            && slots[j].placement is Some && on_one_line(
            slots[i].placement->0,
            slots[j].placement->0,
        ) ==> spaced(
            slots[i].placement->0,
            slots[i].word.len(),
            slots[j].placement->0,
            slots[j].word.len(),
        )
}

/// Wherever two placed words on different axes share a cell, both put the
/// same letter there.
pub open spec fn letters_agree(slots: Seq<Slot>) -> bool {
    forall|i: int, j: int|
        #![trigger slots[i], slots[j]]
        0 <= i < slots.len() && 0 <= j < slots.len() && slots[i].placement is Some
            && slots[j].placement is Some && shares_cell(
            slots[i].placement->0,
            slots[i].word.len(),
            slots[j].placement->0,
            slots[j].word.len(),
        ) ==> slots[i].word[slots[j].placement->0.row - slots[i].placement->0.start]
            == slots[j].word[slots[i].placement->0.row - slots[j].placement->0.start]
}

/// Every placed word gets along with the words that were placed before it,
/// going by the insertion tags.
pub open spec fn lawful(slots: Seq<Slot>) -> bool {
    forall|i: int, j: int|
        #![trigger slots[i], slots[j]]
        0 <= i < slots.len() && 0 <= j < slots.len() && slots[i].placement is Some
            && slots[j].placement is Some && slots[i].placement->0.order
            > slots[j].placement->0.order ==> pair_ok(
            slots,
            slots[i].word,
            slots[i].placement->0.row,
            slots[i].placement->0.start,
            slots[i].placement->0.direction,
            slots[j],
        )
}

/// No two placed words carry the same insertion tag.
pub open spec fn tags_differ(slots: Seq<Slot>) -> bool {
    forall|i: int, j: int|
        #![trigger slots[i], slots[j]]
        0 <= i < slots.len() && 0 <= j < slots.len() && i != j && slots[i].placement is Some
            && slots[j].placement is Some ==> slots[i].placement->0.order
            != slots[j].placement->0.order
}

/// The layout can be read as a crossword that was built word by word: every
/// word got along with those before it, words on one line stay apart,
/// crossing words agree on the letter of the cell they share, and every word
/// has an insertion tag of its own.
pub open spec fn consistent(slots: Seq<Slot>) -> bool {
    &&& lawful(slots)
    &&& no_overlap(slots)
    &&& letters_agree(slots)
    &&& tags_differ(slots)
}

/// Writing a placement into slot `index`, or clearing it, changes the number
/// of placed words among the first `n` slots by what slot `index` adds to it.
pub proof fn lemma_placed_upto_with_placement(
    slots: Seq<Slot>,
    index: int,
    placement: Option<Placement>,
    n: nat,
)
    requires
        0 <= index < slots.len(),
        n <= slots.len(),
    ensures
        placed_upto(with_placement(slots, index, placement), n) + (if index < n
            && slots[index].placement is Some {
            1nat
        } else {
            0nat
        }) == placed_upto(slots, n) + (if index < n && placement is Some {
            1nat
        } else {
            0nat
        }),
    decreases n,
{
    if n > 0 {
        lemma_placed_upto_with_placement(slots, index, placement, (n - 1) as nat);
    }
}

/// An insertion into an empty slot keeps a well-formed layout well formed,
/// provided the new word has its margin.
pub proof fn lemma_insert_well_formed(
    slots: Seq<Slot>,
    index: int,
    row: int,
    start: int,
    direction: Direction,
)
    requires
        well_formed(slots),
        0 <= index < slots.len(),
        slots[index].placement is None,
        has_margin(slots[index].word.len(), new_placement(slots, row, start, direction)),
    ensures
        well_formed(
            with_placement(slots, index, Some(new_placement(slots, row, start, direction))),
        ),
        placed_count(
            with_placement(slots, index, Some(new_placement(slots, row, start, direction))),
        ) == placed_count(slots) + 1,
{
    let placement = new_placement(slots, row, start, direction);
    lemma_placed_upto_with_placement(slots, index, Some(placement), slots.len());
    lemma_next_order_bound(slots);
}

/// Clearing a slot right after an insertion into it gives back the layout as
/// it was before, provided the slot was empty then.
pub proof fn lemma_remove_undoes_insert(slots: Seq<Slot>, index: int, placement: Placement)
    requires
        0 <= index < slots.len(),
        slots[index].placement is None,
    ensures
        with_placement(with_placement(slots, index, Some(placement)), index, None) == slots,
{
}

/// A connecting word stays one when another word is written into the layout.
pub proof fn lemma_connecting_word_stays(
    slots: Seq<Slot>,
    index: int,
    placement: Placement,
    point0: int,
    point1: int,
    row: int,
    direction: Direction,
)
    requires
        0 <= index < slots.len(),
        slots[index].placement is None,
        has_connecting_word(slots, point0, point1, row, direction),
    ensures
        has_connecting_word(
            with_placement(slots, index, Some(placement)),
            point0,
            point1,
            row,
            direction,
        ),
{
    let after = with_placement(slots, index, Some(placement));
    let k = choose|k: int|
        0 <= k < slots.len() && connects(#[trigger] slots[k], point0, point1, row, direction);
    assert(after[k] == slots[k]);
}

/// Two words that get along still do after another word was written into
/// the layout.
pub proof fn lemma_pair_ok_stays(
    slots: Seq<Slot>,
    index: int,
    placement: Placement,
    word: Seq<char>,
    row: int,
    start: int,
    direction: Direction,
    other: Slot,
)
    requires
        0 <= index < slots.len(),
        slots[index].placement is None,
        other.placement is Some,
        pair_ok(slots, word, row, start, direction, other),
    ensures
        pair_ok(with_placement(slots, index, Some(placement)), word, row, start, direction, other),
{
    let p = other.placement->0;
    let end = start + word.len() - 1;
    let other_end = p.end(other.word.len());
    if p.direction == direction && (row == p.row - 1 || p.row == row - 1) && !(end < p.start
        || other_end < start) {
        if end == p.start {
            lemma_connecting_word_stays(
                slots,
                index,
                placement,
                row,
                p.row,
                end,
                direction.flipped(),
            );
        } else if other_end == start {
            lemma_connecting_word_stays(
                slots,
                index,
                placement,
                row,
                p.row,
                other_end,
                direction.flipped(),
            );
        }
    }
}

/// A word that fits, written into an empty slot of a consistent layout,
/// leaves the layout consistent.
pub proof fn lemma_insert_consistent(
    slots: Seq<Slot>,
    index: int,
    row: int,
    start: int,
    direction: Direction,
)
    requires
        consistent(slots),
        0 <= index < slots.len(),
        slots[index].placement is None,
        fits(slots, slots[index].word, row, start, direction),
    ensures
        consistent(with_placement(slots, index, Some(new_placement(slots, row, start, direction)))),
{
    let placement = new_placement(slots, row, start, direction);
    let word = slots[index].word;
    let after = with_placement(slots, index, Some(placement));
    assert forall|i: int, j: int|
        #![trigger after[i], after[j]]
        0 <= i < after.len() && 0 <= j < after.len() && after[i].placement is Some
            && after[j].placement is Some && after[i].placement->0.order
            > after[j].placement->0.order implies pair_ok(
        after,
        after[i].word,
        after[i].placement->0.row,
        after[i].placement->0.start,
        after[i].placement->0.direction,
        after[j],
    ) by {
        if i == index {
            lemma_pair_ok_stays(slots, index, placement, word, row, start, direction, slots[j]);
        } else if j == index {
            lemma_max_order_bounds(slots, slots.len(), i);
        } else {
            lemma_pair_ok_stays(
                slots,
                index,
                placement,
                slots[i].word,
                slots[i].placement->0.row,
                slots[i].placement->0.start,
                slots[i].placement->0.direction,
                slots[j],
            );
        }
    }
    assert forall|i: int, j: int|
        #![trigger after[i], after[j]]
        0 <= i < after.len() && 0 <= j < after.len() && i != j && after[i].placement is Some
            && after[j].placement is Some implies after[i].placement->0.order
        != after[j].placement->0.order by {
        if i == index {
            lemma_max_order_bounds(slots, slots.len(), j);
        } else if j == index {
            lemma_max_order_bounds(slots, slots.len(), i);
        }
    }
}

/// A seeded layout can be read as a crossword.
pub proof fn lemma_seeded_consistent(words: Seq<Seq<char>>)
    ensures
        consistent(seeded(words)),
{
}

/// A word written into an empty slot moves no edge of the bounding box
/// inwards, provided the layout holds a placed word already.
pub proof fn lemma_insert_moves_edges_out(
    slots: Seq<Slot>,
    index: int,
    placement: Placement,
    axis: Direction,
)
    requires
        0 <= index < slots.len(),
        slots[index].placement is None,
        placed_count(slots) > 0,
    ensures
        box_low(with_placement(slots, index, Some(placement)), axis) <= box_low(slots, axis),
        box_high(with_placement(slots, index, Some(placement)), axis) >= box_high(slots, axis),
        box_width(with_placement(slots, index, Some(placement)), axis) >= box_width(slots, axis),
{
    let after = with_placement(slots, index, Some(placement));
    lemma_placed_upto_with_placement(slots, index, Some(placement), slots.len());
    lemma_low_is_least(slots, axis, slots.len());
    lemma_low_is_least(after, axis, after.len());
    lemma_high_is_greatest(slots, axis, slots.len());
    lemma_high_is_greatest(after, axis, after.len());
    let l = choose|i: int|
        0 <= i < slots.len() && (#[trigger] slots[i]).placement is Some && box_low(slots, axis)
            == slots[i].placement->0.low(axis);
    assert(after[l] == slots[l]);
    let h = choose|i: int|
        0 <= i < slots.len() && (#[trigger] slots[i]).placement is Some && box_high(slots, axis)
            == slots[i].placement->0.high(slots[i].word.len(), axis);
    assert(after[h] == slots[h]);
}

/// One successful insertion never shrinks the longer side of the bounding
/// box; in a layout that holds a placed word already, it shrinks neither
/// side.
pub proof fn lemma_insert_grows_box(slots: Seq<Slot>, index: int, placement: Placement)
    requires
        0 <= index < slots.len(),
        slots[index].placement is None,
    ensures
        box_max(with_placement(slots, index, Some(placement))) >= box_max(slots),
        placed_count(slots) > 0 ==> box_min(with_placement(slots, index, Some(placement)))
            >= box_min(slots),
{
    let after = with_placement(slots, index, Some(placement));
    if placed_count(slots) > 0 {
        lemma_insert_moves_edges_out(slots, index, placement, Direction::Across);
        lemma_insert_moves_edges_out(slots, index, placement, Direction::Down);
    } else {
        lemma_edges_of_none(slots, Direction::Across, slots.len());
        lemma_edges_of_none(slots, Direction::Down, slots.len());
        lemma_placed_upto_with_placement(slots, index, Some(placement), slots.len());
        lemma_placed_upto_zero(slots, slots.len());
        let axis = placement.direction.flipped();
        lemma_low_is_least(after, axis, after.len());
        lemma_high_is_greatest(after, axis, after.len());
    }
}

} // verus!
