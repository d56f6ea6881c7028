//! What the backtracking search computes, as a function of the layout it
//! starts from, the letter occurrence index and the best layouts known
//! before, and what a layout has to be like for the search to stay within
//! 32-bit coordinates.

use crate::layout::{
    all_placed, cells_upto, crossable_cells, has_margin, lemma_placed_upto_bound, placed_count,
    seeded, slot_cells, Cell, Placement, Slot,
};
use crate::letters::{lemma_occurrences_are_positions, letter_index, Occurrence};
use crate::options::Comparison;
use crate::ranking::{classify, offered};
use crate::rules::{fits, lemma_placed_upto_with_placement, new_placement, with_placement};
use vstd::prelude::*;

verus! {

/// Number of words that are not part of the layout.
pub open spec fn unplaced_count(slots: Seq<Slot>) -> nat {
    (slots.len() - placed_count(slots)) as nat
}

/// The occurrences filed under `letter`; none if the index does not know it.
pub open spec fn entries(index: Map<char, Seq<Occurrence>>, letter: char) -> Seq<Occurrence> {
    if index.dom().contains(letter) {
        index[letter]
    } else {
        Seq::empty()
    }
}

/// The first coordinate of the word of `occurrence` when its letter is put
/// on `cell`.
pub open spec fn crossing_start(cell: Cell, occurrence: Occurrence) -> int {
    cell.2 - occurrence.letter_index
}

/// The word of `occurrence` may be put across `cell`: its slot exists and is
/// empty, and the word gets along there with every placed word.
pub open spec fn accepts(slots: Seq<Slot>, cell: Cell, occurrence: Occurrence) -> bool {
    &&& occurrence.word_index < slots.len()
    &&& slots[occurrence.word_index as int].placement is None
    &&& fits(slots, occurrence.word, cell.1, crossing_start(cell, occurrence), cell.3)
}

/// The layout after the word of `occurrence` was put across `cell`.
pub open spec fn crossed(slots: Seq<Slot>, cell: Cell, occurrence: Occurrence) -> Seq<Slot> {
    with_placement(
        slots,
        occurrence.word_index as int,
        Some(new_placement(slots, cell.1, crossing_start(cell, occurrence), cell.3)),
    )
}

/// A rank that ends the exploration of a layout: it is neither kept nor
/// extended.
pub open spec fn prunes(rank: Comparison) -> bool {
    rank == Comparison::Worse || rank == Comparison::SeedDuplicate
}

/// The best layouts after the word of `occurrence` was tried across `cell`.
/// Where the word cannot go there, or the layout with it ranks worse than the
/// best or is a duplicate of one of them, nothing changes. Otherwise a
/// complete layout is offered to the best, and an incomplete one is explored
/// further.
pub open spec fn attempt(
    slots: Seq<Slot>,
    index: Map<char, Seq<Occurrence>>,
    best: Seq<Seq<Slot>>,
    cell: Cell,
    occurrence: Occurrence,
) -> Seq<Seq<Slot>>
    decreases unplaced_count(slots), 0nat, 0nat,
    via attempt_decreases
{
    if accepts(slots, cell, occurrence) {
        let next = crossed(slots, cell, occurrence);
        let rank = classify(next, best);
        if prunes(rank) {
            best
        } else if all_placed(next) {
            offered(rank, next, best)
        } else {
            explore(next, index, best)
        }
    } else {
        best
    }
}

#[via_fn]
proof fn attempt_decreases(
    slots: Seq<Slot>,
    index: Map<char, Seq<Occurrence>>,
    best: Seq<Seq<Slot>>,
    cell: Cell,
    occurrence: Occurrence,
) {
    if accepts(slots, cell, occurrence) {
        lemma_crossed_count(slots, cell, occurrence);
    }
}

/// The best layouts after the occurrences `occurrences[from..]` were tried
/// across `cell`, one after the other.
pub open spec fn explore_words(
    slots: Seq<Slot>,
    index: Map<char, Seq<Occurrence>>,
    best: Seq<Seq<Slot>>,
    cell: Cell,
    occurrences: Seq<Occurrence>,
    from: nat,
) -> Seq<Seq<Slot>>
    decreases unplaced_count(slots), 1nat, occurrences.len() - from,
{
    if from >= occurrences.len() {
        best
    } else {
        explore_words(
            slots,
            index,
            attempt(slots, index, best, cell, occurrences[from as int]),
            cell,
            occurrences,
            from + 1,
        )
    }
}

/// The best layouts after every word that the index files under the letter of
/// a cell was tried across it, for the cells `cells[from..]` in turn.
pub open spec fn explore_cells(
    slots: Seq<Slot>,
    index: Map<char, Seq<Occurrence>>,
    best: Seq<Seq<Slot>>,
    cells: Seq<Cell>,
    from: nat,
) -> Seq<Seq<Slot>>
    decreases unplaced_count(slots), 2nat, cells.len() - from,
{
    if from >= cells.len() {
        best
    } else {
        explore_cells(
            slots,
            index,
            explore_words(
                slots,
                index,
                best,
                cells[from as int],
                entries(index, cells[from as int].0),
                0,
            ),
            cells,
            from + 1,
        )
    }
}

/// The best layouts after the search has explored every way to extend
/// `slots`, starting from the best layouts `best`.
pub open spec fn explore(
    slots: Seq<Slot>,
    index: Map<char, Seq<Occurrence>>,
    best: Seq<Seq<Slot>>,
) -> Seq<Seq<Slot>>
    decreases unplaced_count(slots), 3nat, 0nat,
{
    explore_cells(slots, index, best, crossable_cells(slots), 0)
}

/// The best layouts for `words`: the seeded layout alone where it is complete
/// already, and else what the search finds from it.
pub open spec fn solutions(words: Seq<Seq<char>>) -> Seq<Seq<Slot>> {
    if all_placed(seeded(words)) {
        seq![seeded(words)]
    } else {
        explore(seeded(words), letter_index(words), Seq::empty())
    }
}

/// The occurrence names a slot, carries the word of that slot and points at
/// one of its letters.
pub open spec fn occurrence_matches(occurrence: Occurrence, slots: Seq<Slot>) -> bool {
    &&& occurrence.word_index < slots.len()
    &&& occurrence.word == slots[occurrence.word_index as int].word
    &&& occurrence.letter_index < occurrence.word.len()
}

/// The index speaks of the words of the layout: every occurrence names a
/// slot, carries the word of that slot and points at one of its letters.
pub open spec fn index_matches(index: Map<char, Seq<Occurrence>>, slots: Seq<Slot>) -> bool {
    forall|letter: char, k: int|
        index.dom().contains(letter) && 0 <= k < index[letter].len() ==> occurrence_matches(
            #[trigger] index[letter][k],
            slots,
        )
}

/// Number of letters of the words among the first `n` slots that are not
/// part of the layout.
pub open spec fn unplaced_letters_upto(slots: Seq<Slot>, n: nat) -> nat
    decreases n,
{
    if n == 0 {
        0
    } else {
        unplaced_letters_upto(slots, (n - 1) as nat) + if slots[n - 1].placement is None {
            slots[n - 1].word.len()
        } else {
            0nat
        }
    }
}

/// Number of letters of the words that are not part of the layout.
pub open spec fn unplaced_letters(slots: Seq<Slot>) -> nat {
    unplaced_letters_upto(slots, slots.len())
}

/// Every placed word lies within `radius` cells of the origin on both axes.
pub open spec fn within(slots: Seq<Slot>, radius: int) -> bool {
    forall|i: int|
        0 <= i < slots.len() ==> match (#[trigger] slots[i]).placement {
            Some(p) => {
                &&& -radius <= p.row <= radius
                &&& -radius <= p.start
                &&& p.end(slots[i].word.len()) <= radius
            },
            None => true,
        }
}

/// The layout leaves room for the search: however the words that are not yet
/// placed are put across cells of placed ones, one after the other, every
/// coordinate keeps a 32-bit value with a margin. This holds where the placed
/// words lie as many cells inside the 32-bit range as the unplaced words have
/// letters.
pub open spec fn has_room(slots: Seq<Slot>) -> bool {
    within(slots, i32::MAX - 1 - unplaced_letters(slots))
}

/// Number of letters of the first `n` words.
pub open spec fn letters_upto(words: Seq<Seq<char>>, n: nat) -> nat
    decreases n,
{
    if n == 0 {
        0
    } else {
        letters_upto(words, (n - 1) as nat) + words[n - 1].len()
    }
}

/// Number of letters of all words.
pub open spec fn total_letters(words: Seq<Seq<char>>) -> nat {
    letters_upto(words, words.len())
}

/// Putting a word across a cell leaves one word less to place.
pub proof fn lemma_crossed_count(slots: Seq<Slot>, cell: Cell, occurrence: Occurrence)
    requires
        accepts(slots, cell, occurrence),
    ensures
        placed_count(crossed(slots, cell, occurrence)) == placed_count(slots) + 1,
        unplaced_count(crossed(slots, cell, occurrence)) + 1 == unplaced_count(slots),
{
    let placement = new_placement(slots, cell.1, crossing_start(cell, occurrence), cell.3);
    lemma_placed_upto_with_placement(
        slots,
        occurrence.word_index as int,
        Some(placement),
        slots.len(),
    );
    lemma_placed_upto_bound(crossed(slots, cell, occurrence), slots.len());
}

/// A word whose layout ranks worse than the best, or is a duplicate of one of
/// them, changes nothing: its layout is neither kept nor explored.
pub proof fn lemma_pruned_attempt(
    slots: Seq<Slot>,
    index: Map<char, Seq<Occurrence>>,
    best: Seq<Seq<Slot>>,
    cell: Cell,
    occurrence: Occurrence,
)
    requires
        accepts(slots, cell, occurrence),
        prunes(classify(crossed(slots, cell, occurrence), best)),
    ensures
        attempt(slots, index, best, cell, occurrence) == best,
{
}

/// A cell of the first `n` slots and the placed word it belongs to.
pub proof fn lemma_cell_origin(slots: Seq<Slot>, n: nat, c: int) -> (origin: (int, int))
    requires
        n <= slots.len(),
        0 <= c < cells_upto(slots, n).len(),
    ensures
        0 <= origin.0 < n,
        slots[origin.0].placement is Some,
        0 <= origin.1 < slots[origin.0].word.len(),
        cells_upto(slots, n)[c] == slot_cells(slots[origin.0])[origin.1],
    decreases n,
{
    let before = cells_upto(slots, (n - 1) as nat);
    if c < before.len() {
        lemma_cell_origin(slots, (n - 1) as nat, c)
    } else {
        (n - 1, c - before.len())
    }
}

/// In a layout within `radius` cells of the origin, both coordinates of
/// every crossing point are within `radius` too.
pub proof fn lemma_cell_within(slots: Seq<Slot>, radius: int, c: int)
    requires
        within(slots, radius),
        0 <= c < crossable_cells(slots).len(),
    ensures
        -radius <= crossable_cells(slots)[c].1 <= radius,
        -radius <= crossable_cells(slots)[c].2 <= radius,
{
    lemma_cell_origin(slots, slots.len(), c);
}

/// Writing a placement into slot `index`, or clearing it, changes the letters
/// of unplaced words among the first `n` slots by the letters of that word.
pub proof fn lemma_unplaced_letters_with_placement(
    slots: Seq<Slot>,
    index: int,
    placement: Option<Placement>,
    n: nat,
)
    requires
        0 <= index < slots.len(),
        n <= slots.len(),
    ensures
        unplaced_letters_upto(with_placement(slots, index, placement), n) + (if index < n
            && slots[index].placement is None {
            slots[index].word.len()
        } else {
            0nat
        }) == unplaced_letters_upto(slots, n) + (if index < n && placement is None {
            slots[index].word.len()
        } else {
            0nat
        }),
    decreases n,
{
    if n > 0 {
        lemma_unplaced_letters_with_placement(slots, index, placement, (n - 1) as nat);
    }
}

/// A layout with room for the search still has it after a word of the index
/// was put across one of its crossing points, and the word has its margin.
pub proof fn lemma_crossed_has_room(slots: Seq<Slot>, c: int, occurrence: Occurrence)
    requires
        has_room(slots),
        0 <= c < crossable_cells(slots).len(),
        occurrence_matches(occurrence, slots),
        slots[occurrence.word_index as int].placement is None,
    ensures
        has_room(crossed(slots, crossable_cells(slots)[c], occurrence)),
        has_margin(
            occurrence.word.len(),
            new_placement(
                slots,
                crossable_cells(slots)[c].1,
                crossing_start(crossable_cells(slots)[c], occurrence),
                crossable_cells(slots)[c].3,
            ),
        ),
{
    let cell = crossable_cells(slots)[c];
    let radius = i32::MAX - 1 - unplaced_letters(slots);
    let placement = new_placement(slots, cell.1, crossing_start(cell, occurrence), cell.3);
    lemma_cell_within(slots, radius, c);
    lemma_unplaced_letters_with_placement(
        slots,
        occurrence.word_index as int,
        Some(placement),
        slots.len(),
    );
}

/// The index speaks of the words of a layout whatever their placements are.
pub proof fn lemma_index_matches_with_placement(
    index: Map<char, Seq<Occurrence>>,
    slots: Seq<Slot>,
    at: int,
    placement: Option<Placement>,
)
    requires
        index_matches(index, slots),
        0 <= at < slots.len(),
    ensures
        index_matches(index, with_placement(slots, at, placement)),
{
}

/// The letter occurrence index of `words` speaks of every layout of these
/// words.
pub proof fn lemma_letter_index_matches(words: Seq<Seq<char>>, slots: Seq<Slot>)
    requires
        slots.len() == words.len(),
        forall|i: int| 0 <= i < words.len() ==> (#[trigger] slots[i]).word == words[i],
    ensures
        index_matches(letter_index(words), slots),
{
    let index = letter_index(words);
    assert forall|letter: char, k: int|
        index.dom().contains(letter) && 0 <= k < index[letter].len() implies occurrence_matches(
        #[trigger] index[letter][k],
        slots,
    ) by {
        lemma_occurrences_are_positions(words, words, letter, words.len(), k);
    }
}

/// More words have at least as many letters.
pub proof fn lemma_letters_upto_grows(words: Seq<Seq<char>>, m: nat, n: nat)
    requires
        m <= n,
    ensures
        letters_upto(words, m) <= letters_upto(words, n),
    decreases n,
{
    if m < n {
        lemma_letters_upto_grows(words, m, (n - 1) as nat);
    }
}

/// In a seeded layout the letters of the unplaced words are those of all
/// words but the first.
pub proof fn lemma_seeded_unplaced_letters(words: Seq<Seq<char>>, n: nat)
    requires
        0 < n <= words.len(),
    ensures
        unplaced_letters_upto(seeded(words), n) + words[0].len() == letters_upto(words, n),
    decreases n,
{
    if n > 1 {
        lemma_seeded_unplaced_letters(words, (n - 1) as nat);
    } else {
        assert(unplaced_letters_upto(seeded(words), 0) == 0);
        assert(letters_upto(words, 0) == 0);
    }
}

/// A seeded layout of words with fewer letters than the 32-bit range has
/// positive values leaves room for the search.
pub proof fn lemma_seeded_has_room(words: Seq<Seq<char>>)
    requires
        words.len() > 0,
        total_letters(words) < i32::MAX,
    ensures
        has_room(seeded(words)),
{
    lemma_seeded_unplaced_letters(words, words.len());
}

} // verus!
