//! The search for compact layouts: the placement validator, the bounding-box
//! comparison, the duplicate test and the backtracking driver.

use crate::crossword::{
    cells_view, crossword_initialise, CrossData, Crossword, Direction, WordCross,
};
use crate::layout::{
    crossable_cells, has_margin, lemma_placed_upto_bound, max_of, min_of, next_order,
    placed_count, seeded, well_formed, Slot,
};
use crate::letters::{letters_get_map, occurrences_view, texts, LetterMap, WordAndLetter};
use crate::ranking::{
    all_consistent, both_placed, classify, duplicate_in, duplicate_of, extends_layout,
    found_from, lemma_progress_none, lemma_progress_offered, lemma_progress_step,
    lemma_uses_order_step, never_worse, offered, orderly, progress, same_places, shared_orders,
    uses_order_before,
};
use crate::rules::{
    connects, consistent, crossing_ok, fits, has_connecting_word, lemma_insert_consistent,
    lemma_insert_well_formed, lemma_seeded_consistent, letter_at, new_placement, pair_ok,
    parallel_ok, with_placement,
};
use crate::search::{
    attempt, crossed, entries, explore, explore_cells, explore_words, has_room, index_matches,
    lemma_crossed_count, lemma_crossed_has_room, lemma_index_matches_with_placement,
    lemma_letter_index_matches, lemma_letters_upto_grows, lemma_seeded_has_room, letters_upto,
    solutions, total_letters, unplaced_count,
};
use vstd::prelude::*;

verus! {

/// How a layout compares to the best layouts found so far.
#[derive(Clone, Copy, Debug, PartialEq, Eq, Structural)]
pub enum Comparison {
    First,
    Better,
    AsGood,
    Worse,
    SeedDuplicate,
}

/// The layouts that a list of states stands for.
pub open spec fn layouts(states: Seq<Crossword>) -> Seq<Seq<Slot>> {
    Seq::new(states.len(), |k: int| states[k]@)
}

/// The members of `states` are well formed and have `n` slots each.
pub open spec fn comparable(states: Seq<Crossword>, n: nat) -> bool {
    forall|k: int|
        0 <= k < states.len() ==> (#[trigger] states[k]).wf() && states[k].words@.len() == n
}

/// `after` is `before` once a copy of `crossword`, ranked `comparison`, was
/// offered to it: the copy has replaced all members, or joined them as the
/// last one, or was dropped.
pub open spec fn keeps_copy(
    comparison: Comparison,
    crossword: Crossword,
    before: Seq<Crossword>,
    after: Seq<Crossword>,
) -> bool {
    match comparison {
        Comparison::Better => {
            &&& after.len() == 1
            &&& after[0].words@ == crossword.words@
        },
        Comparison::First | Comparison::AsGood => {
            &&& after.len() == before.len() + 1
            &&& after.drop_last() == before
            &&& after.last().words@ == crossword.words@
        },
        Comparison::Worse | Comparison::SeedDuplicate => after == before,
    }
}

/// The best layouts for `words`, the first of them anchored at the origin:
/// the anchored word alone where there is no other, and else what the search
/// finds. There is no answer for an empty list, nor for words with so many
/// letters that a coordinate could leave the 32-bit range.
pub fn options_best<'a>(words: &'a [String]) -> (best: Option<Vec<Crossword<'a>>>)
    ensures
        best is Some <==> words@.len() > 0 && total_letters(texts(words@)) < i32::MAX,
        best is Some ==> layouts(best->0@) == solutions(texts(words@)),
        best is Some ==> comparable(best->0@, words@.len()),
        best is Some ==> orderly(layouts(best->0@)),
        best is Some ==> forall|k: int|
            0 <= k < best->0@.len() ==> extends_layout(
                seeded(texts(words@)),
                #[trigger] layouts(best->0@)[k],
            ),
        best is Some ==> all_consistent(layouts(best->0@)),
{
    let n = words.len();
    if n == 0 {
        return None;
    }
    let ghost all = texts(words@);
    let mut total: usize = 0;
    let mut i: usize = 0;
    while i < n
        invariant
            i <= n,
            n == words@.len(),
            all == texts(words@),
            total == letters_upto(all, i as nat),
            total < i32::MAX,
        decreases n - i,
    {
        let len = words[i].as_str().unicode_len();
        if len >= 0x7fff_ffff - total {
            proof {
                lemma_letters_upto_grows(all, (i + 1) as nat, n as nat);
            }
            return None;
        }
        total += len;
        i += 1;
    }
    let letter_map = letters_get_map(words);
    let mut crossword = crossword_initialise(words);
    let mut best_crosswords: Vec<Crossword<'a>> = Vec::new();
    proof {
        assert(words@.map_values(|w: String| w@) =~= all);
        lemma_letters_upto_grows(all, 1, n as nat);
        lemma_seeded_has_room(all);
        lemma_letter_index_matches(all, crossword@);
        lemma_seeded_consistent(all);
        assert(layouts(best_crosswords@) =~= Seq::<Seq<Slot>>::empty());
    }
    if crossword.all_words_crossed() {
        best_crosswords.push(crossword.snapshot());
    } else {
        options_compare(&letter_map, &mut crossword, &mut best_crosswords);
    }
    Some(best_crosswords)
}

/// Explores every way to extend the layout by the words that are not yet part
/// of it, each put across a letter of a placed word that it shares, and
/// collects in `best_crosswords` the complete layouts with the most compact
/// bounding box, each once. The layout itself is left as it was found.
pub fn options_compare<'a>(
    letter_map: &LetterMap,
    crossword: &mut Crossword<'a>,
    best_crosswords: &mut Vec<Crossword<'a>>,
)
    requires
        old(crossword).wf(),
        has_room(old(crossword)@),
        index_matches(letter_map@, old(crossword)@),
        comparable(old(best_crosswords)@, old(crossword).words@.len()),
    ensures
        final(crossword).words@ == old(crossword).words@,
        layouts(final(best_crosswords)@) == explore(
            old(crossword)@,
            letter_map@,
            layouts(old(best_crosswords)@),
        ),
        comparable(final(best_crosswords)@, old(crossword).words@.len()),
        never_worse(layouts(old(best_crosswords)@), layouts(final(best_crosswords)@)),
        found_from(
            old(crossword)@,
            layouts(old(best_crosswords)@),
            layouts(final(best_crosswords)@),
        ),
        orderly(layouts(old(best_crosswords)@)) ==> orderly(layouts(final(best_crosswords)@)),
        consistent(old(crossword)@) && all_consistent(layouts(old(best_crosswords)@))
            ==> all_consistent(layouts(final(best_crosswords)@)),
    decreases unplaced_count(old(crossword)@),
{
    let cells = crossword.get_crossable_letters();
    let ghost slots = crossword@;
    let ghost index = letter_map@;
    let ghost all_cells = crossable_cells(slots);
    let ghost n = crossword.words@.len();
    proof {
        lemma_progress_none(slots, layouts(best_crosswords@));
    }
    let mut c: usize = 0;
    while c < cells.len()
        invariant
            c <= cells@.len(),
            crossword.words@ == old(crossword).words@,
            slots == old(crossword)@,
            index == letter_map@,
            all_cells == crossable_cells(slots),
            n == slots.len(),
            cells_view(cells@) == all_cells,
            crossword.wf(),
            has_room(slots),
            index_matches(index, slots),
            comparable(best_crosswords@, n),
            progress(slots, layouts(old(best_crosswords)@), layouts(best_crosswords@)),
            explore_cells(slots, index, layouts(best_crosswords@), all_cells, c as nat) == explore(
                slots,
                index,
                layouts(old(best_crosswords)@),
            ),
        decreases cells@.len() - c,
    {
        let (letter, row, mid_point, direction) = cells[c];
        let ghost cell = all_cells[c as int];
        let ghost cell_best = layouts(best_crosswords@);
        let ghost occurrences = entries(index, letter);
        match letter_map.get(&letter) {
            Some(crossable_words) => {
                let mut w: usize = 0;
                while w < crossable_words.len()
                    invariant
                        w <= crossable_words@.len(),
                        c < cells@.len(),
                        crossword.words@ == old(crossword).words@,
                        slots == old(crossword)@,
                        index == letter_map@,
                        all_cells == crossable_cells(slots),
                        n == slots.len(),
                        all_cells.len() == cells@.len(),
                        cell == all_cells[c as int],
                        cell == (letter, row as int, mid_point as int, direction),
                        occurrences == entries(index, letter),
                        index.dom().contains(letter),
                        occurrences_view(crossable_words@) == occurrences,
                        crossword.wf(),
                        has_room(slots),
                        index_matches(index, slots),
                        comparable(best_crosswords@, n),
                        progress(
                            slots,
                            layouts(old(best_crosswords)@),
                            layouts(best_crosswords@),
                        ),
                        explore_words(
                            slots,
                            index,
                            layouts(best_crosswords@),
                            cell,
                            occurrences,
                            w as nat,
                        ) == explore_words(slots, index, cell_best, cell, occurrences, 0),
                    decreases crossable_words@.len() - w,
                {
                    let word_and_letter = &crossable_words[w];
                    let ghost occurrence = occurrences[w as int];
                    let ghost before = layouts(best_crosswords@);
                    proof {
                        if slots[occurrence.word_index as int].placement is None {
                            lemma_crossed_has_room(slots, c as int, occurrence);
                        }
                    }
                    if insert_word(row, mid_point, direction, word_and_letter, crossword) {
                        let ghost next = crossed(slots, cell, occurrence);
                        proof {
                            lemma_crossed_count(slots, cell, occurrence);
                            lemma_index_matches_with_placement(
                                index,
                                slots,
                                occurrence.word_index as int,
                                next[occurrence.word_index as int].placement,
                            );
                            lemma_progress_none(next, before);
                        }
                        let crossword_status = compare_crosswords(
                            crossword,
                            best_crosswords.as_slice(),
                        );
                        if crossword_status == Comparison::Worse || crossword_status
                            == Comparison::SeedDuplicate {
                        } else if crossword.all_words_crossed() {
                            let ghost known = best_crosswords@;
                            add_crossword(crossword_status, crossword, best_crosswords);
                            proof {
                                lemma_offered_comparable(
                                    crossword_status,
                                    *crossword,
                                    known,
                                    best_crosswords@,
                                    n,
                                );
                                lemma_progress_offered(next, before);
                            }
                        } else {
                            options_compare(letter_map, crossword, best_crosswords);
                        }
                        proof {
                            lemma_progress_step(
                                slots,
                                occurrence.word_index as int,
                                next[occurrence.word_index as int].placement->0,
                                layouts(old(best_crosswords)@),
                                before,
                                layouts(best_crosswords@),
                            );
                        }
                        remove_word(word_and_letter, crossword);
                        assert(crossword.words@ =~= old(crossword).words@);
                    }
                    assert(layouts(best_crosswords@) == attempt(
                        slots,
                        index,
                        before,
                        cell,
                        occurrence,
                    ));
                    w += 1;
                }
            },
            None => {},
        }
        proof {
            assert(layouts(best_crosswords@) == explore_words(
                slots,
                index,
                cell_best,
                cell,
                occurrences,
                0,
            ));
        }
        c += 1;
    }
}

/// Puts the word of `word_l` on line `row` of `direction`, so that its letter
/// number `word_l.letter_index` comes to lie at `mid_p`, if its slot is empty
/// and the word gets along there with every placed word. Says whether it did.
pub fn insert_word(
    row: i32,
    mid_p: i32,
    direction: Direction,
    word_l: &WordAndLetter,
    crossword: &mut Crossword,
) -> (inserted: bool)
    requires
        old(crossword).wf(),
        word_l.word_index < old(crossword).words@.len(),
        old(crossword).words@[word_l.word_index as int].cross is None ==> {
            &&& i32::MIN <= mid_p - word_l.letter_index
            &&& i32::MIN <= mid_p - word_l.letter_index + word_l.word@.len() - 1 <= i32::MAX
        },
    ensures
        inserted == (old(crossword)@[word_l.word_index as int].placement is None && fits(
            old(crossword)@,
            word_l.word@,
            row as int,
            mid_p - word_l.letter_index,
            direction,
        )),
        inserted ==> final(crossword).words@ == old(crossword).words@.update(
            word_l.word_index as int,
            WordCross {
                word: old(crossword).words@[word_l.word_index as int].word,
                cross: Some(
                    CrossData {
                        row,
                        start_point: (mid_p - word_l.letter_index) as i32,
                        direction,
                        order: next_order(old(crossword)@) as usize,
                    },
                ),
            },
        ),
        inserted ==> final(crossword)@ == with_placement(
            old(crossword)@,
            word_l.word_index as int,
            Some(
                new_placement(
                    old(crossword)@,
                    row as int,
                    mid_p - word_l.letter_index,
                    direction,
                ),
            ),
        ),
        !inserted ==> final(crossword).words@ == old(crossword).words@,
        inserted && has_margin(
            old(crossword)@[word_l.word_index as int].word.len(),
            new_placement(old(crossword)@, row as int, mid_p - word_l.letter_index, direction),
        ) ==> final(crossword).wf(),
        inserted && consistent(old(crossword)@) && word_l.word@ == old(
            crossword,
        )@[word_l.word_index as int].word ==> consistent(final(crossword)@),
{
    let word_index = word_l.word_index;
    if crossword.words[word_index].cross.is_some() {
        return false;
    }
    let start_point = (mid_p as i64 - word_l.letter_index as i64) as i32;
    if !check_insertable(row, start_point, direction, word_l, crossword) {
        return false;
    }
    let cross_data = CrossData { row, start_point, direction, order: crossword.get_next_order() };
    let word = crossword.words[word_index].word;
    crossword.words.set(word_index, WordCross { word, cross: Some(cross_data) });
    proof {
        assert(crossword@ =~= with_placement(
            old(crossword)@,
            word_index as int,
            Some(new_placement(old(crossword)@, row as int, start_point as int, direction)),
        ));
        if has_margin(
            old(crossword)@[word_index as int].word.len(),
            new_placement(old(crossword)@, row as int, start_point as int, direction),
        ) {
            lemma_insert_well_formed(
                old(crossword)@,
                word_index as int,
                row as int,
                start_point as int,
                direction,
            );
        }
        if consistent(old(crossword)@) && word_l.word@ == old(crossword)@[word_index as int].word {
            lemma_insert_consistent(
                old(crossword)@,
                word_index as int,
                row as int,
                start_point as int,
                direction,
            );
        }
    }
    true
}

/// Whether the word of `word_and_letter`, put on line `new_row` of
/// `direction` from `new_start` on, gets along with every placed word.
pub fn check_insertable(
    new_row: i32,
    new_start: i32,
    direction: Direction,
    word_and_letter: &WordAndLetter,
    crossword: &Crossword,
) -> (ok: bool)
    requires
        crossword.wf(),
        i32::MIN <= new_start + word_and_letter.word@.len() - 1 <= i32::MAX,
    ensures
        ok == fits(crossword@, word_and_letter.word@, new_row as int, new_start as int, direction),
{
    let new_end = get_end_point(new_start, word_and_letter.word);
    let n = crossword.words.len();
    let mut i: usize = 0;
    while i < n
        invariant
            i <= n,
            n == crossword.words.len(),
            crossword.wf(),
            new_end == new_start + word_and_letter.word@.len() - 1,
            forall|j: int|
                0 <= j < i && (#[trigger] crossword@[j]).placement is Some ==> pair_ok(
                    crossword@,
                    word_and_letter.word@,
                    new_row as int,
                    new_start as int,
                    direction,
                    crossword@[j],
                ),
        decreases n - i,
    {
        assert(crossword@[i as int] == crossword.words@[i as int]@);
        match crossword.words[i].cross {
            Some(cross_data) => {
                let word = crossword.words[i].word;
                let old_start = cross_data.start_point;
                let old_end = get_end_point(old_start, word);
                let old_row = cross_data.row;
                let ok = if cross_data.direction == direction {
                    check_same_direction(
                        new_start,
                        new_end,
                        new_row,
                        old_start,
                        old_end,
                        old_row,
                        direction,
                        crossword,
                    )
                } else {
                    check_different_direction(
                        new_start,
                        new_end,
                        new_row,
                        word_and_letter.word,
                        old_start,
                        old_end,
                        old_row,
                        word,
                    )
                };
                if !ok {
                    return false;
                }
            },
            None => {},
        }
        i += 1;
    }
    true
}

/// The coordinate of the last letter of `word` when its first letter is at
/// `start`.
pub fn get_end_point(start: i32, word: &str) -> (end: i32)
    requires
        i32::MIN <= start + word@.len() - 1 <= i32::MAX,
    ensures
        end == start + word@.len() - 1,
{
    let len = word.unicode_len();
    (start as i64 + len as i64 - 1) as i32
}

/// Whether two words on the same axis keep their distance: see
/// [`parallel_ok`].
pub fn check_same_direction(
    start0: i32,
    end0: i32,
    row0: i32,
    start1: i32,
    end1: i32,
    row1: i32,
    direction: Direction,
    crossword: &Crossword,
) -> (ok: bool)
    ensures
        ok == parallel_ok(
            start0 as int,
            end0 as int,
            row0 as int,
            start1 as int,
            end1 as int,
            row1 as int,
            direction,
            crossword@,
        ),
{
    let (s0, e0, r0) = (start0 as i64, end0 as i64, row0 as i64);
    let (s1, e1, r1) = (start1 as i64, end1 as i64, row1 as i64);
    if r0 < r1 - 1 || r1 < r0 - 1 {
        true
    } else if r0 == r1 - 1 || r1 == r0 - 1 {
        if e0 < s1 || e1 < s0 {
            true
        } else if e0 == s1 {
            check_connecting_word(row0, row1, end0, direction.change(), crossword)
        } else if e1 == s0 {
            check_connecting_word(row0, row1, end1, direction.change(), crossword)
        } else {
            false
        }
    } else {
        e0 < s1 - 1 || e1 < s0 - 1
    }
}

/// Whether a placed word runs along `direction` on line `row` and covers both
/// `point0` and `point1`.
pub fn check_connecting_word(
    point0: i32,
    point1: i32,
    row: i32,
    direction: Direction,
    crossword: &Crossword,
) -> (found: bool)
    ensures
        found == has_connecting_word(
            crossword@,
            point0 as int,
            point1 as int,
            row as int,
            direction,
        ),
{
    let low = if point0 <= point1 {
        point0
    } else {
        point1
    };
    let high = if point0 <= point1 {
        point1
    } else {
        point0
    };
    let n = crossword.words.len();
    let mut i: usize = 0;
    while i < n
        invariant
            i <= n,
            n == crossword.words.len(),
            low == min_of(point0 as int, point1 as int),
            high == max_of(point0 as int, point1 as int),
            forall|k: int|
                0 <= k < i ==> !connects(
                    #[trigger] crossword@[k],
                    point0 as int,
                    point1 as int,
                    row as int,
                    direction,
                ),
        decreases n - i,
    {
        assert(crossword@[i as int] == crossword.words@[i as int]@);
        match crossword.words[i].cross {
            Some(cross_data) => {
                if cross_data.direction == direction && cross_data.row == row
                    && cross_data.start_point <= low {
                    let len = crossword.words[i].word.unicode_len();
                    if len as u64 > (high as i64 - cross_data.start_point as i64) as u64 {
                        return true;
                    }
                }
            },
            None => {},
        }
        i += 1;
    }
    false
}

/// Whether two words on different axes get along: see [`crossing_ok`].
pub fn check_different_direction(
    start0: i32,
    end0: i32,
    row1: i32,
    word0: &str,
    start1: i32,
    end1: i32,
    row0: i32,
    word1: &str,
) -> (ok: bool)
    ensures
        ok == crossing_ok(
            start0 as int,
            end0 as int,
            row1 as int,
            word0@,
            start1 as int,
            end1 as int,
            row0 as int,
            word1@,
        ),
{
    let (s0, e0, r0) = (start0 as i64, end0 as i64, row0 as i64);
    let (s1, e1, r1) = (start1 as i64, end1 as i64, row1 as i64);
    if e0 < r0 - 1 || s0 > r0 + 1 || e1 < r1 - 1 || s1 > r1 + 1 {
        true
    } else if ((e0 == r0 - 1 || s0 == r0 + 1) && s1 <= r1 && r1 <= e1) || ((e1 == r1 - 1 || s1
        == r1 + 1) && s0 <= r0 && r0 <= e0) {
        false
    } else {
        let letter0 = letter_or_blank(word0, r0 - s0);
        let letter1 = letter_or_blank(word1, r1 - s1);
        letter0 == letter1
    }
}

/// The letter at position `index` of `word`, or a blank outside the word.
pub fn get_nth_letter(word: &str, index: i32) -> (letter: char)
    ensures
        letter == letter_at(word@, index as int),
{
    letter_or_blank(word, index as i64)
}

fn letter_or_blank(word: &str, index: i64) -> (letter: char)
    ensures
        letter == letter_at(word@, index as int),
{
    if index < 0 {
        return ' ';
    }
    let len = word.unicode_len();
    if (index as u64) < (len as u64) {
        word.get_char(index as usize)
    } else {
        ' '
    }
}

/// The rank of `crossword` against the best layouts found so far: see
/// [`classify`].
pub fn compare_crosswords(crossword: &Crossword, best_crosswords: &[Crossword]) -> (rank:
    Comparison)
    requires
        crossword.wf(),
        comparable(best_crosswords@, crossword.words@.len()),
    ensures
        rank == classify(crossword@, layouts(best_crosswords@)),
{
    if best_crosswords.len() == 0 {
        Comparison::First
    } else {
        let (current_min, current_max) = best_crosswords[0].get_min_max();
        let (new_min, new_max) = crossword.get_min_max();
        if (new_max > current_max) || (new_max == current_max && new_min > current_min) {
            Comparison::Worse
        } else if is_duplicate(crossword, best_crosswords) {
            Comparison::SeedDuplicate
        } else if (new_max == current_max) && (new_min == current_min) {
            Comparison::AsGood
        } else {
            Comparison::Better
        }
    }
}

/// Whether `crossword` is one of `best_crosswords` under another insertion
/// sequence: see [`duplicate_of`].
pub fn is_duplicate(crossword: &Crossword, best_crosswords: &[Crossword]) -> (duplicate: bool)
    requires
        crossword.wf(),
        comparable(best_crosswords@, crossword.words@.len()),
    ensures
        duplicate == duplicate_in(crossword@, layouts(best_crosswords@)),
{
    let n = crossword.words.len();
    let mut g: usize = 0;
    while g < best_crosswords.len()
        invariant
            g <= best_crosswords@.len(),
            n == crossword.words@.len(),
            crossword.wf(),
            comparable(best_crosswords@, crossword.words@.len()),
            forall|k: int|
                0 <= k < g ==> !duplicate_of(crossword@, #[trigger] best_crosswords@[k]@),
        decreases best_crosswords@.len() - g,
    {
        if duplicates(crossword, &best_crosswords[g]) {
            assert(layouts(best_crosswords@)[g as int] == best_crosswords@[g as int]@);
            return true;
        }
        g += 1;
    }
    false
}

/// Whether `crossword` and `good_crossword` are the same layout: see
/// [`duplicate_of`].
pub fn duplicates(crossword: &Crossword, good_crossword: &Crossword) -> (same: bool)
    requires
        crossword.wf(),
        good_crossword.wf(),
        good_crossword.words@.len() == crossword.words@.len(),
    ensures
        same == duplicate_of(crossword@, good_crossword@),
{
    let n = crossword.words.len();
    let ghost x = crossword@;
    let ghost y = good_crossword@;
    let mut subset = true;
    let mut order: Vec<bool> = vec![false; n];
    let mut good_order: Vec<bool> = vec![false; n];
    let mut word_index: usize = 0;
    proof {
        lemma_placed_upto_bound(x, x.len());
        lemma_placed_upto_bound(y, y.len());
    }
    while word_index < n
        invariant
            word_index <= n,
            n == crossword.words@.len(),
            n == good_crossword.words@.len(),
            x == crossword@,
            y == good_crossword@,
            well_formed(x),
            well_formed(y),
            placed_count(x) <= n,
            placed_count(y) <= n,
            order@.len() == n,
            good_order@.len() == n,
            subset ==> forall|i: int|
                i < word_index && #[trigger] both_placed(x, y, i) ==> x[i].placement->0.same_place(
                    y[i].placement->0,
                ),
            !subset ==> !same_places(x, y),
            forall|o: int|
                0 <= o < n ==> (#[trigger] order@[o]) == uses_order_before(
                    x,
                    y,
                    o as nat,
                    word_index as int,
                ),
            forall|o: int|
                0 <= o < n ==> (#[trigger] good_order@[o]) == uses_order_before(
                    y,
                    x,
                    o as nat,
                    word_index as int,
                ),
        ensures
            subset ==> word_index == n,
        decreases n - word_index,
    {
        let ghost w = word_index as int;
        match crossword.words[word_index].cross {
            Some(cross_data) => {
                match good_crossword.words[word_index].cross {
                    Some(good_cross_data) => {
                        assert(both_placed(x, y, w));
                        if cross_data.row != good_cross_data.row || cross_data.start_point
                            != good_cross_data.start_point || cross_data.direction
                            != good_cross_data.direction {
                            subset = false;
                            break;
                        }
                        order.set(cross_data.order, true);
                        good_order.set(good_cross_data.order, true);
                    },
                    None => {},
                }
            },
            None => {},
        }
        proof {
            assert forall|o: int| 0 <= o < n implies (#[trigger] order@[o]) == uses_order_before(
                x,
                y,
                o as nat,
                w + 1,
            ) by {
                lemma_uses_order_step(x, y, o as nat, w);
            }
            assert forall|o: int| 0 <= o < n implies (#[trigger] good_order@[o])
                == uses_order_before(y, x, o as nat, w + 1) by {
                lemma_uses_order_step(y, x, o as nat, w);
            }
        }
        word_index += 1;
    }
    if !subset {
        return false;
    }
    let mut order_index: usize = 0;
    while order_index < n
        invariant
            order_index <= n,
            order@.len() == n,
            good_order@.len() == n,
            n == x.len(),
            n == y.len(),
            x == crossword@,
            y == good_crossword@,
            same_places(x, y),
            well_formed(x),
            well_formed(y),
            placed_count(x) <= n,
            placed_count(y) <= n,
            forall|o: int|
                0 <= o < n ==> (#[trigger] order@[o]) == uses_order_before(
                    x,
                    y,
                    o as nat,
                    n as int,
                ),
            forall|o: int|
                0 <= o < n ==> (#[trigger] good_order@[o]) == uses_order_before(
                    y,
                    x,
                    o as nat,
                    n as int,
                ),
            forall|o: int| 0 <= o < order_index ==> order@[o] == good_order@[o],
        decreases n - order_index,
    {
        if order[order_index] != good_order[order_index] {
            proof {
                let o = order_index as nat;
                assert(shared_orders(x, y).contains(o) != shared_orders(y, x).contains(o));
            }
            return false;
        }
        order_index += 1;
    }
    proof {
        assert forall|o: nat| shared_orders(x, y).contains(o) == shared_orders(y, x).contains(
            o,
        ) by {
            if o < n {
                assert(order@[o as int] == uses_order_before(x, y, o, n as int));
            }
        }
        assert(shared_orders(x, y) =~= shared_orders(y, x));
    }
    true
}

/// Offers `crossword`, ranked `comparison`, to the best layouts: a better one
/// replaces them all, a first or an equally good one joins them, any other is
/// dropped. What is kept is a copy of `crossword`.
pub fn add_crossword<'a>(
    comparison: Comparison,
    crossword: &Crossword<'a>,
    best_crosswords: &mut Vec<Crossword<'a>>,
)
    ensures
        layouts(final(best_crosswords)@) == offered(
            comparison,
            crossword@,
            layouts(old(best_crosswords)@),
        ),
        keeps_copy(comparison, *crossword, old(best_crosswords)@, final(best_crosswords)@),
{
    if comparison == Comparison::Better {
        best_crosswords.clear();
    }
    match comparison {
        Comparison::First | Comparison::Better | Comparison::AsGood => {
            let copy = crossword.snapshot();
            best_crosswords.push(copy);
            if comparison != Comparison::Better {
                assert(best_crosswords@.drop_last() =~= old(best_crosswords)@);
            }
        },
        Comparison::Worse | Comparison::SeedDuplicate => {},
    }
}

/// Takes the word of `word_and_letter` out of the layout.
pub fn remove_word(word_and_letter: &WordAndLetter, crossword: &mut Crossword)
    requires
        word_and_letter.word_index < old(crossword).words@.len(),
    ensures
        final(crossword).words@ == old(crossword).words@.update(
            word_and_letter.word_index as int,
            WordCross {
                word: old(crossword).words@[word_and_letter.word_index as int].word,
                cross: None,
            },
        ),
        final(crossword)@ == with_placement(
            old(crossword)@,
            word_and_letter.word_index as int,
            None,
        ),
{
    let word_index = word_and_letter.word_index;
    let word = crossword.words[word_index].word;
    crossword.words.set(word_index, WordCross { word, cross: None });
}

/// Offering a well-formed state with `n` slots to comparable states leaves
/// them comparable.
pub proof fn lemma_offered_comparable(
    comparison: Comparison,
    crossword: Crossword,
    before: Seq<Crossword>,
    after: Seq<Crossword>,
    n: nat,
)
    requires
        keeps_copy(comparison, crossword, before, after),
        comparable(before, n),
        crossword.wf(),
        crossword.words@.len() == n,
    ensures
        comparable(after, n),
{
    assert forall|k: int| 0 <= k < after.len() implies (#[trigger] after[k]).wf()
        && after[k].words@.len() == n by {
        if after[k].words@ == crossword.words@ {
        } else {
            if comparison == Comparison::First || comparison == Comparison::AsGood {
                assert(after[k] == after.drop_last()[k]);
            }
        }
    }
}

} // verus!
