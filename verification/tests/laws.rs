use crossword_layout::combinations::{count_orderings, get_combinations};
use crossword_layout::crossword::{
    crossword_initialise, get_position_end, CrossData, Crossword, Direction, WordCross,
};
use crossword_layout::letter_map::file_letters;
use crossword_layout::letters::{letters_get_map, WordAndLetter};
use crossword_layout::options::{
    check_insertable, compare_crosswords, get_end_point, insert_word, options_compare, Comparison,
};

fn placed(word: &str, row: i32, start_point: i32, direction: Direction, order: usize) -> WordCross {
    WordCross { word, cross: Some(CrossData { row, start_point, direction, order }) }
}

fn unplaced(word: &str) -> WordCross {
    WordCross { word, cross: None }
}

fn whole_word(word_index: usize, word: &str) -> WordAndLetter {
    WordAndLetter {
        word_index,
        word,
        letter: word.chars().next().unwrap(),
        letter_index: 0,
        n_letters_after: word.chars().count() - 1,
    }
}

#[test]
fn end_is_start_plus_length_minus_one() {
    assert_eq!(-3, get_end_point(-7, "hello"));
    assert_eq!(0, get_end_point(0, "a"));
    assert_eq!(3, get_end_point(0, "żółw"));

    let across = CrossData { row: 4, start_point: -2, direction: Direction::Across, order: 0 };
    assert_eq!([-2, 4], across.get_position());
    assert_eq!([2, 4], get_position_end("hello", &across));
    let down = CrossData { row: 4, start_point: -2, direction: Direction::Down, order: 0 };
    assert_eq!([4, -2], down.get_position());
    assert_eq!([4, 2], get_position_end("hello", &down));
}

#[test]
fn letters_of_a_word_share_its_line() {
    let crossword = Crossword {
        words: vec![placed("hello", 4, -2, Direction::Down, 0), unplaced("other")],
    };
    let cells = crossword.get_crossable_letters();
    assert_eq!(
        vec![
            ('h', -2, 4, Direction::Across),
            ('e', -1, 4, Direction::Across),
            ('l', 0, 4, Direction::Across),
            ('l', 1, 4, Direction::Across),
            ('o', 2, 4, Direction::Across),
        ],
        cells
    );
    assert_eq!(get_end_point(-2, "hello"), cells[4].1);
}

#[test]
fn words_on_one_line_keep_a_cell_between_them() {
    let crossword =
        Crossword { words: vec![placed("abc", 0, 0, Direction::Across, 0), unplaced("de")] };
    let de = whole_word(1, "de");
    assert!(!check_insertable(0, 1, Direction::Across, &de, &crossword));
    assert!(!check_insertable(0, 2, Direction::Across, &de, &crossword));
    assert!(!check_insertable(0, 3, Direction::Across, &de, &crossword));
    assert!(check_insertable(0, 4, Direction::Across, &de, &crossword));
    assert!(!check_insertable(0, -2, Direction::Across, &de, &crossword));
    assert!(check_insertable(0, -3, Direction::Across, &de, &crossword));
    // Side by side on neighbouring lines is no better.
    assert!(!check_insertable(1, 1, Direction::Across, &de, &crossword));
    assert!(check_insertable(2, 1, Direction::Across, &de, &crossword));
}

#[test]
fn crossing_words_agree_on_the_shared_letter() {
    let crossword =
        Crossword { words: vec![placed("abc", 0, 0, Direction::Across, 0), unplaced("xbz")] };
    let xbz = whole_word(1, "xbz");
    // Down column 1 from line -1: the 'b' of both words meets at (1, 0).
    assert!(check_insertable(1, -1, Direction::Down, &xbz, &crossword));
    // Down column 1 from line 0: 'x' on 'b'.
    assert!(!check_insertable(1, 0, Direction::Down, &xbz, &crossword));
    // Down column 0 from line -1: 'b' on 'a'.
    assert!(!check_insertable(0, -1, Direction::Down, &xbz, &crossword));
    // Down column 1 from line 1: ends of the words touch without crossing.
    assert!(!check_insertable(1, 1, Direction::Down, &xbz, &crossword));
    // Two lines below nothing touches.
    assert!(check_insertable(1, 2, Direction::Down, &xbz, &crossword));
}

#[test]
fn insert_word_tags_in_sequence() {
    let words = vec!["abc".to_string(), "ax".to_string(), "cy".to_string()];
    let mut crossword = crossword_initialise(&words);
    assert_eq!(1, crossword.get_next_order());
    let ax = whole_word(1, "ax");
    let cy = whole_word(2, "cy");
    assert!(insert_word(2, 0, Direction::Down, &cy, &mut crossword));
    assert_eq!(Some(1), crossword.words[2].cross.map(|c| c.order));
    assert_eq!(2, crossword.get_next_order());
    assert!(insert_word(0, 0, Direction::Down, &ax, &mut crossword));
    assert_eq!(Some(2), crossword.words[1].cross.map(|c| c.order));
    assert!(crossword.is_well_formed());
}

#[test]
fn next_order_without_placed_word_is_zero() {
    let crossword = Crossword { words: vec![unplaced("abc"), unplaced("de")] };
    assert_eq!(0, crossword.get_next_order());
    let crossword = Crossword { words: vec![] };
    assert_eq!(0, crossword.get_next_order());
    let crossword = Crossword { words: vec![placed("abc", 0, 0, Direction::Across, 0)] };
    assert_eq!(1, crossword.get_next_order());
}

#[test]
fn well_formed_states() {
    let words = vec!["abc".to_string(), "de".to_string()];
    let mut crossword = crossword_initialise(&words);
    assert!(crossword.is_well_formed());
    // A tag that is not below the number of placed words.
    crossword.words[0].cross = Some(CrossData {
        row: 0,
        start_point: 0,
        direction: Direction::Across,
        order: 1,
    });
    assert!(!crossword.is_well_formed());
    // A word that ends at the last coordinate.
    crossword.words[0].cross = Some(CrossData {
        row: 0,
        start_point: i32::MAX - 2,
        direction: Direction::Across,
        order: 0,
    });
    assert!(!crossword.is_well_formed());
    crossword.words[0].cross = Some(CrossData {
        row: 0,
        start_point: i32::MAX - 3,
        direction: Direction::Across,
        order: 0,
    });
    assert!(crossword.is_well_formed());
    crossword.words[0].cross = Some(CrossData {
        row: i32::MIN,
        start_point: 0,
        direction: Direction::Across,
        order: 0,
    });
    assert!(!crossword.is_well_formed());
    crossword.words[0].cross = None;
    assert!(crossword.is_well_formed());
}

#[test]
fn snapshot_is_an_equal_copy() {
    let crossword = Crossword {
        words: vec![placed("hello", 4, -2, Direction::Down, 0), unplaced("other")],
    };
    let mut copy = crossword.snapshot();
    assert_eq!(crossword, copy);
    copy.words[1].cross = Some(CrossData {
        row: 0,
        start_point: 0,
        direction: Direction::Across,
        order: 1,
    });
    assert_ne!(crossword, copy);
    assert_eq!(None, crossword.words[1].cross);
}

#[test]
fn worse_branches_leave_the_best_alone() {
    let words = vec!["ab".to_string(), "bcdefg".to_string()];
    let letter_map = letters_get_map(&words);
    let mut crossword = crossword_initialise(&words);

    // A layout of the same words on one line, which no search could find:
    // whatever the search finds has a larger box.
    let small = Crossword {
        words: vec![
            placed("ab", 0, 0, Direction::Across, 0),
            placed("bcdefg", 0, 0, Direction::Across, 1),
        ],
    };
    assert_eq!((1, 6), small.get_min_max());

    let mut best = vec![small.clone()];
    let mut with_word = crossword_initialise(&words);
    with_word.words[1].cross =
        Some(CrossData { row: 1, start_point: 0, direction: Direction::Down, order: 1 });
    assert_eq!(Comparison::Worse, compare_crosswords(&with_word, &best));

    options_compare(&letter_map, &mut crossword, &mut best);
    assert_eq!(vec![small], best);
    assert_eq!(crossword_initialise(&words), crossword);
}

#[test]
fn file_letters_reads_one_list_and_names_the_other() {
    let words = vec!["One", "TWO"];
    let read = vec!["eno".to_string(), "xo".to_string()];
    let letter_map = file_letters(&words, &read);
    let seen: Vec<(usize, &str, char, usize, usize, usize)> = letter_map
        .get(&'o')
        .unwrap()
        .iter()
        .map(|r| {
            (r.word_index, r.word, r.letter, r.n_letters_before, r.letter_index, r.n_letters_after)
        })
        .collect();
    assert_eq!(vec![(0, "One", 'o', 2, 2, 0), (1, "TWO", 'o', 1, 1, 0)], seen);
    assert_eq!(1, letter_map.get(&'x').unwrap().len());
    assert!(letter_map.get(&'t').is_none());
    assert_eq!(4, letter_map.map.len());
}

#[test]
fn orderings_are_counted_by_the_factorial() {
    assert_eq!(0, count_orderings(0));
    assert_eq!(0, count_orderings(1));
    assert_eq!(2, count_orderings(2));
    assert_eq!(720, count_orderings(6));
    assert_eq!(count_orderings(5), get_combinations(5).len());
}
