use crossword_layout::crossword::{crossword_initialise, CrossData, Crossword, Direction, WordCross};
use crossword_layout::letters::{letters_get_map, WordAndLetter};
use crossword_layout::options::{
    add_crossword, compare_crosswords, duplicates, insert_word, is_duplicate, options_best,
    options_compare, remove_word, Comparison,
};

fn owned(words: &[&str]) -> Vec<String> {
    words.iter().map(|w| w.to_string()).collect()
}

fn placement(row: i32, start_point: i32, direction: Direction, order: usize) -> Option<CrossData> {
    Some(CrossData { row, start_point, direction, order })
}

#[test]
fn two_words_cross_on_shared_letter() {
    let words = owned(&["two", "words"]);
    let mut crossword = crossword_initialise(&words);
    assert_eq!(placement(0, 0, Direction::Across, 0), crossword.words[0].cross);
    assert_eq!(None, crossword.words[1].cross);

    let cells = crossword.get_crossable_letters();
    assert_eq!(
        vec![
            ('t', 0, 0, Direction::Down),
            ('w', 1, 0, Direction::Down),
            ('o', 2, 0, Direction::Down),
        ],
        cells
    );

    let o_of_words = WordAndLetter {
        word_index: 1,
        word: "words",
        letter: 'o',
        letter_index: 1,
        n_letters_after: 3,
    };
    let (_, row, mid_point, direction) = cells[2];
    assert!(insert_word(row, mid_point, direction, &o_of_words, &mut crossword));
    assert_eq!(placement(2, -1, Direction::Down, 1), crossword.words[1].cross);
    assert_eq!((3, 5), crossword.get_min_max());
    assert_eq!((0, 3, -1, 5), crossword.get_x_y_width());
    assert!(crossword.all_words_crossed());
}

#[test]
fn insert_word_refuses_mismatch_and_occupied_slot() {
    let words = owned(&["two", "words"]);
    let mut crossword = crossword_initialise(&words);
    let before = crossword.clone();

    // The 'r' of "words" on the 'o' of "two": the letters differ.
    let r_of_words = WordAndLetter {
        word_index: 1,
        word: "words",
        letter: 'r',
        letter_index: 2,
        n_letters_after: 2,
    };
    assert!(!insert_word(2, 0, Direction::Down, &r_of_words, &mut crossword));
    assert_eq!(before, crossword);

    // The anchor is placed already.
    let t_of_two = WordAndLetter {
        word_index: 0,
        word: "two",
        letter: 't',
        letter_index: 0,
        n_letters_after: 2,
    };
    assert!(!insert_word(0, 0, Direction::Down, &t_of_two, &mut crossword));
    assert_eq!(before, crossword);
}

#[test]
fn remove_after_insert_restores_state() {
    let words = owned(&["two", "words"]);
    let mut crossword = crossword_initialise(&words);
    let before = crossword.clone();
    let w_of_words = WordAndLetter {
        word_index: 1,
        word: "words",
        letter: 'w',
        letter_index: 0,
        n_letters_after: 4,
    };
    assert!(insert_word(1, 0, Direction::Down, &w_of_words, &mut crossword));
    assert_ne!(before, crossword);
    remove_word(&w_of_words, &mut crossword);
    assert_eq!(before, crossword);
}

#[test]
fn insertion_never_shrinks_bounding_box() {
    let words = owned(&["two", "words"]);
    let mut crossword = crossword_initialise(&words);
    let (min_before, max_before) = crossword.get_min_max();
    assert_eq!((1, 3), (min_before, max_before));
    let w_of_words = WordAndLetter {
        word_index: 1,
        word: "words",
        letter: 'w',
        letter_index: 0,
        n_letters_after: 4,
    };
    assert!(insert_word(1, 0, Direction::Down, &w_of_words, &mut crossword));
    let (min_after, max_after) = crossword.get_min_max();
    assert_eq!((3, 5), (min_after, max_after));
    assert!(max_after >= max_before);
    assert!(min_after >= min_before);
}

#[test]
fn single_word_is_its_own_layout() {
    let words = owned(&["abc"]);
    let best = options_best(&words).unwrap();
    assert_eq!(1, best.len());
    assert_eq!(crossword_initialise(&words), best[0]);
    assert_eq!(placement(0, 0, Direction::Across, 0), best[0].words[0].cross);
}

#[test]
fn search_leaves_complete_state_alone() {
    let words = owned(&["abc"]);
    let letter_map = letters_get_map(&words);
    let mut crossword = crossword_initialise(&words);
    let mut best = vec![];
    options_compare(&letter_map, &mut crossword, &mut best);
    assert!(best.is_empty());
    assert_eq!(crossword_initialise(&words), crossword);
}

#[test]
fn words_without_shared_letter_give_no_layout() {
    let words = owned(&["abc", "xyz"]);
    let letter_map = letters_get_map(&words);
    let mut crossword = crossword_initialise(&words);
    let mut best = vec![];
    options_compare(&letter_map, &mut crossword, &mut best);
    assert!(best.is_empty());
    assert!(!crossword.all_words_crossed());
    assert_eq!(crossword_initialise(&words), crossword);

    assert_eq!(Some(vec![]), options_best(&words));
}

#[test]
fn no_words_no_answer() {
    let words: Vec<String> = vec![];
    assert_eq!(None, options_best(&words));
}

#[test]
fn two_words_all_layouts() {
    let words = owned(&["two", "words"]);
    let best = options_best(&words).unwrap();
    // "words" down through the 'w' and down through the 'o' of "two".
    assert_eq!(2, best.len());
    assert_eq!(placement(1, 0, Direction::Down, 1), best[0].words[1].cross);
    assert_eq!(placement(2, -1, Direction::Down, 1), best[1].words[1].cross);
    for layout in &best {
        assert!(layout.all_words_crossed());
        assert_eq!((3, 5), layout.get_min_max());
        assert_eq!(placement(0, 0, Direction::Across, 0), layout.words[0].cross);
    }
}

#[test]
fn branches_in_opposite_order_are_merged() {
    // "ax" goes down through the 'a' and "cy" down through the 'c' of "abc",
    // whichever is inserted first.
    let words = owned(&["abc", "ax", "cy"]);
    let best = options_best(&words).unwrap();
    assert_eq!(1, best.len());
    assert_eq!(placement(0, 0, Direction::Across, 0), best[0].words[0].cross);
    assert_eq!(placement(0, 0, Direction::Down, 1), best[0].words[1].cross);
    assert_eq!(placement(2, 0, Direction::Down, 2), best[0].words[2].cross);

    let other_order = Crossword {
        words: vec![
            WordCross { word: "abc", cross: placement(0, 0, Direction::Across, 0) },
            WordCross { word: "ax", cross: placement(0, 0, Direction::Down, 2) },
            WordCross { word: "cy", cross: placement(2, 0, Direction::Down, 1) },
        ],
    };
    assert_ne!(other_order, best[0]);
    assert!(duplicates(&other_order, &best[0]));
    assert!(duplicates(&best[0], &other_order));
    assert!(is_duplicate(&other_order, &best));
    assert_eq!(Comparison::SeedDuplicate, compare_crosswords(&other_order, &best));
}

#[test]
fn duplicate_test_is_symmetric() {
    let words = owned(&["three", "words", "here", "surprise"]);
    let mut x = crossword_initialise(&words);
    let mut y = crossword_initialise(&words);
    x.words[1].cross = placement(-2, 2, Direction::Down, 1);
    x.words[2].cross = placement(-3, 4, Direction::Down, 2);
    y.words[1].cross = placement(-2, 2, Direction::Down, 2);
    y.words[2].cross = placement(-3, 4, Direction::Down, 1);
    y.words[3].cross = placement(2, 2, Direction::Across, 3);
    assert!(duplicates(&x, &y));
    assert!(duplicates(&y, &x));

    y.words[1].cross = placement(-2, 2, Direction::Down, 3);
    y.words[3].cross = placement(2, 2, Direction::Across, 2);
    assert!(!duplicates(&x, &y));
    assert!(!duplicates(&y, &x));

    y.words[2].cross = placement(-1, 4, Direction::Down, 1);
    assert!(!duplicates(&x, &y));
    assert!(!duplicates(&y, &x));
}

#[test]
fn larger_box_is_worse_and_changes_nothing() {
    let words = owned(&["ab", "bcdefg"]);
    let mut small = crossword_initialise(&words);
    small.words[1].cross = placement(1, 0, Direction::Down, 1);
    assert_eq!((2, 6), small.get_min_max());

    let mut large = crossword_initialise(&words);
    large.words[1].cross = placement(5, -3, Direction::Down, 1);
    assert_eq!((6, 6), large.get_min_max());

    let mut larger = crossword_initialise(&words);
    larger.words[0].cross = placement(0, -1, Direction::Across, 0);
    larger.words[1].cross = placement(5, -3, Direction::Down, 1);
    assert_eq!((6, 7), larger.get_min_max());

    let mut best = vec![small.clone()];
    assert_eq!(Comparison::Worse, compare_crosswords(&large, &best));
    assert_eq!(Comparison::Worse, compare_crosswords(&larger, &best));
    add_crossword(Comparison::Worse, &larger, &mut best);
    assert_eq!(vec![small.clone()], best);

    let best = vec![larger.clone()];
    assert_eq!(Comparison::Better, compare_crosswords(&small, &best));
    assert_eq!(Comparison::Better, compare_crosswords(&large, &best));
}

#[test]
fn search_keeps_only_the_most_compact_layouts() {
    // "bcdefg" can only go down through the 'b' of "ab".
    let words = owned(&["ab", "bcdefg"]);
    let best = options_best(&words).unwrap();
    assert_eq!(1, best.len());
    assert_eq!(placement(1, 0, Direction::Down, 1), best[0].words[1].cross);
    assert_eq!((2, 6), best[0].get_min_max());
}

#[test]
fn search_on_six_words_is_orderly() {
    let words = owned(&["hereby", "exist", "words", "for", "sample", "output"]);
    let seed = crossword_initialise(&words);
    let letter_map = letters_get_map(&words);
    let mut crossword = crossword_initialise(&words);
    let mut best = vec![];
    options_compare(&letter_map, &mut crossword, &mut best);
    assert_eq!(seed, crossword);
    assert_eq!(Some(best.clone()), options_best(&words));
    assert!(!best.is_empty());
    let dimensions = best[0].get_min_max();
    for (i, layout) in best.iter().enumerate() {
        assert!(layout.all_words_crossed());
        assert_eq!(dimensions, layout.get_min_max());
        assert_eq!(placement(0, 0, Direction::Across, 0), layout.words[0].cross);
        for other in &best[..i] {
            assert!(!duplicates(layout, other));
        }
    }
}
