use crossword_layout::common::{Crossword as Grid, WordUsage};
use crossword_layout::crossword::{crossword_initialise, CrossData, Crossword, Direction, WordCross};

#[test]
fn word_usage_compares_words_only() {
    let a = WordUsage { word: "alpha", currently_in_use: true };
    let b = WordUsage { word: "alpha", currently_in_use: false };
    let c = WordUsage { word: "alphabet", currently_in_use: true };
    assert!(a == b);
    assert!(a != c);
    assert!(!(b == c));
}

#[test]
fn grid_rows_read_columns_between_edges() {
    let grid = Grid {
        left_edge: 1,
        upper_edge: 0,
        right_edge: 2,
        lower_edge: 1,
        letters: vec![vec!['a', 'b', 'c'], vec!['d', 'e', 'f'], vec!['g', 'h', 'i']],
    };
    assert_eq!(vec![vec!['d', 'g'], vec!['e', 'h']], grid.rows());
    assert_eq!(vec!['e', 'h'], grid.row(1));
}

#[test]
fn grid_without_lines_has_no_rows() {
    let grid = Grid {
        left_edge: 0,
        upper_edge: 2,
        right_edge: 0,
        lower_edge: 1,
        letters: vec![vec!['a', 'b', 'c']],
    };
    assert!(grid.rows().is_empty());

    let grid = Grid {
        left_edge: 1,
        upper_edge: 0,
        right_edge: 0,
        lower_edge: 1,
        letters: vec![vec!['a', 'b', 'c']],
    };
    assert_eq!(vec![Vec::<char>::new(), Vec::<char>::new()], grid.rows());
}

fn picture(crossword: &Crossword) -> Vec<String> {
    crossword.render().iter().map(|row| row.iter().collect()).collect()
}

#[test]
fn render_shows_crossing_words() {
    let crossword = Crossword {
        words: vec![
            WordCross {
                word: "two",
                cross: Some(CrossData {
                    row: 0,
                    start_point: 0,
                    direction: Direction::Across,
                    order: 0,
                }),
            },
            WordCross {
                word: "words",
                cross: Some(CrossData {
                    row: 2,
                    start_point: -1,
                    direction: Direction::Down,
                    order: 1,
                }),
            },
        ],
    };
    assert_eq!(vec!["  w", "two", "  r", "  d", "  s"], picture(&crossword));
    assert_eq!('o', crossword.letter_shown(2, 0));
    assert_eq!('w', crossword.letter_shown(2, -1));
    assert_eq!(' ', crossword.letter_shown(0, 1));
    assert_eq!(' ', crossword.letter_shown(3, 0));
}

#[test]
fn render_of_seed_is_one_line() {
    let words = vec!["lonely".to_string()];
    let crossword = crossword_initialise(&words);
    assert_eq!(vec!["lonely"], picture(&crossword));
}

#[test]
fn render_later_slot_wins_a_shared_cell() {
    let crossword = Crossword {
        words: vec![
            WordCross {
                word: "ab",
                cross: Some(CrossData {
                    row: 0,
                    start_point: 0,
                    direction: Direction::Across,
                    order: 0,
                }),
            },
            WordCross {
                word: "xy",
                cross: Some(CrossData {
                    row: 1,
                    start_point: 0,
                    direction: Direction::Down,
                    order: 1,
                }),
            },
            WordCross { word: "unused", cross: None },
        ],
    };
    assert_eq!(vec!["ax", " y"], picture(&crossword));
}

#[test]
fn render_without_placed_word_is_one_blank() {
    let crossword = Crossword { words: vec![WordCross { word: "alone", cross: None }] };
    assert_eq!((0, 1, 0, 1), crossword.get_x_y_width());
    assert_eq!(vec![" "], picture(&crossword));
}
