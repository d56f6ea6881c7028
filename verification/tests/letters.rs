use crossword_layout::letters::{letters_get_map, letters_to_lowercase, WordAndLetter};

#[test]
fn test_letters_to_lowercase() {
    let words_input = vec!["ALL_UPPERCASE", "mIXeD casE", "all_lowercase"];

    let words_output = letters_to_lowercase(&words_input);

    assert_eq!("all_uppercase".to_string(), words_output[0]);
    assert_eq!("mixed case".to_string(), words_output[1]);
    assert_eq!("all_lowercase".to_string(), words_output[2]);
}

#[test]
fn test_letters_get_map() {
    let words = vec![
        "the".to_string(),
        "quick".to_string(),
        "brown".to_string(),
        "fox".to_string(),
        "jumps".to_string(),
        "over".to_string(),
        "a".to_string(),
        "dog".to_string(),
    ];

    let letter_map = letters_get_map(&words);

    let i_entry = letter_map.get(&'i').unwrap();
    assert_eq!(1, i_entry.len());
    helper_word_and_letter_vector_contains_word_index(&i_entry, 1);

    if let Some(_) = letter_map.get(&'z') {
        assert!(
            false,
            "No words contain letter z, but the letter map contains a z entry."
        );
    }

    let e_entry = letter_map.get(&'e').unwrap();
    assert_eq!(2, e_entry.len());
    helper_word_and_letter_vector_contains_word_index(&e_entry, 0);
    helper_word_and_letter_vector_contains_word_index(&e_entry, 5);
}

fn helper_word_and_letter_vector_contains_word_index(
    word_and_letters: &Vec<WordAndLetter>,
    word_index: usize,
) {
    let mut contains = false;

    for word_and_letter in word_and_letters {
        if word_and_letter.word_index == word_index {
            contains = true;
            break;
        }
    }

    assert_eq!(true, contains);
}

#[test]
fn lowercase_of_no_words_is_empty() {
    let words_input: Vec<&str> = vec![];
    assert!(letters_to_lowercase(&words_input).is_empty());
}

#[test]
fn lowercase_leaves_other_characters_alone() {
    let words_input = vec!["ÄRGER", "straße", "123"];
    assert_eq!(
        vec!["ärger".to_string(), "straße".to_string(), "123".to_string()],
        letters_to_lowercase(&words_input)
    );
}

#[test]
fn letter_map_records_every_occurrence_in_order() {
    let words = vec!["abca".to_string(), "".to_string(), "ba".to_string()];
    let letter_map = letters_get_map(&words);

    let a_entry = letter_map.get(&'a').unwrap();
    let seen: Vec<(usize, &str, char, usize, usize)> = a_entry
        .iter()
        .map(|r| (r.word_index, r.word, r.letter, r.letter_index, r.n_letters_after))
        .collect();
    assert_eq!(
        vec![(0, "abca", 'a', 0, 3), (0, "abca", 'a', 3, 0), (2, "ba", 'a', 1, 0)],
        seen
    );

    let b_entry = letter_map.get(&'b').unwrap();
    let seen: Vec<(usize, &str, char, usize, usize)> = b_entry
        .iter()
        .map(|r| (r.word_index, r.word, r.letter, r.letter_index, r.n_letters_after))
        .collect();
    assert_eq!(vec![(0, "abca", 'b', 1, 2), (2, "ba", 'b', 0, 1)], seen);

    assert_eq!(1, letter_map.get(&'c').unwrap().len());
    assert!(letter_map.get(&'d').is_none());
    assert_eq!(3, letter_map.map.len());
}

#[test]
fn letter_map_counts_letters_not_bytes() {
    let words = vec!["żółw".to_string()];
    let letter_map = letters_get_map(&words);
    let entry = letter_map.get(&'ł').unwrap();
    assert_eq!(1, entry.len());
    assert_eq!(2, entry[0].letter_index);
    assert_eq!(1, entry[0].n_letters_after);
    assert_eq!(0, entry[0].word_index);
}

#[test]
fn letter_map_of_no_words_is_empty() {
    let words: Vec<String> = vec![];
    let letter_map = letters_get_map(&words);
    assert!(letter_map.map.is_empty());
    assert!(letter_map.get(&'a').is_none());
}
