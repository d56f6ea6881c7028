use crossword_layout::letter_map::get_letter_map;

#[test]
fn lowercase_letter_map_files_letters_of_every_word() {
    let words = vec!["The", "quick", "BROWN", "fox"];
    let letter_map = get_letter_map(&words);

    let o_entry = letter_map.get(&'o').unwrap();
    let seen: Vec<(usize, &str, char, usize, usize, usize)> = o_entry
        .iter()
        .map(|r| {
            (r.word_index, r.word, r.letter, r.n_letters_before, r.letter_index, r.n_letters_after)
        })
        .collect();
    assert_eq!(vec![(2, "BROWN", 'o', 2, 2, 2), (3, "fox", 'o', 1, 1, 1)], seen);

    let t_entry = letter_map.get(&'t').unwrap();
    assert_eq!(1, t_entry.len());
    assert_eq!(0, t_entry[0].word_index);
    assert_eq!("The", t_entry[0].word);
    assert_eq!(0, t_entry[0].n_letters_before);
    assert_eq!(2, t_entry[0].n_letters_after);

    assert!(letter_map.get(&'T').is_none());
    assert!(letter_map.get(&'B').is_none());
    assert!(letter_map.get(&'z').is_none());
}

#[test]
fn lowercase_letter_map_of_no_words_is_empty() {
    let words: Vec<&str> = vec![];
    let letter_map = get_letter_map(&words);
    assert!(letter_map.map.is_empty());
}
