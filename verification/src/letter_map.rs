//! A letter occurrence index over the lowercase forms of the words, whose
//! records also say how many letters precede the letter in its word.

use crate::letters::{
    filed, filed_index, holds, index_view, lemma_holds_all, lemma_holds_next_word,
    lemma_holds_nothing, lemma_holds_one_more, lowercase, to_lowercase, Occurrence,
};
use std::collections::HashMap;
use vstd::prelude::*;

verus! {

broadcast use vstd::std_specs::hash::group_hash_axioms;

/// One occurrence of a letter in the lowercase form of a word: the word, by
/// index and as it was given, the letter, and how many letters precede and
/// follow it.
#[derive(Clone, Copy, Debug)]
pub struct WordAndLetter<'a> {
    pub word_index: usize,
    pub word: &'a str,
    pub letter: char,
    pub n_letters_before: usize,
    pub letter_index: usize,
    pub n_letters_after: usize,
}

/// The letter occurrence index: for each letter the records of its
/// occurrences. Letters are filed under their code points.
pub struct LetterMap<'a> {
    pub map: HashMap<u32, Vec<WordAndLetter<'a>>>,
}

impl<'a> View for WordAndLetter<'a> {
    type V = Occurrence;

    open spec fn view(&self) -> Occurrence {
        Occurrence {
            word_index: self.word_index as nat,
            word: self.word@,
            letter: self.letter,
            letter_index: self.letter_index as nat,
            n_letters_after: self.n_letters_after as nat,
        }
    }
}

/// The occurrences that a list of records stands for.
pub open spec fn occurrences_view(records: Seq<WordAndLetter>) -> Seq<Occurrence> {
    Seq::new(records.len(), |i: int| records[i]@)
}

/// Every record counts as many letters before its letter as the position of
/// the letter says.
pub open spec fn counts_before(records: Seq<WordAndLetter>) -> bool {
    forall|i: int|
        0 <= i < records.len() ==> (#[trigger] records[i]).n_letters_before
            == records[i].letter_index
}

/// The occurrences that a table of records holds under each code point.
pub open spec fn table_view(table: Map<u32, Vec<WordAndLetter>>) -> Map<u32, Seq<Occurrence>> {
    Map::new(|key: u32| table.dom().contains(key), |key: u32| occurrences_view(table[key]@))
}

impl<'a> View for LetterMap<'a> {
    type V = Map<char, Seq<Occurrence>>;

    open spec fn view(&self) -> Map<char, Seq<Occurrence>> {
        index_view(table_view(self.map@))
    }
}

impl<'a> LetterMap<'a> {
    /// Every record counts the letters before its letter.
    pub open spec fn counts_before(&self) -> bool {
        forall|key: u32|
            self.map@.dom().contains(key) ==> counts_before((#[trigger] self.map@[key])@)
    }

    /// The records filed under `letter`, if there are any.
    pub fn get(&self, letter: &char) -> (entry: Option<&Vec<WordAndLetter<'a>>>)
        ensures
            match entry {
                Some(records) => {
                    &&& self@.dom().contains(*letter)
                    &&& occurrences_view(records@) == self@[*letter]
                    &&& self.counts_before() ==> counts_before(records@)
                },
                None => !self@.dom().contains(*letter),
            },
    {
        let key = *letter as u32;
        self.map.get(&key)
    }
}

/// The texts of a list of string slices.
pub open spec fn names(words: Seq<&str>) -> Seq<Seq<char>> {
    Seq::new(words.len(), |i: int| words[i]@)
}

/// The texts of a list of strings.
pub open spec fn texts(words: Seq<String>) -> Seq<Seq<char>> {
    Seq::new(words.len(), |i: int| words[i]@)
}

/// The lowercase forms of a list of words.
pub open spec fn lowered(words: Seq<&str>) -> Seq<Seq<char>> {
    Seq::new(words.len(), |i: int| lowercase(words[i]@))
}

/// Builds the letter occurrence index of the lowercase forms of `words`.
pub fn get_letter_map<'a>(words: &'a Vec<&str>) -> (letter_map: LetterMap<'a>)
    ensures
        letter_map@ == filed_index(names(words@), lowered(words@)),
        letter_map.counts_before(),
{
    let mut lowercase_words: Vec<String> = Vec::new();
    let n = words.len();
    let mut i: usize = 0;
    while i < n
        invariant
            i <= n,
            n == words@.len(),
            lowercase_words@.len() == i,
            forall|j: int|
                0 <= j < i ==> (#[trigger] lowercase_words@[j])@ == lowercase(words@[j]@),
        decreases n - i,
    {
        lowercase_words.push(to_lowercase(words[i]));
        i += 1;
    }
    assert(texts(lowercase_words@) =~= lowered(words@));
    file_letters(words, &lowercase_words)
}

/// Builds the index of the letters of `read`, each filed with the word of
/// `words` at the place of the text it was found in.
pub fn file_letters<'a>(words: &'a Vec<&str>, read: &Vec<String>) -> (letter_map: LetterMap<'a>)
    requires
        read@.len() == words@.len(),
    ensures
        letter_map@ == filed_index(names(words@), texts(read@)),
        letter_map.counts_before(),
{
    let mut map: HashMap<u32, Vec<WordAndLetter<'a>>> = HashMap::new();
    let ghost known_as = names(words@);
    let ghost all = texts(read@);
    let n = words.len();
    let mut word_index: usize = 0;
    proof {
        lemma_holds_nothing(table_view(map@), known_as, all);
    }
    while word_index < n
        invariant
            word_index <= n,
            n == words@.len(),
            n == read@.len(),
            known_as == names(words@),
            all == texts(read@),
            holds(table_view(map@), known_as, all, word_index as nat, 0),
            forall|key: u32| map@.dom().contains(key) ==> counts_before((#[trigger] map@[key])@),
        decreases n - word_index,
    {
        let word: &'a str = words[word_index];
        let text = read[word_index].as_str();
        let len = text.unicode_len();
        let mut letter_index: usize = 0;
        while letter_index < len
            invariant
                letter_index <= len,
                word_index < n,
                n == words@.len(),
                n == read@.len(),
                known_as == names(words@),
                all == texts(read@),
                len == text@.len(),
                all[word_index as int] == text@,
                known_as[word_index as int] == word@,
                holds(table_view(map@), known_as, all, word_index as nat, letter_index as nat),
                forall|key: u32|
                    map@.dom().contains(key) ==> counts_before((#[trigger] map@[key])@),
            decreases len - letter_index,
        {
            let letter = text.get_char(letter_index);
            let word_and_letter = WordAndLetter {
                word_index,
                word,
                letter,
                n_letters_before: letter_index,
                letter_index,
                n_letters_after: len - letter_index - 1,
            };
            let key = letter as u32;
            let ghost before = table_view(map@);
            let mut words_with_letter = match map.remove(&key) {
                Some(records) => records,
                None => Vec::new(),
            };
            words_with_letter.push(word_and_letter);
            map.insert(key, words_with_letter);
            proof {
                let after = filed(before, word_and_letter@);
                assert forall|k: u32| #[trigger]
                    table_view(map@).dom().contains(k) implies after.dom().contains(k)
                    && table_view(map@)[k] == after[k] by {}
                lemma_holds_one_more(
                    before,
                    known_as,
                    all,
                    word_index as nat,
                    letter_index as nat,
                );
            }
            letter_index += 1;
        }
        proof {
            lemma_holds_next_word(table_view(map@), known_as, all, word_index as nat);
        }
        word_index += 1;
    }
    let letter_map = LetterMap { map };
    proof {
        lemma_holds_all(table_view(letter_map.map@), known_as, all);
    }
    letter_map
}

} // verus!
