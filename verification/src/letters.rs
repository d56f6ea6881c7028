//! The letter occurrence index: for every letter, the places where it occurs
//! in the input words.

use std::collections::HashMap;
use vstd::prelude::*;

verus! {

broadcast use vstd::std_specs::hash::group_hash_axioms;

/// One occurrence of a letter in a word, in unbounded integers: the word, by
/// index and by text, the letter, its position in the word and the number of
/// letters after it.
pub struct Occurrence {
    pub word_index: nat,
    pub word: Seq<char>,
    pub letter: char,
    pub letter_index: nat,
    pub n_letters_after: nat,
}

/// One occurrence of a letter: the word it belongs to, by index and by text,
/// the letter, and how many letters precede and follow it in the word.
#[derive(Clone, Copy, Debug)]
pub struct WordAndLetter<'a> {
    pub word_index: usize,
    pub word: &'a str,
    pub letter: char,
    pub letter_index: usize,
    pub n_letters_after: usize,
}

/// The letter occurrence index: for each letter the records of its
/// occurrences. Letters are filed under their code points.
pub struct LetterMap<'a> {
    pub map: HashMap<u32, Vec<WordAndLetter<'a>>>,
}

impl<'a> View for WordAndLetter<'a> {
    type V = Occurrence;

    open spec fn view(&self) -> Occurrence {
        Occurrence {
            word_index: self.word_index as nat,
            word: self.word@,
            letter: self.letter,
            letter_index: self.letter_index as nat,
            n_letters_after: self.n_letters_after as nat,
        }
    }
}

/// The occurrences that a list of records stands for.
pub open spec fn occurrences_view(records: Seq<WordAndLetter>) -> Seq<Occurrence> {
    Seq::new(records.len(), |i: int| records[i]@)
}

/// The occurrences that a table of records holds under each code point.
pub open spec fn table_view(table: Map<u32, Vec<WordAndLetter>>) -> Map<u32, Seq<Occurrence>> {
    Map::new(|key: u32| table.dom().contains(key), |key: u32| occurrences_view(table[key]@))
}

/// The index that a table of occurrences, filed under code points, stands
/// for.
pub open spec fn index_view(table: Map<u32, Seq<Occurrence>>) -> Map<char, Seq<Occurrence>> {
    Map::new(
        |letter: char| table.dom().contains(letter as u32),
        |letter: char| table[letter as u32],
    )
}

impl<'a> View for LetterMap<'a> {
    type V = Map<char, Seq<Occurrence>>;

    open spec fn view(&self) -> Map<char, Seq<Occurrence>> {
        index_view(table_view(self.map@))
    }
}

impl<'a> LetterMap<'a> {
    /// The records filed under `letter`, if there are any.
    pub fn get(&self, letter: &char) -> (entry: Option<&Vec<WordAndLetter<'a>>>)
        ensures
            match entry {
                Some(records) => self@.dom().contains(*letter) && occurrences_view(records@)
                    == self@[*letter],
                None => !self@.dom().contains(*letter),
            },
    {
        let key = *letter as u32;
        self.map.get(&key)
    }
}

/// The occurrence at letter number `l` of word number `w`, where the words
/// are known as `names` and read as `texts`.
pub open spec fn occurrence_at(
    names: Seq<Seq<char>>,
    texts: Seq<Seq<char>>,
    w: int,
    l: int,
) -> Occurrence {
    Occurrence {
        word_index: w as nat,
        word: names[w],
        letter: texts[w][l],
        letter_index: l as nat,
        n_letters_after: (texts[w].len() - l - 1) as nat,
    }
}

/// The occurrences of `letter` among the first `upto` letters of word number
/// `w`, in reading order.
pub open spec fn word_occurrences(
    names: Seq<Seq<char>>,
    texts: Seq<Seq<char>>,
    w: int,
    letter: char,
    upto: nat,
) -> Seq<Occurrence>
    decreases upto,
{
    if upto == 0 {
        Seq::empty()
    } else {
        let before = word_occurrences(names, texts, w, letter, (upto - 1) as nat);
        if texts[w][upto - 1] == letter {
            before.push(occurrence_at(names, texts, w, upto - 1))
        } else {
            before
        }
    }
}

/// The occurrences of `letter` in the first `n` words, by word and then in
/// reading order.
pub open spec fn occurrences_upto(
    names: Seq<Seq<char>>,
    texts: Seq<Seq<char>>,
    letter: char,
    n: nat,
) -> Seq<Occurrence>
    decreases n,
{
    if n == 0 {
        Seq::empty()
    } else {
        occurrences_upto(names, texts, letter, (n - 1) as nat) + word_occurrences(
            names,
            texts,
            n - 1,
            letter,
            texts[n - 1].len(),
        )
    }
}

/// The occurrences of `letter` in all words, by word and then in reading
/// order.
pub open spec fn occurrences(names: Seq<Seq<char>>, texts: Seq<Seq<char>>, letter: char) -> Seq<
    Occurrence,
> {
    occurrences_upto(names, texts, letter, texts.len())
}

/// The index of the words known as `names` and read as `texts`: every letter
/// that occurs in a text, with its occurrences.
pub open spec fn filed_index(names: Seq<Seq<char>>, texts: Seq<Seq<char>>) -> Map<
    char,
    Seq<Occurrence>,
> {
    Map::new(
        |letter: char| occurrences(names, texts, letter).len() > 0,
        |letter: char| occurrences(names, texts, letter),
    )
}

/// The letter occurrence index of `words`: every letter that occurs in a
/// word, with its occurrences.
pub open spec fn letter_index(words: Seq<Seq<char>>) -> Map<char, Seq<Occurrence>> {
    filed_index(words, words)
}

/// The texts of a list of strings.
pub open spec fn texts(words: Seq<String>) -> Seq<Seq<char>> {
    Seq::new(words.len(), |i: int| words[i]@)
}

/// The occurrences of `letter` in the first `w` words and the first `l`
/// letters of the word after them.
pub open spec fn found_so_far(
    names: Seq<Seq<char>>,
    texts: Seq<Seq<char>>,
    letter: char,
    w: nat,
    l: nat,
) -> Seq<Occurrence> {
    occurrences_upto(names, texts, letter, w) + word_occurrences(names, texts, w as int, letter, l)
}

/// The table holds the occurrences in the first `w` words and the first `l`
/// letters of the word after them, and no letter without an occurrence.
pub open spec fn holds(
    table: Map<u32, Seq<Occurrence>>,
    names: Seq<Seq<char>>,
    texts: Seq<Seq<char>>,
    w: nat,
    l: nat,
) -> bool {
    forall|letter: char|
        {
            &&& table.dom().contains(letter as u32) <==> (#[trigger] found_so_far(
                names,
                texts,
                letter,
                w,
                l,
            )).len() > 0
            &&& table.dom().contains(letter as u32) ==> table[letter as u32] == found_so_far(
                names,
                texts,
                letter,
                w,
                l,
            )
        }
}

/// The table with `occurrence` added to what is filed under its letter.
pub open spec fn filed(table: Map<u32, Seq<Occurrence>>, occurrence: Occurrence) -> Map<
    u32,
    Seq<Occurrence>,
> {
    let key = occurrence.letter as u32;
    if table.dom().contains(key) {
        table.insert(key, table[key].push(occurrence))
    } else {
        table.insert(key, seq![occurrence])
    }
}

/// The lowercase form of a text, as the standard library computes it.
pub uninterp spec fn lowercase(text: Seq<char>) -> Seq<char>;

/// Calls `str::to_lowercase` of the standard library. The contract gives the
/// result a name and claims nothing else of it: the lowercase form of a text
/// is a function of the text alone.
#[verifier::external_body]
pub(crate) fn to_lowercase(word: &str) -> (lowered: String)
    ensures
        lowered@ == lowercase(word@),
{
    word.to_lowercase()
}

/// The lowercase forms of `words`, in the same order.
pub fn letters_to_lowercase(words: &[&str]) -> (lowered: Vec<String>)
    ensures
        lowered@.len() == words@.len(),
        forall|i: int| 0 <= i < words@.len() ==> (#[trigger] lowered@[i])@ == lowercase(words@[i]@),
{
    let mut lowered: Vec<String> = Vec::new();
    let n = words.len();
    let mut i: usize = 0;
    while i < n
        invariant
            i <= n,
            n == words@.len(),
            lowered@.len() == i,
            forall|j: int| 0 <= j < i ==> (#[trigger] lowered@[j])@ == lowercase(words@[j]@),
        decreases n - i,
    {
        lowered.push(to_lowercase(words[i]));
        i += 1;
    }
    lowered
}

/// Builds the letter occurrence index of `words`.
pub fn letters_get_map<'a>(words: &'a [String]) -> (letter_map: LetterMap<'a>)
    ensures
        letter_map@ == letter_index(texts(words@)),
{
    let mut map: HashMap<u32, Vec<WordAndLetter<'a>>> = HashMap::new();
    let ghost all = texts(words@);
    let n = words.len();
    let mut word_index: usize = 0;
    proof {
        lemma_holds_nothing(table_view(map@), all, all);
    }
    while word_index < n
        invariant
            word_index <= n,
            n == words@.len(),
            all == texts(words@),
            holds(table_view(map@), all, all, word_index as nat, 0),
        decreases n - word_index,
    {
        let word = words[word_index].as_str();
        let len = word.unicode_len();
        let mut letter_index: usize = 0;
        while letter_index < len
            invariant
                letter_index <= len,
                word_index < n,
                n == words@.len(),
                all == texts(words@),
                len == word@.len(),
                all[word_index as int] == word@,
                holds(table_view(map@), all, all, word_index as nat, letter_index as nat),
            decreases len - letter_index,
        {
            let letter = word.get_char(letter_index);
            let word_and_letter = WordAndLetter {
                word_index,
                word,
                letter,
                letter_index,
                n_letters_after: len - letter_index - 1,
            };
            let key = letter as u32;
            let ghost before = table_view(map@);
            let mut words_with_letter = match map.remove(&key) {
                Some(records) => records,
                None => Vec::new(),
            };
            words_with_letter.push(word_and_letter);
            map.insert(key, words_with_letter);
            proof {
                let after = filed(before, word_and_letter@);
                assert forall|k: u32| #[trigger]
                    table_view(map@).dom().contains(k) implies after.dom().contains(k)
                    && table_view(map@)[k] == after[k] by {}
                lemma_holds_one_more(before, all, all, word_index as nat, letter_index as nat);
            }
            letter_index += 1;
        }
        proof {
            lemma_holds_next_word(table_view(map@), all, all, word_index as nat);
        }
        word_index += 1;
    }
    let letter_map = LetterMap { map };
    proof {
        lemma_holds_all(table_view(letter_map.map@), all, all);
    }
    letter_map
}

/// An empty table holds what no word says.
pub proof fn lemma_holds_nothing(
    table: Map<u32, Seq<Occurrence>>,
    names: Seq<Seq<char>>,
    texts: Seq<Seq<char>>,
)
    requires
        table.dom() =~= Set::empty(),
    ensures
        holds(table, names, texts, 0, 0),
{
}

/// Filing the occurrence at the next letter keeps the table up to date.
pub proof fn lemma_holds_one_more(
    table: Map<u32, Seq<Occurrence>>,
    names: Seq<Seq<char>>,
    texts: Seq<Seq<char>>,
    w: nat,
    l: nat,
)
    requires
        holds(table, names, texts, w, l),
        w < texts.len(),
        l < texts[w as int].len(),
    ensures
        holds(
            filed(table, occurrence_at(names, texts, w as int, l as int)),
            names,
            texts,
            w,
            l + 1,
        ),
{
    let occurrence = occurrence_at(names, texts, w as int, l as int);
    let after = filed(table, occurrence);
    assert forall|letter: char|
        {
            &&& after.dom().contains(letter as u32) <==> (#[trigger] found_so_far(
                names,
                texts,
                letter,
                w,
                l + 1,
            )).len() > 0
            &&& after.dom().contains(letter as u32) ==> after[letter as u32] == found_so_far(
                names,
                texts,
                letter,
                w,
                l + 1,
            )
        } by {
        let found = found_so_far(names, texts, letter, w, l);
        let grown = found_so_far(names, texts, letter, w, l + 1);
        if letter == occurrence.letter {
            assert(grown =~= found.push(occurrence));
        } else {
            lemma_code_points_differ(letter, occurrence.letter);
            assert(grown == found);
        }
    }
}

/// A table that is up to date at the end of a word is up to date at the start
/// of the next one.
pub proof fn lemma_holds_next_word(
    table: Map<u32, Seq<Occurrence>>,
    names: Seq<Seq<char>>,
    texts: Seq<Seq<char>>,
    w: nat,
)
    requires
        w < texts.len(),
        holds(table, names, texts, w, texts[w as int].len()),
    ensures
        holds(table, names, texts, w + 1, 0),
{
    assert forall|letter: char| #[trigger]
        found_so_far(names, texts, letter, w + 1, 0) == found_so_far(
            names,
            texts,
            letter,
            w,
            texts[w as int].len(),
        ) by {}
}

/// A table that is up to date after the last word stands for the index of the
/// words.
pub proof fn lemma_holds_all(
    table: Map<u32, Seq<Occurrence>>,
    names: Seq<Seq<char>>,
    texts: Seq<Seq<char>>,
)
    requires
        holds(table, names, texts, texts.len(), 0),
    ensures
        index_view(table) == filed_index(names, texts),
{
    let n = texts.len();
    assert forall|letter: char|
        index_view(table).dom().contains(letter) == (#[trigger] filed_index(
            names,
            texts,
        ).dom().contains(letter)) by {
        assert(found_so_far(names, texts, letter, n, 0) == occurrences(names, texts, letter));
    }
    assert forall|letter: char| #[trigger]
        index_view(table).dom().contains(letter) implies index_view(table)[letter] == filed_index(
        names,
        texts,
    )[letter] by {
        assert(found_so_far(names, texts, letter, n, 0) == occurrences(names, texts, letter));
    }
}

/// Different letters have different code points.
pub proof fn lemma_code_points_differ(a: char, b: char)
    requires
        a != b,
    ensures
        a as u32 != b as u32,
{
}

/// Every occurrence of `letter` among the first `upto` letters of word number
/// `w` is the occurrence at one of these positions, and the letter there is
/// `letter`.
pub proof fn lemma_word_occurrences_are_positions(
    names: Seq<Seq<char>>,
    texts: Seq<Seq<char>>,
    w: int,
    letter: char,
    upto: nat,
    k: int,
) -> (l: int)
    requires
        0 <= w < texts.len(),
        upto <= texts[w].len(),
        0 <= k < word_occurrences(names, texts, w, letter, upto).len(),
    ensures
        0 <= l < upto,
        texts[w][l] == letter,
        word_occurrences(names, texts, w, letter, upto)[k] == occurrence_at(names, texts, w, l),
    decreases upto,
{
    let before = word_occurrences(names, texts, w, letter, (upto - 1) as nat);
    if k < before.len() {
        lemma_word_occurrences_are_positions(names, texts, w, letter, (upto - 1) as nat, k)
    } else {
        upto - 1
    }
}

/// Every occurrence of `letter` in the first `n` words is the occurrence at
/// a position of one of these words, and the letter there is `letter`.
pub proof fn lemma_occurrences_are_positions(
    names: Seq<Seq<char>>,
    texts: Seq<Seq<char>>,
    letter: char,
    n: nat,
    k: int,
) -> (at: (int, int))
    requires
        n <= texts.len(),
        0 <= k < occurrences_upto(names, texts, letter, n).len(),
    ensures
        0 <= at.0 < n,
        0 <= at.1 < texts[at.0].len(),
        texts[at.0][at.1] == letter,
        occurrences_upto(names, texts, letter, n)[k] == occurrence_at(names, texts, at.0, at.1),
    decreases n,
{
    let before = occurrences_upto(names, texts, letter, (n - 1) as nat);
    if k < before.len() {
        lemma_occurrences_are_positions(names, texts, letter, (n - 1) as nat, k)
    } else {
        let l = lemma_word_occurrences_are_positions(
            names,
            texts,
            n - 1,
            letter,
            texts[n - 1].len(),
            k - before.len(),
        );
        (n - 1, l)
    }
}

} // verus!
