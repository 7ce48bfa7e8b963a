use vstd::prelude::*;
use vstd::string::*;
use vstd::utf8::*;

use crate::groups::{
    all_long_enough, copies, differs, distinct, fewest_copies, fewest_copies_of, group_patterns,
    group_size, keep_matching, keep_within, largest_groups, lemma_distinct, lemma_group_size,
    lemma_max_count, lemma_tied_members, max_count, positions_view, repeat_histogram,
    repeat_histogram_of, tied, word_patterns,
};
use crate::random::random_below;
use crate::removal::{
    lemma_all_flagged, lemma_unflagged_keeps, lemma_unflagged_props, positions_where, unflagged,
};
use crate::words::{
    bytes_of, contains_bytes, fill_pattern, has_char, holds_bytes, lemma_single_byte,
    other_length, same_text, single_byte, stars, strings_view, too_many,
};

verus! {

broadcast use vstd::seq_lib::group_seq_properties;

/// The state of one game: the words the computer may still be thinking of,
/// how long they are, the guesses allowed and spent, the letters guessed so
/// far and the word as the player sees it (`*` for unknown letters).
pub struct Hangman {
    word_database: Vec<String>,
    word_length: usize,
    initial_guesses: i32,
    guesses: i32,
    guessed_letters: Vec<String>,
    word: String,
}

/// The model of a [`Hangman`]: each string by its characters.
pub struct HangmanView {
    pub words: Seq<Seq<char>>,
    pub word_length: usize,
    pub initial_guesses: i32,
    pub guesses: i32,
    pub guessed: Seq<Seq<char>>,
    pub word: Seq<char>,
}

/// How a typed answer is judged before it counts as a guess.
#[derive(Debug, PartialEq, Eq, Structural)]
pub enum GuessCheck {
    /// The answer is exactly one byte (one ASCII character) and has not
    /// been guessed before.
    Accepted,
    /// The answer is empty.
    Empty,
    /// The answer is longer than one byte.
    TooLong,
    /// The answer has been guessed before.
    AlreadyGuessed,
}

/// What a guess did to the game.
#[derive(Debug, PartialEq, Eq, Structural)]
pub enum GuessOutcome {
    /// Every candidate word held the letter: it is revealed, and `copies`
    /// is the number the game announces (`plural` when above one).
    Hit { copies: usize, plural: bool },
    /// Some candidate words lacked the letter: only those stay, and the
    /// player loses a guess.
    Miss,
}

/// `c` is an index the draw can give among `len` tied patterns: any of
/// them when there are two or more, else the first.
pub open spec fn choice_ok(len: nat, c: int) -> bool {
    if len > 1 {
        0 <= c < len
    } else {
        c == 0
    }
}

impl HangmanView {
    /// The word shown to the player is ASCII.
    pub open spec fn wf(self) -> bool {
        is_ascii_chars(self.word)
    }

    /// The guesses the player still has.
    pub open spec fn guesses_left(self) -> int {
        self.initial_guesses - self.guesses
    }

    /// Every candidate word has at least `word_length` bytes.
    pub open spec fn long_enough(self) -> bool {
        all_long_enough(self.words, self.word_length)
    }

    /// The same state with other candidate words.
    pub open spec fn with_words(self, words: Seq<Seq<char>>) -> HangmanView {
        HangmanView { words, ..self }
    }

    /// Slot `k` counts the candidate words that hold `g` exactly `k + 1`
    /// times among their first `word_length` bytes.
    pub open spec fn counts(self, g: u8) -> Seq<usize> {
        repeat_histogram(self.words, g, self.word_length)
    }

    /// The lowest number of copies of `g` that a candidate word holds, among
    /// the words that hold any (0 when none does); see
    /// `law_limit_is_fewest_copies`.
    pub open spec fn limit(self, g: u8) -> usize {
        fewest_copies(self.counts(g))
    }

    /// The state once the words with more than `limit(g)` copies of `g` are
    /// removed.
    pub open spec fn limited(self, g: u8) -> HangmanView {
        self.with_words(unflagged(self.words, too_many(g, self.word_length, self.limit(g))))
    }

    /// The pattern of each candidate word for `g`.
    pub open spec fn patterns(self, g: u8) -> Seq<Seq<usize>> {
        word_patterns(self.words, g, self.word_length)
    }

    /// The distinct patterns, in the order they first occur.
    pub open spec fn groups(self, g: u8) -> Seq<Seq<usize>> {
        distinct(self.patterns(g))
    }

    /// For each distinct pattern, the number of words that share it.
    pub open spec fn group_counts(self, g: u8) -> Seq<i32> {
        self.groups(g).map_values(|p: Seq<usize>| group_size(self.patterns(g), p) as i32)
    }

    /// Every group's size fits an `i32`.
    pub open spec fn groups_fit(self, g: u8) -> bool {
        forall|i: int|
            0 <= i < self.groups(g).len() ==> #[trigger] group_size(self.patterns(g), self.groups(g)[i])
                <= i32::MAX
    }

    /// The patterns shared by the most words, in order.
    pub open spec fn largest(self, g: u8) -> Seq<Seq<usize>> {
        tied(self.groups(g), self.group_counts(g), max_count(self.group_counts(g)))
    }

    /// The state once only the words whose pattern for `letter` is `pat`
    /// stay and `letter` is written into the shown word at those positions.
    pub open spec fn with_pattern(self, pat: Seq<usize>, letter: char) -> HangmanView {
        HangmanView {
            words: unflagged(self.words, differs(pat, letter as u8, self.word_length)),
            word: fill_pattern(self.word, pat, letter),
            ..self
        }
    }

    /// Revealing `g` can go through: every word can be read at every offset
    /// below `word_length`, some word is in play, and the group sizes after
    /// the over-limit words are removed fit an `i32`.
    pub open spec fn add_guess_safe(self, g: u8) -> bool {
        &&& self.long_enough()
        &&& self.words.len() > 0
        &&& self.limited(g).groups_fit(g)
    }

    /// Tied pattern `c` once the over-limit words are gone.
    pub open spec fn drawn_pattern(self, g: u8, c: int) -> Seq<usize> {
        self.limited(g).largest(g)[c]
    }

    /// Every candidate word holds the bytes of `guess`.
    pub open spec fn hit(self, guess: Seq<char>) -> bool {
        forall|k: int| 0 <= k < self.words.len() ==> #[trigger] holds_bytes(bytes_of(guess))(self.words[k])
    }

    /// The candidate words without the bytes of `guess`, in order.
    pub open spec fn words_without(self, guess: Seq<char>) -> Seq<Seq<char>> {
        unflagged(self.words, holds_bytes(bytes_of(guess)))
    }

    /// `answer` appended to the guessed letters.
    pub open spec fn with_guess(self, answer: Seq<char>) -> HangmanView {
        HangmanView { guessed: self.guessed.push(answer), ..self }
    }

    /// The state after a wrong guess: only the words without it stay, one
    /// more guess is spent, and it joins the guessed letters.
    pub open spec fn after_miss(self, answer: Seq<char>) -> HangmanView {
        HangmanView {
            words: self.words_without(answer),
            guesses: (self.guesses + 1) as i32,
            guessed: self.guessed.push(answer),
            ..self
        }
    }

    /// The state after a right guess whose draw picked tied pattern `c`.
    pub open spec fn after_hit(self, answer: Seq<char>, c: int) -> HangmanView {
        self.limited(answer[0] as u8).with_pattern(
            self.drawn_pattern(answer[0] as u8, c),
            answer[0],
        ).with_guess(answer)
    }
}

impl Hangman {
    /// The word shown to the player stays ASCII.
    #[verifier::type_invariant]
    spec fn well_formed(self) -> bool {
        is_ascii_chars(self.word@)
    }
}

impl View for Hangman {
    type V = HangmanView;

    closed spec fn view(&self) -> HangmanView {
        HangmanView {
            words: strings_view(self.word_database@),
            word_length: self.word_length,
            initial_guesses: self.initial_guesses,
            guesses: self.guesses,
            guessed: strings_view(self.guessed_letters@),
            word: self.word@,
        }
    }
}

impl Default for Hangman {
    fn default() -> (game: Hangman)
        ensures
            game@ == (HangmanView {
                words: Seq::empty(),
                word_length: 4,
                initial_guesses: 10,
                guesses: 0,
                guessed: Seq::empty(),
                word: Seq::empty(),
            }),
            game@.wf(),
    {
        let game = Hangman {
            word_database: Vec::new(),
            word_length: 4,
            initial_guesses: 10,
            guesses: 0,
            guessed_letters: Vec::new(),
            word: String::new(),
        };
        assert(game@.words =~= Seq::empty());
        assert(game@.guessed =~= Seq::empty());
        game
    }
}

impl Hangman {
    fn add_guessed_letter(&mut self, letter: &str)
        ensures
            final(self)@ == (HangmanView { guessed: old(self)@.guessed.push(letter@), ..old(self)@ }),
    {
        proof {
            use_type_invariant(&*self);
        }
        let mut letters = Vec::new();
        std::mem::swap(&mut letters, &mut self.guessed_letters);
        letters.push(letter.to_owned());
        self.guessed_letters = letters;
        assert(self@.guessed =~= old(self)@.guessed.push(letter@));
    }

    /// The number of guesses the player still has.
    pub fn get_guesses_left(&self) -> (left: i32)
        requires
            i32::MIN <= self@.guesses_left() <= i32::MAX,
        ensures
            left == self@.guesses_left(),
    {
        self.initial_guesses - self.guesses
    }

    pub fn set_initial_guesses(&mut self, initial: i32)
        ensures
            final(self)@ == (HangmanView { initial_guesses: initial, ..old(self)@ }),
    {
        proof {
            use_type_invariant(&*self);
        }
        self.initial_guesses = initial;
    }

    pub fn set_length(&mut self, len: usize)
        ensures
            final(self)@ == (HangmanView { word_length: len, ..old(self)@ }),
    {
        proof {
            use_type_invariant(&*self);
        }
        self.word_length = len;
    }

    /// The number of candidate words.
    pub fn count_database(&self) -> (n: usize)
        ensures
            n == self@.words.len(),
    {
        self.word_database.len()
    }

    /// The word as the player sees it.
    pub fn word(&self) -> (w: &String)
        ensures
            w@ == self@.word,
    {
        &self.word
    }

    /// The letters guessed so far, in order.
    pub fn guessed_letters(&self) -> (g: &Vec<String>)
        ensures
            strings_view(g@) == self@.guessed,
    {
        &self.guessed_letters
    }

    /// Sets the shown word to `word_length` stars.
    pub fn make_init_word(&mut self)
        ensures
            final(self)@ == (HangmanView { word: stars(old(self)@.word_length as nat), ..old(self)@ }),
            final(self)@.wf(),
    {
        let mut w = String::new();
        let mut i: usize = 0;
        while i < self.word_length
            invariant
                i <= self.word_length,
                w@ =~= stars(i as nat),
            decreases self.word_length - i,
        {
            proof {
                reveal_strlit("*");
            }
            w.append("*");
            i = i + 1;
        }
        self.word = w;
    }

    /// Whether the player has uncovered every letter: no `*` is left.
    pub fn check_word_filled(&self) -> (filled: bool)
        ensures
            filled == !self@.word.contains('*'),
    {
        !has_char(self.word.as_str(), '*')
    }

    /// Whether some line of the dictionary has `length` characters, for a
    /// positive `length`.
    pub fn check_length(&self, lines: &Vec<String>, length: i32) -> (known: bool)
        ensures
            known == (length > 0 && exists|k: int|
                0 <= k < lines@.len() && #[trigger] lines@[k]@.len() == length),
    {
        if length > 0 {
            let mut k: usize = 0;
            while k < lines.len()
                invariant
                    k <= lines@.len(),
                    length > 0,
                    forall|t: int| 0 <= t < k ==> #[trigger] lines@[t]@.len() != length,
                decreases lines@.len() - k,
            {
                if lines[k].as_str().unicode_len() == length as usize {
                    return true;
                }
                k = k + 1;
            }
        }
        false
    }

    /// Adds to the candidates every dictionary line with `word_length`
    /// characters, in order.
    pub fn make_word_database(&mut self, lines: &Vec<String>)
        ensures
            final(self)@ == old(self)@.with_words(
                old(self)@.words + unflagged(strings_view(lines@), other_length(old(self)@.word_length)),
            ),
    {
        proof {
            use_type_invariant(&*self);
        }
        let ghost lv = strings_view(lines@);
        let ghost n = self.word_length;
        let mut k: usize = 0;
        while k < lines.len()
            invariant
                k <= lines@.len(),
                lv == strings_view(lines@),
                n == self.word_length,
                self@ == old(self)@.with_words(
                    old(self)@.words + unflagged(lv.take(k as int), other_length(n)),
                ),
            decreases lines@.len() - k,
        {
            proof {
                use_type_invariant(&*self);
            }
            assert(lv.take(k + 1).drop_last() =~= lv.take(k as int));
            assert(lv.take(k + 1).last() == lines@[k as int]@);
            if lines[k].as_str().unicode_len() == self.word_length {
                let ghost before = self@.words;
                let mut words = Vec::new();
                std::mem::swap(&mut words, &mut self.word_database);
                words.push(lines[k].clone());
                self.word_database = words;
                assert(self@.words =~= before.push(lines@[k as int]@));
                assert(unflagged(lv.take(k + 1), other_length(n)) == unflagged(lv.take(k as int), other_length(n)).push(lines@[k as int]@));
                assert(self@.words =~= old(self)@.words + unflagged(lv.take(k + 1), other_length(n)));
            }
            k = k + 1;
        }
        assert(lv.take(lines@.len() as int) =~= lv);
    }

    /// The candidate word at `index`.
    pub fn word_at(&self, index: usize) -> (w: String)
        requires
            index < self@.words.len(),
        ensures
            w@ == self@.words[index as int],
    {
        self.word_database[index].clone()
    }

    /// One of the candidate words, drawn at random.
    pub fn choose_random_word(&self) -> (w: String)
        requires
            self@.words.len() > 0,
        ensures
            self@.words.contains(w@),
    {
        let index = random_below(self.word_database.len());
        let w = self.word_at(index);
        assert(self@.words[index as int] == w@);
        w
    }
}

impl Hangman {
    /// Splits the candidates by whether they hold `guess`. The flag is true
    /// when every candidate holds it, and the list is then empty; otherwise
    /// the list holds the candidates that lack it, in order.
    pub fn categorize(&self, guess: &str) -> (res: (bool, Vec<String>))
        ensures
            res.0 == self@.hit(guess@),
            strings_view(res.1@) == (if res.0 {
                Seq::<Seq<char>>::empty()
            } else {
                self@.words_without(guess@)
            }),
    {
        let ghost words = self@.words;
        let ghost f = holds_bytes(bytes_of(guess@));
        let list_length = self.word_database.len();
        let pat = guess.as_bytes();
        let mut has_guess: usize = 0;
        let mut k: usize = 0;
        while k < list_length
            invariant
                k <= list_length,
                list_length == words.len(),
                words == self@.words,
                f == holds_bytes(bytes_of(guess@)),
                pat@ == bytes_of(guess@),
                has_guess == positions_where(words.take(k as int), f).len(),
            decreases list_length - k,
        {
            proof {
                lemma_all_flagged(words.take(k + 1), f);
            }
            assert(words.take(k + 1).drop_last() =~= words.take(k as int));
            assert(words.take(k + 1).last() == self.word_database@[k as int]@);
            if contains_bytes(self.word_database[k].as_str().as_bytes(), pat) {
                has_guess = has_guess + 1;
            }
            k = k + 1;
        }
        assert(words.take(list_length as int) =~= words);
        proof {
            lemma_all_flagged(words, f);
        }
        let no_guess = list_length - has_guess;
        let mut non_guess_list: Vec<String> = Vec::new();
        let mut guess_bool = false;
        if no_guess > 0 {
            let mut k: usize = 0;
            while k < list_length
                invariant
                    k <= list_length,
                    list_length == words.len(),
                    words == self@.words,
                    f == holds_bytes(bytes_of(guess@)),
                    pat@ == bytes_of(guess@),
                    strings_view(non_guess_list@) == unflagged(words.take(k as int), f),
                decreases list_length - k,
            {
                assert(words.take(k + 1).drop_last() =~= words.take(k as int));
                assert(words.take(k + 1).last() == self.word_database@[k as int]@);
                let ghost before = non_guess_list@;
                if !contains_bytes(self.word_database[k].as_str().as_bytes(), pat) {
                    non_guess_list.push(self.word_database[k].clone());
                    assert(strings_view(non_guess_list@) =~= strings_view(before).push(
                        self.word_database@[k as int]@,
                    ));
                }
                k = k + 1;
            }
        } else {
            guess_bool = true;
        }
        assert(strings_view(Seq::<String>::empty()) =~= Seq::<Seq<char>>::empty());
        (guess_bool, non_guess_list)
    }

    /// The candidates become exactly `list`.
    pub fn remove_guess_words(&mut self, list: Vec<String>)
        ensures
            final(self)@ == old(self)@.with_words(strings_view(list@)),
    {
        proof {
            use_type_invariant(&*self);
        }
        self.word_database = list;
    }

    /// Judges a typed answer: empty, longer than one byte, guessed before,
    /// or fit to be a guess (exactly one new letter).
    pub fn check_guess(&self, answer: &str) -> (verdict: GuessCheck)
        ensures
            verdict == (if bytes_of(answer@).len() == 0 {
                GuessCheck::Empty
            } else if bytes_of(answer@).len() > 1 {
                GuessCheck::TooLong
            } else if self@.guessed.contains(answer@) {
                GuessCheck::AlreadyGuessed
            } else {
                GuessCheck::Accepted
            }),
    {
        if answer.as_bytes().len() == 0 {
            return GuessCheck::Empty;
        }
        if answer.as_bytes().len() > 1 {
            return GuessCheck::TooLong;
        }
        let mut k: usize = 0;
        while k < self.guessed_letters.len()
            invariant
                k <= self@.guessed.len(),
                bytes_of(answer@).len() == 1,
                forall|t: int| 0 <= t < k ==> self@.guessed[t] != answer@,
            decreases self@.guessed.len() - k,
        {
            if same_text(self.guessed_letters[k].as_str(), answer) {
                assert(self@.guessed[k as int] == answer@);
                assert(self@.guessed.contains(answer@));
                return GuessCheck::AlreadyGuessed;
            }
            k = k + 1;
        }
        GuessCheck::Accepted
    }

    /// Writes `letter` into the shown word at each listed position.
    fn add_letter_to_word(&mut self, list: &Vec<usize>, letter: &str)
        requires
            single_byte(letter@),
        ensures
            final(self)@ == (HangmanView {
                word: fill_pattern(old(self)@.word, list@, letter@[0]),
                ..old(self)@
            }),
            final(self)@.wf(),
    {
        proof {
            use_type_invariant(&*self);
        }
        let ghost target = fill_pattern(self@.word, list@, letter@[0]);
        let n = self.word.as_str().unicode_len();
        let mut new_word = String::new();
        let mut i: usize = 0;
        while i < n
            invariant
                n == self@.word.len(),
                i <= n,
                self@ == old(self)@,
                self@.wf(),
                single_byte(letter@),
                target == fill_pattern(self@.word, list@, letter@[0]),
                new_word@ =~= target.take(i as int),
            decreases n - i,
        {
            let mut hit = false;
            let mut j: usize = 0;
            while j < list.len()
                invariant
                    j <= list@.len(),
                    hit == exists|t: int| 0 <= t < j && list@[t] == i,
                decreases list@.len() - j,
            {
                if list[j] == i {
                    hit = true;
                }
                j = j + 1;
            }
            assert(hit == list@.contains(i));
            if hit {
                new_word.append(letter);
            } else {
                new_word.append(self.word.as_str().substring_ascii(i, i + 1));
            }
            assert(target.take(i + 1) =~= target.take(i as int).push(target[i as int]));
            i = i + 1;
        }
        self.word = new_word;
        assert(target.take(n as int) =~= target);
    }
}

/// Picks which of `n` tied patterns to keep: at random among all of them
/// when there are two or more, else the first.
fn draw_candidate(n: usize) -> (choice: usize)
    ensures
        choice_ok(n as nat, choice as int),
{
    if n > 1 {
        random_below(n)
    } else {
        0
    }
}

impl Hangman {
    /// Whether every candidate word has at least `word_length` bytes.
    fn words_long_enough(&self) -> (ok: bool)
        ensures
            ok == self@.long_enough(),
    {
        let mut k: usize = 0;
        while k < self.word_database.len()
            invariant
                k <= self@.words.len(),
                forall|t: int|
                    0 <= t < k ==> #[trigger] bytes_of(self@.words[t]).len() >= self@.word_length,
            decreases self@.words.len() - k,
        {
            if self.word_database[k].as_str().as_bytes().len() < self.word_length {
                assert(bytes_of(self@.words[k as int]).len() < self@.word_length);
                return false;
            }
            k = k + 1;
        }
        true
    }

    /// Slot `k` counts the candidate words that hold the first byte of
    /// `guess` exactly `k + 1` times among their first `word_length` bytes.
    fn get_multiple_count(&self, guess: &str) -> (multiple: Vec<usize>)
        requires
            self@.long_enough(),
            bytes_of(guess@).len() >= 1,
        ensures
            multiple@ == self@.counts(bytes_of(guess@)[0]),
    {
        let g = guess.as_bytes()[0];
        repeat_histogram_of(&self.word_database, self.word_length, g)
    }

    /// Removes the words with more than `limit` copies of the first byte of
    /// `guess` among their first `word_length` bytes; the others keep their
    /// order.
    pub fn remove_multiples(&mut self, guess: &str, limit: usize)
        requires
            bytes_of(guess@).len() >= 1,
            old(self)@.long_enough(),
        ensures
            final(self)@ == old(self)@.with_words(
                unflagged(
                    old(self)@.words,
                    too_many(bytes_of(guess@)[0], old(self)@.word_length, limit),
                ),
            ),
    {
        proof {
            use_type_invariant(&*self);
        }
        let gc = guess.as_bytes()[0];
        self.word_database = keep_within(&self.word_database, self.word_length, gc, limit);
    }

    /// The distinct patterns of the words for the first byte of `guess`, in
    /// the order they first occur, each with the number of words sharing it.
    fn get_multiple_index_counts(&self, guess: &str) -> (res: (Vec<Vec<usize>>, Vec<i32>))
        requires
            self@.long_enough(),
            bytes_of(guess@).len() >= 1,
            self@.groups_fit(bytes_of(guess@)[0]),
        ensures
            positions_view(res.0@) == self@.groups(bytes_of(guess@)[0]),
            res.1@ == self@.group_counts(bytes_of(guess@)[0]),
    {
        let letter = guess.as_bytes()[0];
        let ghost gs = self@.groups(letter);
        let ghost pats = self@.patterns(letter);
        let (combination_vec, sizes) = group_patterns(&self.word_database, self.word_length, letter);
        let mut combination_count_vec: Vec<i32> = Vec::new();
        let mut i: usize = 0;
        while i < sizes.len()
            invariant
                i <= sizes@.len(),
                sizes@.len() == combination_vec@.len(),
                positions_view(combination_vec@) == gs,
                gs == self@.groups(letter),
                pats == self@.patterns(letter),
                self@.groups_fit(letter),
                forall|t: int|
                    0 <= t < sizes@.len() ==> #[trigger] sizes@[t] == group_size(
                        pats,
                        combination_vec@[t]@,
                    ),
                combination_count_vec@ =~= self@.group_counts(letter).take(i as int),
            decreases sizes@.len() - i,
        {
            assert(gs[i as int] == combination_vec@[i as int]@);
            assert(group_size(pats, gs[i as int]) <= i32::MAX);
            combination_count_vec.push(sizes[i] as i32);
            i = i + 1;
        }
        assert(self@.group_counts(letter).take(sizes@.len() as int) =~= self@.group_counts(letter));
        (combination_vec, combination_count_vec)
    }

    /// Keeps only the words whose pattern for the letter of `guess` is
    /// `pattern`, and writes the letter into the shown word there.
    pub fn keep_pattern(&mut self, pattern: &Vec<usize>, guess: &str)
        requires
            single_byte(guess@),
            old(self)@.long_enough(),
        ensures
            final(self)@ == old(self)@.with_pattern(pattern@, guess@[0]),
            final(self)@.wf(),
    {
        proof {
            use_type_invariant(&*self);
        }
        proof {
            lemma_single_byte(guess@);
        }
        let guess_byte = guess.as_bytes()[0];
        self.word_database = keep_matching(&self.word_database, self.word_length, guess_byte, pattern);
        self.add_letter_to_word(pattern, guess);
    }

    /// Reveals the letter of `guess`. The game settles on the lowest number
    /// of copies a candidate holds, drops the words with more, groups the
    /// rest by the positions of the letter, draws one of the largest groups
    /// at random, keeps its words and shows the letter at its positions.
    /// Returns the number of copies and whether it is above one.
    pub fn categorize_add_guess(&mut self, guess: &str) -> (res: (usize, bool))
        requires
            single_byte(guess@),
            old(self)@.add_guess_safe(guess@[0] as u8),
        ensures
            res.0 == old(self)@.limit(guess@[0] as u8),
            res.1 == (res.0 > 1),
            final(self)@.wf(),
            exists|c: int|
                choice_ok(old(self)@.limited(guess@[0] as u8).largest(guess@[0] as u8).len(), c)
                    && final(self)@ == #[trigger] old(self)@.limited(guess@[0] as u8).with_pattern(
                    old(self)@.drawn_pattern(guess@[0] as u8, c),
                    guess@[0],
                ),
    {
        proof {
            use_type_invariant(&*self);
        }
        proof {
            lemma_single_byte(guess@);
        }
        let ghost g = guess@[0] as u8;
        let ghost start = self@;
        let initial_count = self.word_database.len();
        assert(start.words.len() == initial_count);
        let index_list = self.get_multiple_count(guess);
        let smallest_index = fewest_copies_of(&index_list);
        let plural = smallest_index > 1;
        self.remove_multiples(guess, smallest_index);
        assert(self@ == start.limited(g));
        proof {
            lemma_limited(start, g);
            lemma_largest_nonempty(self@, g);
        }
        let (patterns, count) = self.get_multiple_index_counts(guess);
        let temp_vec = largest_groups(&patterns, &count);
        assert(positions_view(temp_vec@) == start.limited(g).largest(g));
        let choice = draw_candidate(temp_vec.len());
        assert(temp_vec@[choice as int]@ == start.drawn_pattern(g, choice as int));
        self.keep_pattern(&temp_vec[choice], guess);
        (smallest_index, plural)
    }

    /// Whether revealing the letter of `guess` can go through: see
    /// [`HangmanView::add_guess_safe`]. With at most `i32::MAX` words every
    /// group fits, so the groups are only counted for larger lists.
    fn add_guess_ready(&self, guess: &str) -> (ok: bool)
        requires
            single_byte(guess@),
        ensures
            ok == self@.add_guess_safe(guess@[0] as u8),
    {
        proof {
            lemma_single_byte(guess@);
        }
        let ghost g = guess@[0] as u8;
        if !self.words_long_enough() || self.word_database.len() == 0 {
            return false;
        }
        let initial_count = self.word_database.len();
        assert(self@.words.len() == initial_count);
        if initial_count <= 2147483647 {
            proof {
                lemma_limited(self@, g);
                let lim = self@.limited(g);
                assert forall|i: int| 0 <= i < lim.groups(g).len() implies #[trigger] group_size(
                    lim.patterns(g),
                    lim.groups(g)[i],
                ) <= i32::MAX by {
                    lemma_group_size(lim.patterns(g), lim.groups(g)[i]);
                }
            }
            return true;
        }
        let letter = guess.as_bytes()[0];
        let index_list = self.get_multiple_count(guess);
        let smallest_index = fewest_copies_of(&index_list);
        let kept = keep_within(&self.word_database, self.word_length, letter, smallest_index);
        proof {
            lemma_limited(self@, g);
        }
        let ghost lim = self@.limited(g);
        assert(strings_view(kept@) == lim.words);
        let (groups, sizes) = group_patterns(&kept, self.word_length, letter);
        let mut i: usize = 0;
        while i < sizes.len()
            invariant
                i <= sizes@.len(),
                g == guess@[0] as u8,
                guess@.len() == 1,
                lim == self@.limited(g),
                sizes@.len() == groups@.len(),
                positions_view(groups@) == lim.groups(g),
                forall|t: int|
                    0 <= t < sizes@.len() ==> #[trigger] sizes@[t] == group_size(
                        lim.patterns(g),
                        groups@[t]@,
                    ),
                forall|t: int|
                    0 <= t < i ==> #[trigger] group_size(lim.patterns(g), lim.groups(g)[t])
                        <= i32::MAX,
            decreases sizes@.len() - i,
        {
            assert(lim.groups(g)[i as int] == groups@[i as int]@);
            if sizes[i] > 2147483647 {
                assert(group_size(lim.patterns(g), lim.groups(g)[i as int]) > i32::MAX);
                assert(!lim.groups_fit(g));
                return false;
            }
            i = i + 1;
        }
        true
    }
}

/// Removing the over-limit words keeps a word in play, and every word left
/// long enough.
pub proof fn lemma_limited(v: HangmanView, g: u8)
    requires
        v.long_enough(),
        v.words.len() <= usize::MAX,
    ensures
        v.limited(g).long_enough(),
        v.words.len() > 0 ==> v.limited(g).words.len() > 0,
        v.limited(g).words.len() <= v.words.len(),
{
    let f = too_many(g, v.word_length, v.limit(g));
    lemma_unflagged_props(v.words, f);
    let r = v.limited(g).words;
    assert forall|k: int| 0 <= k < r.len() implies #[trigger] bytes_of(r[k]).len() >= v.word_length by {
        assert(r.contains(r[k]));
        let j = choose|j: int| 0 <= j < v.words.len() && v.words[j] == r[k];
        assert(bytes_of(v.words[j]).len() >= v.word_length);
    }
    if v.words.len() > 0 {
        lemma_fewest_copies_word(v, g);
        let k = choose|k: int|
            0 <= k < v.words.len() && copies(v.words[k], g, v.word_length) <= v.limit(g);
        lemma_unflagged_keeps(v.words, f, k);
    }
}

/// Some candidate holds no more copies than the limit.
proof fn lemma_fewest_copies_word(v: HangmanView, g: u8)
    requires
        v.words.len() > 0,
        v.words.len() <= usize::MAX,
    ensures
        exists|k: int| 0 <= k < v.words.len() && copies(v.words[k], g, v.word_length) <= v.limit(g),
{
    crate::laws::law_limit_is_fewest_copies(v, g);
    if v.limit(g) == 0 {
        assert(copies(v.words[0], g, v.word_length) <= v.limit(g));
    }
}

/// With a word in play and group sizes that fit, some pattern is among the
/// largest groups.
pub proof fn lemma_largest_nonempty(v: HangmanView, g: u8)
    requires
        v.words.len() > 0,
        v.groups_fit(g),
    ensures
        v.largest(g).len() > 0,
{
    let pats = v.patterns(g);
    let gs = v.groups(g);
    let cs = v.group_counts(g);
    lemma_distinct(pats);
    assert(pats.contains(pats[0]));
    assert(gs.contains(pats[0]));
    assert(gs.len() > 0);
    lemma_group_size(pats, gs[0]);
    assert(gs.contains(gs[0]));
    assert(group_size(pats, gs[0]) <= i32::MAX);
    assert(cs[0] > 0);
    lemma_max_count(cs);
    assert(cs[0] <= max_count(cs));
    let k = choose|k: int| 0 <= k < cs.len() && #[trigger] cs[k] == max_count(cs);
    lemma_tied_members(gs, cs, max_count(cs));
    assert(tied(gs, cs, max_count(cs)).contains(gs[k]));
}

impl Hangman {
    /// Plays one accepted answer (at most one byte). When every candidate
    /// holds it, the letter is revealed as [`Hangman::categorize_add_guess`]
    /// does; otherwise only the words without it stay and a guess is spent.
    /// In both cases the answer joins the guessed letters.
    ///
    /// `None` reports an answer on which that play cannot go through, and
    /// the state is then unchanged: an empty answer, a spent-guess count
    /// that cannot grow, or a right guess that [`HangmanView::add_guess_safe`]
    /// rules out.
    pub fn take_guess(&mut self, answer: &str) -> (outcome: Option<GuessOutcome>)
        requires
            answer@.len() <= 1,
            is_ascii_chars(answer@),
        ensures
            final(self)@.wf(),
            answer@.len() == 0 ==> outcome is None && final(self)@ == old(self)@,
            answer@.len() == 1 && !old(self)@.hit(answer@) ==> if old(self)@.guesses == i32::MAX {
                outcome is None && final(self)@ == old(self)@
            } else {
                outcome == Some(GuessOutcome::Miss) && final(self)@ == old(self)@.after_miss(answer@)
            },
            answer@.len() == 1 && old(self)@.hit(answer@) && !old(self)@.add_guess_safe(
                answer@[0] as u8,
            ) ==> outcome is None && final(self)@ == old(self)@,
            answer@.len() == 1 && old(self)@.hit(answer@) && old(self)@.add_guess_safe(
                answer@[0] as u8,
            ) ==> outcome == Some(
                GuessOutcome::Hit {
                    copies: old(self)@.limit(answer@[0] as u8),
                    plural: old(self)@.limit(answer@[0] as u8) > 1,
                },
            ) && exists|c: int|
                choice_ok(old(self)@.limited(answer@[0] as u8).largest(answer@[0] as u8).len(), c)
                    && final(self)@ == #[trigger] old(self)@.after_hit(answer@, c),
    {
        proof {
            use_type_invariant(&*self);
        }
        if answer.unicode_len() == 0 {
            return None;
        }
        let (has_guess, list) = self.categorize(answer);
        if has_guess {
            if !self.add_guess_ready(answer) {
                return None;
            }
            let ghost start = self@;
            let (copies, plural) = self.categorize_add_guess(answer);
            let ghost mid = self@;
            self.add_guessed_letter(answer);
            assert(exists|c: int|
                choice_ok(start.limited(answer@[0] as u8).largest(answer@[0] as u8).len(), c)
                    && #[trigger] start.after_hit(answer@, c) == self@) by {
                let c = choose|c: int|
                    choice_ok(start.limited(answer@[0] as u8).largest(answer@[0] as u8).len(), c)
                        && mid == #[trigger] start.limited(answer@[0] as u8).with_pattern(
                        start.drawn_pattern(answer@[0] as u8, c),
                        answer@[0],
                    );
                assert(start.after_hit(answer@, c) == self@);
            }
            Some(GuessOutcome::Hit { copies, plural })
        } else {
            if self.guesses == i32::MAX {
                return None;
            }
            self.remove_guess_words(list);
            self.guesses = self.guesses + 1;
            self.add_guessed_letter(answer);
            Some(GuessOutcome::Miss)
        }
    }
}

/// Whether the (trimmed, lower-cased) answer asks to see how many words are
/// still in play: "1", "t", "yes" or "y".
pub fn wants_database_count(answer: &str) -> (yes: bool)
    ensures
        yes == (answer@ == "1"@ || answer@ == "t"@ || answer@ == "yes"@ || answer@ == "y"@),
{
    same_text(answer, "1") || same_text(answer, "t") || same_text(answer, "yes") || same_text(
        answer,
        "y",
    )
}

} // verus!
