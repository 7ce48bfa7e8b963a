//! What the game's building blocks mean, stated in plain terms (bytes,
//! positions, membership and counts) so that each definition is tied to its
//! purpose.
use vstd::prelude::*;

use crate::game::{choice_ok, HangmanView};
use crate::groups::{copies, count_with_copies, group_size};
use crate::laws::lemma_pattern_contains;
use crate::removal::{lemma_unflagged_keeps, lemma_unflagged_props, unflagged};
use crate::words::{
    bytes_contain, bytes_of, fill_pattern, holds_bytes, lemma_single_byte, letter_count, occurs_at,
    other_length, pattern_of, single_byte, stars,
};

verus! {

broadcast use vstd::seq_lib::group_seq_properties;

/// Keeping the unflagged elements keeps exactly the elements of `s` that
/// are not flagged.
pub proof fn law_unflagged_keeps_exactly<A>(s: Seq<A>, flag: spec_fn(A) -> bool)
    ensures
        forall|x: A| #[trigger] unflagged(s, flag).contains(x) <==> s.contains(x) && !flag(x),
{
    lemma_unflagged_props(s, flag);
    assert forall|x: A| s.contains(x) && !flag(x) implies #[trigger] unflagged(s, flag).contains(
        x,
    ) by {
        let k = choose|k: int| 0 <= k < s.len() && s[k] == x;
        lemma_unflagged_keeps(s, flag, k);
    }
}

/// A byte string holds a pattern exactly when the pattern's bytes appear one
/// after another from some offset of it.
pub proof fn law_contains_is_a_run_of_bytes(hay: Seq<u8>, pat: Seq<u8>)
    ensures
        bytes_contain(hay, pat) <==> exists|i: int|
            0 <= i && pat.len() <= hay.len() - i && #[trigger] hay.skip(i).take(pat.len() as int)
                == pat,
{
    if bytes_contain(hay, pat) {
        let i = choose|i: int| #[trigger] occurs_at(hay, pat, i);
        assert(hay.subrange(i, i + pat.len()) =~= hay.skip(i).take(pat.len() as int));
    }
    if exists|i: int|
        0 <= i && pat.len() <= hay.len() - i && #[trigger] hay.skip(i).take(pat.len() as int)
            == pat {
        let i = choose|i: int|
            0 <= i && pat.len() <= hay.len() - i && #[trigger] hay.skip(i).take(pat.len() as int)
                == pat;
        assert(hay.subrange(i, i + pat.len()) =~= hay.skip(i).take(pat.len() as int));
        assert(occurs_at(hay, pat, i));
    }
}

/// A byte string holds a single byte exactly when some offset holds it.
pub proof fn law_holds_one_byte(hay: Seq<u8>, b: u8)
    ensures
        bytes_contain(hay, seq![b]) <==> exists|i: int| 0 <= i < hay.len() && #[trigger] hay[i] == b,
{
    if bytes_contain(hay, seq![b]) {
        let i = choose|i: int| #[trigger] occurs_at(hay, seq![b], i);
        assert(hay.subrange(i, i + 1)[0] == hay[i]);
    }
    if exists|i: int| 0 <= i < hay.len() && #[trigger] hay[i] == b {
        let i = choose|i: int| 0 <= i < hay.len() && #[trigger] hay[i] == b;
        assert(hay.subrange(i, i + 1) =~= seq![b]);
        assert(occurs_at(hay, seq![b], i));
    }
}

/// Some byte of the word is `g`.
pub open spec fn has_byte(w: Seq<char>, g: u8) -> bool {
    exists|i: int| 0 <= i < bytes_of(w).len() && #[trigger] bytes_of(w)[i] == g
}

/// A one-letter guess is right exactly when every candidate word holds the
/// letter somewhere; after a wrong one, the words left are exactly the
/// candidates that hold it nowhere.
pub proof fn law_hit_means_every_word_holds_the_letter(v: HangmanView, answer: Seq<char>)
    requires
        single_byte(answer),
    ensures
        v.hit(answer) <==> forall|k: int|
            0 <= k < v.words.len() ==> #[trigger] has_byte(v.words[k], answer[0] as u8),
        forall|x: Seq<char>|
            #[trigger] v.words_without(answer).contains(x) <==> v.words.contains(x) && !has_byte(
                x,
                answer[0] as u8,
            ),
{
    lemma_single_byte(answer);
    let g = answer[0] as u8;
    assert(bytes_of(answer) =~= seq![g]);
    assert forall|w: Seq<char>| #[trigger] holds_bytes(bytes_of(answer))(w) <==> has_byte(w, g) by {
        law_holds_one_byte(bytes_of(w), g);
    }
    law_unflagged_keeps_exactly(v.words, holds_bytes(bytes_of(answer)));
    if v.hit(answer) {
        assert forall|k: int| 0 <= k < v.words.len() implies #[trigger] has_byte(v.words[k], g) by {
            assert(holds_bytes(bytes_of(answer))(v.words[k]));
        }
    }
    if forall|k: int| 0 <= k < v.words.len() ==> #[trigger] has_byte(v.words[k], g) {
        assert forall|k: int| 0 <= k < v.words.len() implies #[trigger] holds_bytes(
            bytes_of(answer),
        )(v.words[k]) by {
            assert(has_byte(v.words[k], g));
        }
    }
}

/// Building the word list keeps exactly the dictionary lines with
/// `n` characters.
pub proof fn law_word_list_keeps_the_lines_of_the_length(lines: Seq<Seq<char>>, n: usize)
    ensures
        forall|x: Seq<char>|
            #[trigger] unflagged(lines, other_length(n)).contains(x) <==> lines.contains(x)
                && x.len() == n,
{
    law_unflagged_keeps_exactly(lines, other_length(n));
}

/// A right guess on a game in play can always be revealed: with every word
/// long enough, some word in play and at most `i32::MAX` of them,
/// [`HangmanView::add_guess_safe`] holds.
pub proof fn law_right_guess_can_be_played(v: HangmanView, g: u8)
    requires
        v.long_enough(),
        0 < v.words.len() <= i32::MAX,
    ensures
        v.add_guess_safe(g),
{
    crate::game::lemma_limited(v, g);
    let lim = v.limited(g);
    assert forall|i: int| 0 <= i < lim.groups(g).len() implies #[trigger] group_size(
        lim.patterns(g),
        lim.groups(g)[i],
    ) <= i32::MAX by {
        crate::groups::lemma_group_size(lim.patterns(g), lim.groups(g)[i]);
    }
}

/// A letter's pattern lists each position that holds it, below `n`, once
/// and in increasing order, and nothing else; the number of copies of the
/// letter is the number of those positions.
pub proof fn law_pattern_lists_each_position_once(w: Seq<u8>, g: u8, n: nat)
    requires
        n <= usize::MAX,
    ensures
        forall|a: int, b: int|
            0 <= a < b < pattern_of(w, g, n).len() ==> pattern_of(w, g, n)[a] < pattern_of(
                w,
                g,
                n,
            )[b],
        forall|i: int|
            0 <= i < n ==> (#[trigger] pattern_of(w, g, n).contains(i as usize) <==> w[i] == g),
        forall|p: usize| #[trigger] pattern_of(w, g, n).contains(p) ==> p < n,
        pattern_of(w, g, n).len() == letter_count(w, g, n),
    decreases n,
{
    lemma_pattern_contains(w, g, n);
    if n > 0 {
        let m = (n - 1) as nat;
        law_pattern_lists_each_position_once(w, g, m);
        let e = pattern_of(w, g, m);
        let p = pattern_of(w, g, n);
        if w[m as int] == g {
            assert forall|a: int, b: int| 0 <= a < b < p.len() implies p[a] < p[b] by {
                if b == e.len() {
                    assert(e.contains(e[a]));
                }
            }
        }
    }
}

/// The copies of a letter in a word are the positions of its pattern.
pub proof fn law_copies_are_pattern_positions(w: Seq<char>, g: u8, n: usize)
    ensures
        copies(w, g, n) == pattern_of(bytes_of(w), g, n as nat).len(),
{
    law_pattern_lists_each_position_once(bytes_of(w), g, n as nat);
}

/// Slot `c - 1` of the histogram counts exactly the words with `c` copies.
pub proof fn law_histogram_counts_words_with_that_many_copies(
    words: Seq<Seq<char>>,
    g: u8,
    n: usize,
    c: nat,
)
    ensures
        count_with_copies(words, g, n, c) == words.filter(|w: Seq<char>| copies(w, g, n) == c).len(),
    decreases words.len(),
{
    reveal_with_fuel(Seq::filter, 1);
    if words.len() > 0 {
        law_histogram_counts_words_with_that_many_copies(words.drop_last(), g, n, c);
    }
}

/// A group's size is the number of patterns equal to it.
pub proof fn law_group_size_counts_equal_patterns(pats: Seq<Seq<usize>>, p: Seq<usize>)
    ensures
        group_size(pats, p) == pats.filter(|q: Seq<usize>| q == p).len(),
    decreases pats.len(),
{
    reveal_with_fuel(Seq::filter, 1);
    if pats.len() > 0 {
        law_group_size_counts_equal_patterns(pats.drop_last(), p);
    }
}

/// The guesses left are the guesses allowed minus those spent; setting the
/// allowance to `k` leaves `k` minus those spent.
pub proof fn law_guesses_left_is_allowed_minus_spent(v: HangmanView, k: i32)
    ensures
        v.guesses_left() == v.initial_guesses - v.guesses,
        (HangmanView { initial_guesses: k, ..v }).guesses_left() == k - v.guesses,
{
}

/// A fresh shown word has `n` characters, all stars.
pub proof fn law_stars_are_all_stars(n: nat)
    ensures
        stars(n).len() == n,
        forall|i: int| 0 <= i < n ==> #[trigger] stars(n)[i] == '*',
{
}

/// Revealing a letter writes it exactly at the listed positions and leaves
/// every other position as it was.
pub proof fn law_fill_writes_exactly_the_listed_positions(word: Seq<char>, pat: Seq<usize>, c: char)
    requires
        word.len() <= usize::MAX,
    ensures
        fill_pattern(word, pat, c).len() == word.len(),
        forall|i: int, j: int|
            0 <= i < word.len() && 0 <= j < pat.len() && #[trigger] pat[j] == i ==> #[trigger] fill_pattern(
                word,
                pat,
                c,
            )[i] == c,
        forall|i: int|
            0 <= i < word.len() && (forall|j: int| 0 <= j < pat.len() ==> #[trigger] pat[j] != i)
                ==> #[trigger] fill_pattern(word, pat, c)[i] == word[i],
{
    let f = fill_pattern(word, pat, c);
    assert forall|i: int, j: int|
        0 <= i < word.len() && 0 <= j < pat.len() && #[trigger] pat[j] == i implies #[trigger] f[i]
        == c by {
        assert(pat.contains(i as usize));
    }
    assert forall|i: int|
        0 <= i < word.len() && (forall|j: int| 0 <= j < pat.len() ==> #[trigger] pat[j] != i)
            implies #[trigger] f[i] == word[i] by {
        if pat.contains(i as usize) {
            let j = choose|j: int| 0 <= j < pat.len() && pat[j] == i as usize;
            assert(pat[j] != i);
        }
    }
}

/// The draw may pick any tied group when there are two or more, and only
/// the first otherwise.
pub proof fn law_any_tied_group_can_be_drawn(len: nat, c: int)
    ensures
        len > 1 && 0 <= c < len ==> choice_ok(len, c),
        len <= 1 ==> (choice_ok(len, c) <==> c == 0),
        choice_ok(len, c) && len > 0 ==> 0 <= c < len,
{
}

/// After a right guess the words kept are exactly the words (within the
/// limit) whose pattern for the letter is the drawn one.
pub proof fn law_kept_words_are_the_drawn_group(v: HangmanView, p: Seq<usize>, letter: char)
    ensures
        forall|x: Seq<char>|
            #[trigger] v.with_pattern(p, letter).words.contains(x) <==> v.words.contains(x)
                && pattern_of(bytes_of(x), letter as u8, v.word_length as nat) == p,
{
    law_unflagged_keeps_exactly(v.words, crate::groups::differs(p, letter as u8, v.word_length));
}

/// The words left after the over-limit ones are removed are exactly the
/// candidates with at most that many copies.
pub proof fn law_limited_words_are_exactly_those_within(v: HangmanView, g: u8)
    ensures
        forall|x: Seq<char>|
            #[trigger] v.limited(g).words.contains(x) <==> v.words.contains(x) && copies(
                x,
                g,
                v.word_length,
            ) <= v.limit(g),
{
    law_unflagged_keeps_exactly(v.words, crate::words::too_many(g, v.word_length, v.limit(g)));
}

/// Slot `k` of a game's histogram counts exactly the candidate words that
/// hold the letter `k + 1` times among their first `word_length` bytes.
pub proof fn law_counts_slot_is_words_with_that_many_copies(v: HangmanView, g: u8, k: int)
    requires
        v.words.len() <= usize::MAX,
        0 <= k < v.word_length,
    ensures
        v.counts(g).len() == v.word_length,
        v.counts(g)[k] == v.words.filter(
            |w: Seq<char>| copies(w, g, v.word_length) == (k + 1) as nat,
        ).len(),
{
    crate::groups::lemma_count_with_copies(v.words, g, v.word_length, (k + 1) as nat);
    law_histogram_counts_words_with_that_many_copies(v.words, g, v.word_length, (k + 1) as nat);
}

/// Every candidate word is long enough exactly when each has at least
/// `word_length` bytes.
pub proof fn law_long_enough_means_every_word_has_the_bytes(v: HangmanView)
    ensures
        v.long_enough() <==> forall|k: int|
            0 <= k < v.words.len() ==> #[trigger] bytes_of(v.words[k]).len() >= v.word_length,
{
}

} // verus!
