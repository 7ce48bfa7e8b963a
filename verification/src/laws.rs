use vstd::prelude::*;
use vstd::utf8::*;

use crate::game::{choice_ok, HangmanView};
use crate::groups::{
    copies, count_with_copies, differs, fewest_copies, group_size, lemma_count_with_copies,
    lemma_distinct, lemma_group_size, lemma_max_count, lemma_tied_members, max_count, word_patterns,
};
use crate::removal::{
    lemma_unflagged_monotone, lemma_unflagged_props, lemma_unflagged_sub_multiset,
    lemma_unflagged_twice, unflagged,
};
use crate::words::{
    bytes_contain, bytes_of, fill_pattern, holds_bytes, lemma_bytes_at_least_chars,
    lemma_letter_count_bound, lemma_single_byte, letter_count, occurs_at, other_length, pattern_of,
    single_byte, stars, too_many,
};

verus! {

broadcast use {
    vstd::seq_lib::group_seq_properties,
    vstd::seq_lib::group_to_multiset_ensures,
    vstd::multiset::group_multiset_axioms,
};

proof fn lemma_fewest_copies_slots(hist: Seq<usize>)
    requires
        hist.len() <= usize::MAX,
    ensures
        fewest_copies(hist) == 0 ==> forall|i: int| 0 <= i < hist.len() ==> hist[i] == 0,
        fewest_copies(hist) > 0 ==> {
            &&& fewest_copies(hist) <= hist.len()
            &&& hist[fewest_copies(hist) - 1] > 0
            &&& forall|i: int| 0 <= i < fewest_copies(hist) - 1 ==> hist[i] == 0
        },
    decreases hist.len(),
{
    if hist.len() > 0 {
        let d = hist.drop_last();
        lemma_fewest_copies_slots(d);
        let e = fewest_copies(d);
        if e > 0 {
            assert(hist[e - 1] == d[e - 1]);
            assert forall|i: int| 0 <= i < e - 1 implies hist[i] == 0 by {
                assert(hist[i] == d[i]);
            }
        } else {
            assert forall|i: int| 0 <= i < d.len() implies hist[i] == 0 by {
                assert(hist[i] == d[i]);
            }
        }
    }
}

/// The number of copies the game settles on is the lowest number of copies
/// of the letter that a candidate word holds, among the words that hold it
/// at all: some word holds exactly that many and every word that holds the
/// letter holds at least that many. It is 0 exactly when no word holds the
/// letter among its first `word_length` bytes.
pub proof fn law_limit_is_fewest_copies(v: HangmanView, g: u8)
    requires
        v.words.len() <= usize::MAX,
    ensures
        v.limit(g) > 0 ==> exists|k: int|
            0 <= k < v.words.len() && #[trigger] copies(v.words[k], g, v.word_length) == v.limit(g),
        forall|k: int|
            0 <= k < v.words.len() && copies(v.words[k], g, v.word_length) >= 1 ==> #[trigger] copies(
                v.words[k],
                g,
                v.word_length,
            ) >= v.limit(g),
        v.limit(g) == 0 <==> forall|k: int|
            0 <= k < v.words.len() ==> #[trigger] copies(v.words[k], g, v.word_length) == 0,
{
    let n = v.word_length;
    let hist = v.counts(g);
    lemma_fewest_copies_slots(hist);
    assert forall|i: int| 0 <= i < hist.len() implies #[trigger] hist[i] == count_with_copies(
        v.words,
        g,
        n,
        (i + 1) as nat,
    ) by {
        lemma_count_with_copies(v.words, g, n, (i + 1) as nat);
    }
    let f = v.limit(g);
    if f > 0 {
        lemma_count_with_copies(v.words, g, n, f as nat);
        assert(hist[f - 1] > 0);
    }
    assert forall|k: int|
        0 <= k < v.words.len() && copies(v.words[k], g, n) >= 1 implies #[trigger] copies(
        v.words[k],
        g,
        n,
    ) >= f by {
        let c = copies(v.words[k], g, n);
        lemma_letter_count_bound(bytes_of(v.words[k]), g, n as nat);
        lemma_count_with_copies(v.words, g, n, c);
        assert(hist[c - 1] > 0);
    }
    if forall|k: int| 0 <= k < v.words.len() ==> #[trigger] copies(v.words[k], g, n) == 0 {
        if f > 0 {
            let k = choose|k: int| 0 <= k < v.words.len() && #[trigger] copies(v.words[k], g, n) == f;
            assert(copies(v.words[k], g, n) == 0);
        }
    }
    if f == 0 {
        assert forall|k: int| 0 <= k < v.words.len() implies #[trigger] copies(v.words[k], g, n)
            == 0 by {
            let c = copies(v.words[k], g, n);
            if c >= 1 {
                lemma_letter_count_bound(bytes_of(v.words[k]), g, n as nat);
                lemma_count_with_copies(v.words, g, n, c);
                assert(hist[c - 1] > 0);
            }
        }
    }
}

/// The sum of the entries of `s`.
pub open spec fn seq_sum(s: Seq<usize>) -> nat
    decreases s.len(),
{
    if s.len() == 0 {
        0
    } else {
        seq_sum(s.drop_last()) + s.last() as nat
    }
}

/// The words holding between 1 and `m` copies, counted slot by slot.
spec fn slot_sum(words: Seq<Seq<char>>, g: u8, n: usize, m: nat) -> nat
    decreases m,
{
    if m == 0 {
        0
    } else {
        slot_sum(words, g, n, (m - 1) as nat) + count_with_copies(words, g, n, m)
    }
}

proof fn lemma_slot_sum_step(words: Seq<Seq<char>>, g: u8, n: usize, m: nat)
    requires
        words.len() > 0,
    ensures
        slot_sum(words, g, n, m) == slot_sum(words.drop_last(), g, n, m) + if 1 <= copies(
            words.last(),
            g,
            n,
        ) <= m {
            1nat
        } else {
            0nat
        },
    decreases m,
{
    if m > 0 {
        lemma_slot_sum_step(words, g, n, (m - 1) as nat);
    }
}

proof fn lemma_slot_sum_bound(words: Seq<Seq<char>>, g: u8, n: usize, m: nat)
    ensures
        slot_sum(words, g, n, m) <= words.len(),
    decreases words.len(),
{
    if words.len() > 0 {
        lemma_slot_sum_step(words, g, n, m);
        lemma_slot_sum_bound(words.drop_last(), g, n, m);
    } else {
        lemma_slot_sum_empty(words, g, n, m);
    }
}

proof fn lemma_slot_sum_empty(words: Seq<Seq<char>>, g: u8, n: usize, m: nat)
    requires
        words.len() == 0,
    ensures
        slot_sum(words, g, n, m) == 0,
    decreases m,
{
    if m > 0 {
        lemma_slot_sum_empty(words, g, n, (m - 1) as nat);
    }
}

proof fn lemma_histogram_sum(v: HangmanView, g: u8, m: nat)
    requires
        v.words.len() <= usize::MAX,
        m <= v.word_length,
    ensures
        seq_sum(v.counts(g).take(m as int)) == slot_sum(v.words, g, v.word_length, m),
    decreases m,
{
    if m > 0 {
        lemma_histogram_sum(v, g, (m - 1) as nat);
        assert(v.counts(g).take(m as int).drop_last() =~= v.counts(g).take(m - 1));
        lemma_count_with_copies(v.words, g, v.word_length, m);
    }
}

/// Each candidate word is counted in at most one slot of the histogram of
/// repeats, so its slots add up to at most the number of words.
pub proof fn law_histogram_counts_each_word_once(v: HangmanView, g: u8)
    requires
        v.words.len() <= usize::MAX,
    ensures
        seq_sum(v.counts(g)) <= v.words.len(),
{
    lemma_histogram_sum(v, g, v.word_length as nat);
    assert(v.counts(g).take(v.word_length as int) =~= v.counts(g));
    lemma_slot_sum_bound(v.words, g, v.word_length, v.word_length as nat);
}

/// The words left after the over-limit ones are removed are candidates that
/// hold no more copies than the limit, and every candidate that holds no
/// more stays; they keep their order.
pub proof fn law_limited_keeps_words_within_limit(v: HangmanView, g: u8)
    ensures
        v.limited(g).words == unflagged(v.words, too_many(g, v.word_length, v.limit(g))),
        forall|w: Seq<char>|
            #[trigger] v.limited(g).words.contains(w) ==> v.words.contains(w) && copies(
                w,
                g,
                v.word_length,
            ) <= v.limit(g),
        forall|k: int|
            0 <= k < v.words.len() && copies(v.words[k], g, v.word_length) <= v.limit(g)
                ==> v.limited(g).words.contains(#[trigger] v.words[k]),
{
    let f = too_many(g, v.word_length, v.limit(g));
    lemma_unflagged_props(v.words, f);
    assert forall|k: int|
        0 <= k < v.words.len() && copies(v.words[k], g, v.word_length) <= v.limit(g) implies v.limited(
        g,
    ).words.contains(#[trigger] v.words[k]) by {
        crate::removal::lemma_unflagged_keeps(v.words, f, k);
    }
}

proof fn lemma_pattern_len(w: Seq<u8>, g: u8, n: nat)
    ensures
        pattern_of(w, g, n).len() == letter_count(w, g, n),
    decreases n,
{
    if n > 0 {
        lemma_pattern_len(w, g, (n - 1) as nat);
    }
}

/// A position is in the pattern exactly when it is below `n` and holds `g`.
pub proof fn lemma_pattern_contains(w: Seq<u8>, g: u8, n: nat)
    requires
        n <= usize::MAX,
    ensures
        forall|i: int|
            0 <= i < n ==> (#[trigger] pattern_of(w, g, n).contains(i as usize) <==> w[i] == g),
        forall|p: usize| #[trigger] pattern_of(w, g, n).contains(p) ==> p < n,
    decreases n,
{
    if n > 0 {
        let m = (n - 1) as nat;
        lemma_pattern_contains(w, g, m);
        let e = pattern_of(w, g, m);
        assert forall|i: int| 0 <= i < n implies (#[trigger] pattern_of(w, g, n).contains(i as usize)
            <==> w[i] == g) by {
            if i < m {
                if pattern_of(w, g, n).contains(i as usize) && !e.contains(i as usize) {
                    let j = choose|j: int|
                        0 <= j < pattern_of(w, g, n).len() && pattern_of(w, g, n)[j] == i as usize;
                    if w[m as int] == g {
                        assert(j == e.len());
                    } else {
                        assert(e[j] == i as usize);
                    }
                }
                if e.contains(i as usize) && w[m as int] == g {
                    let j = choose|j: int| 0 <= j < e.len() && e[j] == i as usize;
                    assert(e.push(m as usize)[j] == i as usize);
                }
            } else {
                if w[m as int] == g {
                    assert(e.push(m as usize)[e.len() as int] == m as usize);
                } else {
                    assert(!e.contains(m as usize));
                }
            }
        }
        assert forall|p: usize| #[trigger] pattern_of(w, g, n).contains(p) implies p < n by {
            let j = choose|j: int| 0 <= j < pattern_of(w, g, n).len() && pattern_of(w, g, n)[j] == p;
            if w[m as int] == g && j == e.len() {
            } else {
                assert(e[j] == p);
                assert(e.contains(p));
            }
        }
    }
}

proof fn lemma_word_patterns_push(s: Seq<Seq<char>>, w: Seq<char>, g: u8, n: usize)
    ensures
        word_patterns(s.push(w), g, n) =~= word_patterns(s, g, n).push(
            pattern_of(bytes_of(w), g, n as nat),
        ),
{
}

proof fn lemma_kept_count(s: Seq<Seq<char>>, pat: Seq<usize>, g: u8, n: usize)
    ensures
        unflagged(s, differs(pat, g, n)).len() == group_size(word_patterns(s, g, n), pat),
    decreases s.len(),
{
    if s.len() > 0 {
        let d = s.drop_last();
        lemma_kept_count(d, pat, g, n);
        assert(word_patterns(s, g, n).drop_last() =~= word_patterns(d, g, n));
    }
}

proof fn lemma_group_size_kept(
    s: Seq<Seq<char>>,
    f: spec_fn(Seq<char>) -> bool,
    q: Seq<usize>,
    g: u8,
    n: usize,
)
    requires
        forall|k: int|
            0 <= k < s.len() && pattern_of(bytes_of(s[k]), g, n as nat) == q ==> !f(#[trigger] s[k]),
    ensures
        group_size(word_patterns(unflagged(s, f), g, n), q) == group_size(word_patterns(s, g, n), q),
    decreases s.len(),
{
    if s.len() > 0 {
        let d = s.drop_last();
        assert forall|k: int|
            0 <= k < d.len() && pattern_of(bytes_of(d[k]), g, n as nat) == q implies !f(
            #[trigger] d[k],
        ) by {
            assert(s[k] == d[k]);
        }
        lemma_group_size_kept(d, f, q, g, n);
        assert(word_patterns(s, g, n).drop_last() =~= word_patterns(d, g, n));
        assert(s[s.len() - 1] == s.last());
        if !f(s.last()) {
            lemma_word_patterns_push(unflagged(d, f), s.last(), g, n);
            assert(word_patterns(unflagged(s, f), g, n).drop_last() =~= word_patterns(
                unflagged(d, f),
                g,
                n,
            ));
        }
    }
}

/// After a right guess, the words left all share the drawn pattern and were
/// candidates before; there are as many as the largest group among the
/// words within the limit holds, and no group of patterns with at most the
/// limit's number of positions, among all the words before, is larger.
pub proof fn law_kept_group_is_largest(v: HangmanView, g: u8, letter: char, c: int)
    requires
        letter as u8 == g,
        v.words.len() <= usize::MAX,
        v.add_guess_safe(g),
        choice_ok(v.limited(g).largest(g).len(), c),
    ensures
        ({
            let l = v.limited(g);
            let p = v.drawn_pattern(g, c);
            let kept = l.with_pattern(p, letter).words;
            &&& kept.len() > 0
            &&& kept.len() == group_size(l.patterns(g), p)
            &&& forall|w: Seq<char>|
                #[trigger] kept.contains(w) ==> v.words.contains(w) && pattern_of(
                    bytes_of(w),
                    g,
                    v.word_length as nat,
                ) == p
            &&& forall|q: Seq<usize>| group_size(l.patterns(g), q) <= kept.len()
            &&& forall|q: Seq<usize>|
                q.len() <= v.limit(g) ==> #[trigger] group_size(v.patterns(g), q) <= kept.len()
        }),
{
    let n = v.word_length;
    let l = v.limited(g);
    let pats = l.patterns(g);
    let gs = l.groups(g);
    let cs = l.group_counts(g);
    let m = max_count(cs);
    let p = v.drawn_pattern(g, c);
    let kept = l.with_pattern(p, letter).words;
    law_limited_keeps_words_within_limit(v, g);
    crate::game::lemma_limited(v, g);
    crate::game::lemma_largest_nonempty(l, g);
    lemma_distinct(pats);
    lemma_max_count(cs);
    lemma_tied_members(gs, cs, m);
    assert(l.largest(g).contains(p));
    let k = choose|k: int| 0 <= k < gs.len() && gs[k] == p && cs[k] == m;
    assert(gs.contains(gs[k]));
    assert(group_size(pats, p) <= i32::MAX);
    lemma_group_size(pats, p);
    lemma_kept_count(l.words, p, g, n);
    assert(gs.contains(p));
    assert(pats.contains(p));
    assert(group_size(pats, p) > 0);
    assert forall|q: Seq<usize>| group_size(pats, q) <= kept.len() by {
        lemma_group_size(pats, q);
        if pats.contains(q) {
            assert(gs.contains(q));
            let j = choose|j: int| 0 <= j < gs.len() && gs[j] == q;
            assert(group_size(pats, gs[j]) <= i32::MAX);
            assert(cs[j] <= m);
        }
    }
    lemma_unflagged_props(l.words, differs(p, g, n));
    assert forall|w: Seq<char>| #[trigger] kept.contains(w) implies v.words.contains(w)
        && pattern_of(bytes_of(w), g, n as nat) == p by {
        assert(l.words.contains(w));
    }
    assert forall|q: Seq<usize>| q.len() <= v.limit(g) implies #[trigger] group_size(
        v.patterns(g),
        q,
    ) <= kept.len() by {
        let f = too_many(g, n, v.limit(g));
        assert forall|j: int|
            0 <= j < v.words.len() && pattern_of(bytes_of(v.words[j]), g, n as nat) == q implies !f(
            #[trigger] v.words[j],
        ) by {
            lemma_pattern_len(bytes_of(v.words[j]), g, n as nat);
        }
        lemma_group_size_kept(v.words, f, q, g, n);
        assert(group_size(pats, q) <= kept.len());
    }
}

/// A guess only narrows the candidates (counted with their repeats) and
/// spends one guess when wrong, none when right; the guess is recorded.
pub proof fn law_guess_narrows(v: HangmanView, answer: Seq<char>, c: int)
    requires
        v.guesses < i32::MAX,
    ensures
        v.after_miss(answer).words.to_multiset().subset_of(v.words.to_multiset()),
        v.after_miss(answer).guesses_left() == v.guesses_left() - 1,
        v.after_miss(answer).guessed == v.guessed.push(answer),
        v.after_miss(answer).word == v.word,
        v.after_hit(answer, c).words.to_multiset().subset_of(v.words.to_multiset()),
        v.after_hit(answer, c).guesses_left() == v.guesses_left(),
        v.after_hit(answer, c).guessed == v.guessed.push(answer),
{
    let g = answer[0] as u8;
    let l = v.limited(g);
    lemma_unflagged_sub_multiset(v.words, holds_bytes(bytes_of(answer)));
    lemma_unflagged_sub_multiset(v.words, too_many(g, v.word_length, v.limit(g)));
    lemma_unflagged_sub_multiset(l.words, differs(v.drawn_pattern(g, c), g, v.word_length));
    let a = v.after_hit(answer, c).words.to_multiset();
    let b = l.words.to_multiset();
    let s = v.words.to_multiset();
    assert forall|x: Seq<char>| a.count(x) <= s.count(x) by {
        assert(a.count(x) <= b.count(x));
        assert(b.count(x) <= s.count(x));
    }
}

/// The candidates fit what the player has seen: the shown word has one
/// character per offset, every word shows each revealed letter where it is
/// revealed, and wherever a word holds a guessed single-byte letter among
/// its first `word_length` bytes, the shown word reveals it there.
pub open spec fn consistent(v: HangmanView) -> bool {
    &&& v.word.len() == v.word_length
    &&& v.long_enough()
    &&& v.wf()
    &&& forall|k: int, i: int|
        0 <= k < v.words.len() && 0 <= i < v.word_length && v.word[i] != '*' ==> bytes_of(
            #[trigger] v.words[k],
        )[i] == #[trigger] v.word[i] as u8
    &&& forall|k: int, j: int, i: int|
        0 <= k < v.words.len() && 0 <= j < v.guessed.len() && single_byte(#[trigger] v.guessed[j])
            && 0 <= i < v.word_length && #[trigger] bytes_of(#[trigger] v.words[k])[i]
            == v.guessed[j][0] as u8 ==> v.word[i] == v.guessed[j][0]
}

/// A fresh game, all stars and nothing guessed, is consistent.
pub proof fn law_fresh_game_consistent(v: HangmanView)
    requires
        v.word == stars(v.word_length as nat),
        v.guessed.len() == 0,
        v.long_enough(),
    ensures
        consistent(v),
{
}

/// Every guess keeps the candidates consistent with what the player has
/// seen.
pub proof fn law_guess_keeps_consistent(v: HangmanView, answer: Seq<char>, c: int)
    requires
        consistent(v),
        single_byte(answer),
        v.words.len() <= usize::MAX,
    ensures
        !v.hit(answer) ==> consistent(v.after_miss(answer)),
        v.hit(answer) && v.add_guess_safe(answer[0] as u8) && choice_ok(
            v.limited(answer[0] as u8).largest(answer[0] as u8).len(),
            c,
        ) ==> consistent(v.after_hit(answer, c)),
{
    lemma_single_byte(answer);
    let a = answer[0];
    let g = a as u8;
    let n = v.word_length;
    if !v.hit(answer) {
        let w2 = v.after_miss(answer);
        lemma_unflagged_props(v.words, holds_bytes(bytes_of(answer)));
        assert forall|k: int| 0 <= k < w2.words.len() implies #[trigger] bytes_of(w2.words[k]).len()
            >= n by {
            assert(w2.words.contains(w2.words[k]));
        }
        assert forall|k: int, j: int, i: int|
            0 <= k < w2.words.len() && 0 <= j < w2.guessed.len() && single_byte(
                #[trigger] w2.guessed[j],
            ) && 0 <= i < n && #[trigger] bytes_of(#[trigger] w2.words[k])[i] == w2.guessed[j][0] as u8
            implies w2.word[i] == w2.guessed[j][0] by {
            assert(w2.words.contains(w2.words[k]));
            let k0 = choose|k0: int| 0 <= k0 < v.words.len() && v.words[k0] == w2.words[k];
            if j == v.guessed.len() {
                let hay = bytes_of(w2.words[k]);
                assert(hay.subrange(i, i + 1) =~= bytes_of(answer));
                assert(occurs_at(hay, bytes_of(answer), i));
                assert(bytes_contain(hay, bytes_of(answer)));
            } else {
                assert(v.guessed[j] == w2.guessed[j]);
                assert(bytes_of(v.words[k0])[i] == v.guessed[j][0] as u8);
            }
        }
        assert forall|k: int, i: int|
            0 <= k < w2.words.len() && 0 <= i < n && w2.word[i] != '*' implies bytes_of(
            #[trigger] w2.words[k],
        )[i] == #[trigger] w2.word[i] as u8 by {
            assert(w2.words.contains(w2.words[k]));
            let k0 = choose|k0: int| 0 <= k0 < v.words.len() && v.words[k0] == w2.words[k];
            assert(bytes_of(v.words[k0])[i] == v.word[i] as u8);
        }
    }
    if v.hit(answer) && v.add_guess_safe(g) && choice_ok(v.limited(g).largest(g).len(), c) {
        let l = v.limited(g);
        let p = v.drawn_pattern(g, c);
        let w2 = v.after_hit(answer, c);
        law_kept_group_is_largest(v, g, a, c);
        law_limited_keeps_words_within_limit(v, g);
        assert forall|x: Seq<char>| #[trigger] w2.words.contains(x) implies v.words.contains(x)
            && pattern_of(bytes_of(x), g, n as nat) == p by {}
        assert forall|k: int| 0 <= k < w2.words.len() implies #[trigger] bytes_of(w2.words[k]).len()
            >= n by {
            assert(w2.words.contains(w2.words[k]));
        }
        assert(w2.word == fill_pattern(v.word, p, a));
        assert forall|i: int| 0 <= i < n implies #[trigger] w2.word[i] == (if p.contains(
            i as usize,
        ) {
            a
        } else {
            v.word[i]
        }) by {}
        assert forall|k: int, i: int|
            0 <= k < w2.words.len() && 0 <= i < n && w2.word[i] != '*' implies bytes_of(
            #[trigger] w2.words[k],
        )[i] == #[trigger] w2.word[i] as u8 by {
            let x = w2.words[k];
            assert(w2.words.contains(x));
            lemma_pattern_contains(bytes_of(x), g, n as nat);
            let k0 = choose|k0: int| 0 <= k0 < v.words.len() && v.words[k0] == x;
            if !p.contains(i as usize) {
                assert(bytes_of(v.words[k0])[i] == v.word[i] as u8);
            }
        }
        assert forall|k: int, j: int, i: int|
            0 <= k < w2.words.len() && 0 <= j < w2.guessed.len() && single_byte(
                #[trigger] w2.guessed[j],
            ) && 0 <= i < n && #[trigger] bytes_of(#[trigger] w2.words[k])[i] == w2.guessed[j][0] as u8
            implies w2.word[i] == w2.guessed[j][0] by {
            let x = w2.words[k];
            assert(w2.words.contains(x));
            lemma_pattern_contains(bytes_of(x), g, n as nat);
            let k0 = choose|k0: int| 0 <= k0 < v.words.len() && v.words[k0] == x;
            let l0 = w2.guessed[j][0];
            lemma_single_byte(w2.guessed[j]);
            if l0 == a {
                assert(p.contains(i as usize));
            } else {
                assert(j < v.guessed.len());
                assert(v.guessed[j] == w2.guessed[j]);
                assert((l0 as u32) < 128 && (a as u32) < 128);
                assert(l0 as u8 != g);
                assert(bytes_of(v.words[k0])[i] == v.guessed[j][0] as u8);
                assert(!p.contains(i as usize));
            }
        }
        assert(is_ascii_chars(w2.word)) by {
            crate::laws::law_fill_keeps_shape(v.word, p, a);
            assert(is_ascii_chars(seq![a]));
        }
    }
}

/// Writing the same letter at the same positions a second time changes
/// nothing.
pub proof fn law_fill_twice_is_fill_once(word: Seq<char>, pat: Seq<usize>, c: char)
    ensures
        fill_pattern(fill_pattern(word, pat, c), pat, c) == fill_pattern(word, pat, c),
{
    assert(fill_pattern(fill_pattern(word, pat, c), pat, c) =~= fill_pattern(word, pat, c));
}

/// Removing the words over a limit a second time changes nothing.
pub proof fn law_remove_over_limit_twice_is_once(words: Seq<Seq<char>>, g: u8, n: usize, limit: usize)
    ensures
        unflagged(unflagged(words, too_many(g, n, limit)), too_many(g, n, limit)) == unflagged(
            words,
            too_many(g, n, limit),
        ),
{
    lemma_unflagged_twice(words, too_many(g, n, limit));
}

/// A lower limit keeps, counted with their repeats, only words that a
/// higher limit keeps too.
pub proof fn law_lower_limit_keeps_fewer(
    words: Seq<Seq<char>>,
    g: u8,
    n: usize,
    low: usize,
    high: usize,
)
    requires
        low <= high,
    ensures
        unflagged(words, too_many(g, n, low)).to_multiset().subset_of(
            unflagged(words, too_many(g, n, high)).to_multiset(),
        ),
{
    lemma_unflagged_monotone(words, too_many(g, n, low), too_many(g, n, high));
}

/// The whole-game invariant: the candidates fit what the player has seen,
/// and some word is still in play.
pub open spec fn game_invariant(v: HangmanView) -> bool {
    consistent(v) && v.words.len() > 0
}

/// Where the shown word still hides a letter, no word in play holds a
/// guessed letter other than `*` there.
pub proof fn law_hidden_positions_hold_no_guessed_letter(v: HangmanView)
    requires
        consistent(v),
    ensures
        forall|k: int, j: int, i: int|
            0 <= k < v.words.len() && 0 <= j < v.guessed.len() && single_byte(#[trigger] v.guessed[j])
                && v.guessed[j][0] != '*' && 0 <= i < v.word_length && #[trigger] v.word[i] == '*'
                ==> bytes_of(#[trigger] v.words[k])[i] != v.guessed[j][0] as u8,
{
}

/// Every guess that the game plays keeps the whole-game invariant: the
/// words left fit the shown word and the guessed letters, and one is left.
pub proof fn law_guess_keeps_game_invariant(v: HangmanView, answer: Seq<char>, c: int)
    requires
        game_invariant(v),
        single_byte(answer),
        v.words.len() <= usize::MAX,
    ensures
        !v.hit(answer) ==> game_invariant(v.after_miss(answer)),
        v.hit(answer) && v.add_guess_safe(answer[0] as u8) && choice_ok(
            v.limited(answer[0] as u8).largest(answer[0] as u8).len(),
            c,
        ) ==> game_invariant(v.after_hit(answer, c)),
{
    law_guess_keeps_consistent(v, answer, c);
    let g = answer[0] as u8;
    if !v.hit(answer) {
        let k = choose|k: int|
            0 <= k < v.words.len() && !#[trigger] holds_bytes(bytes_of(answer))(v.words[k]);
        crate::removal::lemma_unflagged_keeps(v.words, holds_bytes(bytes_of(answer)), k);
    }
    if v.hit(answer) && v.add_guess_safe(g) && choice_ok(v.limited(g).largest(g).len(), c) {
        law_kept_group_is_largest(v, g, answer[0], c);
    }
}

/// Writing a letter into the shown word keeps its length and every
/// position outside the pattern, and keeps it ASCII when the letter is.
pub proof fn law_fill_keeps_shape(word: Seq<char>, pat: Seq<usize>, c: char)
    ensures
        fill_pattern(word, pat, c).len() == word.len(),
        forall|i: int|
            0 <= i < word.len() && !pat.contains(i as usize) ==> #[trigger] fill_pattern(
                word,
                pat,
                c,
            )[i] == word[i],
        is_ascii_chars(word) && is_ascii_chars(seq![c]) ==> is_ascii_chars(
            fill_pattern(word, pat, c),
        ),
{
    if is_ascii_chars(word) && is_ascii_chars(seq![c]) {
        assert(seq![c][0] == c);
    }
}

/// A shown word without stars keeps none when a letter other than `*` is
/// written into it.
pub proof fn law_filled_stays_filled(word: Seq<char>, pat: Seq<usize>, c: char)
    requires
        !word.contains('*'),
        c != '*',
    ensures
        !fill_pattern(word, pat, c).contains('*'),
{
    let f = fill_pattern(word, pat, c);
    assert forall|i: int| 0 <= i < f.len() implies f[i] != '*' by {
        if !pat.contains(i as usize) {
            assert(word[i] == f[i]);
        }
    }
}

/// A fresh shown word is all stars: it counts as filled only when it is
/// empty.
pub proof fn law_fresh_word_filled_only_when_empty(n: nat)
    ensures
        !stars(n).contains('*') <==> n == 0,
{
    if n > 0 {
        assert(stars(n)[0] == '*');
    }
}

/// A database built from the dictionary for the current length holds only
/// words of that length, and every one of them can be read at every offset
/// below it.
pub proof fn law_built_database_is_long_enough(v: HangmanView, lines: Seq<Seq<char>>)
    requires
        v.words.len() == 0,
    ensures
        v.with_words(unflagged(lines, other_length(v.word_length))).long_enough(),
        forall|w: Seq<char>|
            #[trigger] unflagged(lines, other_length(v.word_length)).contains(w) ==> w.len()
                == v.word_length,
{
    let kept = unflagged(lines, other_length(v.word_length));
    lemma_unflagged_props(lines, other_length(v.word_length));
    assert forall|k: int| 0 <= k < kept.len() implies #[trigger] bytes_of(kept[k]).len()
        >= v.word_length by {
        assert(kept.contains(kept[k]));
        lemma_bytes_at_least_chars(kept[k]);
    }
}

} // verus!
