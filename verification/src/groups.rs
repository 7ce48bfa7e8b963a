//! How the words split by a guessed letter: how many copies of it each word
//! holds, which positions it occupies (its pattern), and the groups of words
//! that share a pattern.
use vstd::prelude::*;
use vstd::string::*;

use crate::removal::unflagged;
use crate::words::{bytes_of, letter_count, pattern_of, strings_view, too_many};

verus! {

broadcast use vstd::seq_lib::group_seq_properties;

/// Every word has at least `n` bytes.
pub open spec fn all_long_enough(words: Seq<Seq<char>>, n: usize) -> bool {
    forall|k: int| 0 <= k < words.len() ==> #[trigger] bytes_of(words[k]).len() >= n
}

/// The copies of the byte `g` among the first `n` bytes of `w`.
pub open spec fn copies(w: Seq<char>, g: u8, n: usize) -> nat {
    letter_count(bytes_of(w), g, n as nat)
}

/// How many words hold exactly `c` copies of `g` among their first `n` bytes.
pub open spec fn count_with_copies(words: Seq<Seq<char>>, g: u8, n: usize, c: nat) -> nat
    decreases words.len(),
{
    if words.len() == 0 {
        0
    } else {
        count_with_copies(words.drop_last(), g, n, c) + if copies(words.last(), g, n) == c {
            1nat
        } else {
            0nat
        }
    }
}

/// Slot `k` counts the words holding `g` exactly `k + 1` times among their
/// first `n` bytes.
pub open spec fn repeat_histogram(words: Seq<Seq<char>>, g: u8, n: usize) -> Seq<usize> {
    Seq::new(n as nat, |k: int| count_with_copies(words, g, n, (k + 1) as nat) as usize)
}

/// The number of repeats of the first non-empty slot of a histogram (slot
/// `k` stands for `k + 1` repeats), or 0 when every slot is empty.
pub open spec fn fewest_copies(hist: Seq<usize>) -> usize
    decreases hist.len(),
{
    if hist.len() == 0 {
        0
    } else {
        let earlier = fewest_copies(hist.drop_last());
        if earlier > 0 {
            earlier
        } else if hist.last() > 0 {
            hist.len() as usize
        } else {
            0
        }
    }
}

/// The pattern of each word: the offsets among its first `n` bytes that
/// hold `g`.
pub open spec fn word_patterns(words: Seq<Seq<char>>, g: u8, n: usize) -> Seq<Seq<usize>> {
    words.map_values(|w: Seq<char>| pattern_of(bytes_of(w), g, n as nat))
}

/// The distinct entries of `pats`, in the order of their first occurrence.
pub open spec fn distinct(pats: Seq<Seq<usize>>) -> Seq<Seq<usize>>
    decreases pats.len(),
{
    if pats.len() == 0 {
        Seq::empty()
    } else {
        let earlier = distinct(pats.drop_last());
        if earlier.contains(pats.last()) {
            earlier
        } else {
            earlier.push(pats.last())
        }
    }
}

/// How many entries of `pats` equal `p`.
pub open spec fn group_size(pats: Seq<Seq<usize>>, p: Seq<usize>) -> nat
    decreases pats.len(),
{
    if pats.len() == 0 {
        0
    } else {
        group_size(pats.drop_last(), p) + if pats.last() == p {
            1nat
        } else {
            0nat
        }
    }
}

/// The largest entry of `counts`, or 0 when `counts` is empty or every
/// entry is below 0.
pub open spec fn max_count(counts: Seq<i32>) -> i32
    decreases counts.len(),
{
    if counts.len() == 0 {
        0
    } else {
        let earlier = max_count(counts.drop_last());
        if counts.last() > earlier {
            counts.last()
        } else {
            earlier
        }
    }
}

/// The entries of `pats` whose count is `m`, in order.
pub open spec fn tied(pats: Seq<Seq<usize>>, counts: Seq<i32>, m: i32) -> Seq<Seq<usize>>
    decreases pats.len(),
{
    if pats.len() == 0 || counts.len() == 0 {
        Seq::empty()
    } else {
        let earlier = tied(pats.drop_last(), counts.drop_last(), m);
        if counts.last() == m {
            earlier.push(pats.last())
        } else {
            earlier
        }
    }
}

/// The word's pattern for `g` among its first `n` bytes is not `pat`.
pub open spec fn differs(pat: Seq<usize>, g: u8, n: usize) -> spec_fn(Seq<char>) -> bool {
    |w: Seq<char>| pattern_of(bytes_of(w), g, n as nat) != pat
}

/// The positions held in each vector.
pub open spec fn positions_view(v: Seq<Vec<usize>>) -> Seq<Seq<usize>> {
    v.map_values(|p: Vec<usize>| p@)
}

pub proof fn lemma_count_with_copies(words: Seq<Seq<char>>, g: u8, n: usize, c: nat)
    ensures
        count_with_copies(words, g, n, c) <= words.len(),
        count_with_copies(words, g, n, c) > 0 <==> exists|k: int|
            0 <= k < words.len() && #[trigger] copies(words[k], g, n) == c,
    decreases words.len(),
{
    if words.len() > 0 {
        let d = words.drop_last();
        lemma_count_with_copies(d, g, n, c);
        if exists|k: int| 0 <= k < words.len() && #[trigger] copies(words[k], g, n) == c {
            let k = choose|k: int| 0 <= k < words.len() && #[trigger] copies(words[k], g, n) == c;
            if k < d.len() {
                assert(copies(d[k], g, n) == c);
            }
        }
        if exists|k: int| 0 <= k < d.len() && #[trigger] copies(d[k], g, n) == c {
            let k = choose|k: int| 0 <= k < d.len() && #[trigger] copies(d[k], g, n) == c;
            assert(copies(words[k], g, n) == c);
        }
        if copies(words.last(), g, n) == c {
            assert(copies(words[words.len() - 1], g, n) == c);
        }
    }
}

pub proof fn lemma_distinct(pats: Seq<Seq<usize>>)
    ensures
        distinct(pats).len() <= pats.len(),
        forall|i: int, j: int|
            0 <= i < j < distinct(pats).len() ==> distinct(pats)[i] != distinct(pats)[j],
        forall|p: Seq<usize>| #[trigger] distinct(pats).contains(p) <==> pats.contains(p),
    decreases pats.len(),
{
    if pats.len() > 0 {
        let d = pats.drop_last();
        lemma_distinct(d);
        assert forall|p: Seq<usize>| #[trigger] distinct(pats).contains(p) <==> pats.contains(p) by {
            if pats.contains(p) {
                let k = choose|k: int| 0 <= k < pats.len() && pats[k] == p;
                if k < d.len() {
                    assert(d.contains(p));
                } else {
                    assert(p == pats.last());
                }
            }
            if distinct(pats).contains(p) && p != pats.last() {
                assert(distinct(d).contains(p));
                let k = choose|k: int| 0 <= k < d.len() && d[k] == p;
                assert(pats[k] == p);
            }
            if p == pats.last() {
                assert(pats[pats.len() - 1] == p);
            }
        }
    }
}

pub proof fn lemma_group_size(pats: Seq<Seq<usize>>, p: Seq<usize>)
    ensures
        group_size(pats, p) <= pats.len(),
        group_size(pats, p) > 0 <==> pats.contains(p),
    decreases pats.len(),
{
    if pats.len() > 0 {
        let d = pats.drop_last();
        lemma_group_size(d, p);
        if pats.contains(p) {
            let k = choose|k: int| 0 <= k < pats.len() && pats[k] == p;
            if k < d.len() {
                assert(d.contains(p));
            }
        }
        if d.contains(p) {
            let k = choose|k: int| 0 <= k < d.len() && d[k] == p;
            assert(pats[k] == p);
        }
        if pats.last() == p {
            assert(pats[pats.len() - 1] == p);
        }
    }
}

pub proof fn lemma_max_count(counts: Seq<i32>)
    ensures
        max_count(counts) >= 0,
        forall|k: int| 0 <= k < counts.len() ==> #[trigger] counts[k] <= max_count(counts),
        max_count(counts) > 0 ==> exists|k: int|
            0 <= k < counts.len() && #[trigger] counts[k] == max_count(counts),
    decreases counts.len(),
{
    if counts.len() > 0 {
        let d = counts.drop_last();
        lemma_max_count(d);
        assert forall|k: int| 0 <= k < counts.len() implies #[trigger] counts[k] <= max_count(
            counts,
        ) by {
            if k < d.len() {
                assert(d[k] <= max_count(d));
            }
        }
        if max_count(counts) > 0 {
            if counts.last() > max_count(d) {
                assert(counts[counts.len() - 1] == max_count(counts));
            } else {
                let k = choose|k: int| 0 <= k < d.len() && #[trigger] d[k] == max_count(d);
                assert(counts[k] == max_count(counts));
            }
        }
    }
}

pub proof fn lemma_tied_empty(pats: Seq<Seq<usize>>, counts: Seq<i32>, m: i32)
    requires
        pats.len() == counts.len(),
        forall|k: int| 0 <= k < counts.len() ==> #[trigger] counts[k] < m,
    ensures
        tied(pats, counts, m) == Seq::<Seq<usize>>::empty(),
    decreases pats.len(),
{
    if pats.len() > 0 {
        let dc = counts.drop_last();
        assert forall|k: int| 0 <= k < dc.len() implies #[trigger] dc[k] < m by {
            assert(counts[k] < m);
        }
        assert(counts[counts.len() - 1] < m);
        lemma_tied_empty(pats.drop_last(), dc, m);
    }
}

/// The tied entries are exactly the entries whose count is `m`.
pub proof fn lemma_tied_members(pats: Seq<Seq<usize>>, counts: Seq<i32>, m: i32)
    requires
        pats.len() == counts.len(),
    ensures
        forall|x: Seq<usize>|
            #[trigger] tied(pats, counts, m).contains(x) <==> exists|k: int|
                0 <= k < pats.len() && pats[k] == x && counts[k] == m,
    decreases pats.len(),
{
    if pats.len() > 0 {
        let dp = pats.drop_last();
        let dc = counts.drop_last();
        lemma_tied_members(dp, dc, m);
        let e = tied(dp, dc, m);
        assert forall|x: Seq<usize>|
            #[trigger] tied(pats, counts, m).contains(x) <==> exists|k: int|
                0 <= k < pats.len() && pats[k] == x && counts[k] == m by {
            if exists|k: int| 0 <= k < pats.len() && pats[k] == x && counts[k] == m {
                let k = choose|k: int| 0 <= k < pats.len() && pats[k] == x && counts[k] == m;
                if k < dp.len() {
                    assert(dp[k] == x && dc[k] == m);
                    assert(e.contains(x));
                    let j = choose|j: int| 0 <= j < e.len() && e[j] == x;
                    if counts.last() == m {
                        assert(e.push(pats.last())[j] == x);
                    }
                } else {
                    assert(tied(pats, counts, m) == e.push(pats.last()));
                    assert(e.push(pats.last())[e.len() as int] == x);
                }
            }
            if tied(pats, counts, m).contains(x) {
                if e.contains(x) {
                    let k = choose|k: int| 0 <= k < dp.len() && dp[k] == x && dc[k] == m;
                    assert(pats[k] == x && counts[k] == m);
                } else {
                    let j = choose|j: int|
                        0 <= j < tied(pats, counts, m).len() && tied(pats, counts, m)[j] == x;
                    if counts.last() == m {
                        if j < e.len() {
                            assert(e[j] == x);
                        }
                        assert(pats[pats.len() - 1] == x && counts[counts.len() - 1] == m);
                    } else {
                        assert(e[j] == x);
                    }
                }
            }
        }
    }
}

/// The copies of `g` among the first `n` bytes of `w`.
pub fn letter_copies(w: &[u8], n: usize, g: u8) -> (count: usize)
    requires
        w@.len() >= n,
    ensures
        count == letter_count(w@, g, n as nat),
{
    let mut count: usize = 0;
    let mut i: usize = 0;
    while i < n
        invariant
            i <= n,
            w@.len() >= n,
            count == letter_count(w@, g, i as nat),
        decreases n - i,
    {
        proof {
            crate::words::lemma_letter_count_bound(w@, g, i as nat);
        }
        if g == w[i] {
            count = count + 1;
        }
        i = i + 1;
    }
    count
}

/// The offsets among the first `n` bytes of `w` that hold `g`.
pub fn positions_of(w: &[u8], n: usize, g: u8) -> (pattern: Vec<usize>)
    requires
        w@.len() >= n,
    ensures
        pattern@ == pattern_of(w@, g, n as nat),
{
    let mut pattern: Vec<usize> = Vec::new();
    let mut i: usize = 0;
    while i < n
        invariant
            i <= n,
            w@.len() >= n,
            pattern@ == pattern_of(w@, g, i as nat),
        decreases n - i,
    {
        if w[i] == g {
            pattern.push(i);
        }
        i = i + 1;
    }
    pattern
}

/// Whether two lists of positions are equal.
pub fn same_positions(a: &Vec<usize>, b: &Vec<usize>) -> (same: bool)
    ensures
        same == (a@ == b@),
{
    if a.len() != b.len() {
        return false;
    }
    let mut i: usize = 0;
    while i < a.len()
        invariant
            a@.len() == b@.len(),
            i <= a@.len(),
            forall|t: int| 0 <= t < i ==> a@[t] == b@[t],
        decreases a@.len() - i,
    {
        if a[i] != b[i] {
            return false;
        }
        i = i + 1;
    }
    assert(a@ =~= b@);
    true
}

/// A copy of a list of positions.
pub fn copy_positions(v: &Vec<usize>) -> (copy: Vec<usize>)
    ensures
        copy@ == v@,
{
    let mut copy: Vec<usize> = Vec::new();
    let mut i: usize = 0;
    while i < v.len()
        invariant
            i <= v@.len(),
            copy@ =~= v@.take(i as int),
        decreases v@.len() - i,
    {
        copy.push(v[i]);
        i = i + 1;
    }
    assert(v@.take(v@.len() as int) =~= v@);
    copy
}

/// For each number of repeats `k + 1` below `n + 1`, how many words hold
/// `g` that many times among their first `n` bytes.
pub fn repeat_histogram_of(words: &Vec<String>, n: usize, g: u8) -> (multiple: Vec<usize>)
    requires
        all_long_enough(strings_view(words@), n),
    ensures
        multiple@ == repeat_histogram(strings_view(words@), g, n),
{
    let ghost ws = strings_view(words@);
    let mut multiple: Vec<usize> = Vec::new();
    let mut i: usize = 0;
    while i < n
        invariant
            i <= n,
            multiple@.len() == i,
            forall|t: int| 0 <= t < i ==> multiple@[t] == 0,
        decreases n - i,
    {
        multiple.push(0);
        i = i + 1;
    }
    let total = words.len();
    let mut k: usize = 0;
    while k < total
        invariant
            k <= total,
            total == ws.len(),
            ws == strings_view(words@),
            all_long_enough(ws, n),
            multiple@.len() == n,
            forall|t: int|
                0 <= t < n ==> multiple@[t] == count_with_copies(ws.take(k as int), g, n, (t + 1) as nat),
        decreases total - k,
    {
        let ghost prev = ws.take(k as int);
        let ghost next = ws.take(k + 1);
        assert(next.drop_last() =~= prev);
        assert(next.last() == ws[k as int]);
        assert(bytes_of(ws[k as int]).len() >= n);
        let count = letter_copies(words[k].as_str().as_bytes(), n, g);
        proof {
            crate::words::lemma_letter_count_bound(bytes_of(ws[k as int]), g, n as nat);
        }
        if count >= 1 {
            proof {
                lemma_count_with_copies(prev, g, n, count as nat);
            }
            multiple.set(count - 1, multiple[count - 1] + 1);
        }
        k = k + 1;
    }
    assert(ws.take(total as int) =~= ws);
    assert(multiple@ =~= repeat_histogram(ws, g, n));
    multiple
}

/// The number of repeats of the first non-empty slot of the histogram, or 0.
pub fn fewest_copies_of(list: &Vec<usize>) -> (smallest: usize)
    ensures
        smallest == fewest_copies(list@),
{
    let mut smallest_index: usize = 0;
    let mut smallest_found = false;
    let mut pos: usize = 0;
    while pos < list.len()
        invariant
            pos <= list@.len(),
            smallest_index == fewest_copies(list@.take(pos as int)),
            smallest_found == (smallest_index > 0),
            smallest_index <= pos,
        decreases list@.len() - pos,
    {
        assert(list@.take(pos + 1).drop_last() =~= list@.take(pos as int));
        if !smallest_found && list[pos] > 0 {
            smallest_index = pos + 1;
            smallest_found = true;
        }
        pos = pos + 1;
    }
    assert(list@.take(list@.len() as int) =~= list@);
    smallest_index
}

/// The words with at most `limit` copies of `g` among their first `n`
/// bytes, in order.
pub fn keep_within(words: &Vec<String>, n: usize, g: u8, limit: usize) -> (kept: Vec<String>)
    requires
        all_long_enough(strings_view(words@), n),
    ensures
        strings_view(kept@) == unflagged(strings_view(words@), too_many(g, n, limit)),
{
    let ghost ws = strings_view(words@);
    let ghost f = too_many(g, n, limit);
    let mut kept: Vec<String> = Vec::new();
    let mut k: usize = 0;
    while k < words.len()
        invariant
            k <= ws.len(),
            ws == strings_view(words@),
            f == too_many(g, n, limit),
            all_long_enough(ws, n),
            strings_view(kept@) == unflagged(ws.take(k as int), f),
        decreases ws.len() - k,
    {
        let ghost next = ws.take(k + 1);
        assert(next.drop_last() =~= ws.take(k as int));
        assert(next.last() == ws[k as int]);
        assert(bytes_of(ws[k as int]).len() >= n);
        let count = letter_copies(words[k].as_str().as_bytes(), n, g);
        let ghost before = kept@;
        if count <= limit {
            kept.push(words[k].clone());
            assert(strings_view(kept@) =~= strings_view(before).push(ws[k as int]));
        }
        k = k + 1;
    }
    assert(ws.take(ws.len() as int) =~= ws);
    kept
}

/// The words whose pattern for `g` among their first `n` bytes is `pat`,
/// in order.
pub fn keep_matching(words: &Vec<String>, n: usize, g: u8, pat: &Vec<usize>) -> (kept: Vec<String>)
    requires
        all_long_enough(strings_view(words@), n),
    ensures
        strings_view(kept@) == unflagged(strings_view(words@), differs(pat@, g, n)),
{
    let ghost ws = strings_view(words@);
    let ghost f = differs(pat@, g, n);
    let mut kept: Vec<String> = Vec::new();
    let mut k: usize = 0;
    while k < words.len()
        invariant
            k <= ws.len(),
            ws == strings_view(words@),
            f == differs(pat@, g, n),
            all_long_enough(ws, n),
            strings_view(kept@) == unflagged(ws.take(k as int), f),
        decreases ws.len() - k,
    {
        let ghost next = ws.take(k + 1);
        assert(next.drop_last() =~= ws.take(k as int));
        assert(next.last() == ws[k as int]);
        assert(bytes_of(ws[k as int]).len() >= n);
        let word_pattern = positions_of(words[k].as_str().as_bytes(), n, g);
        let ghost before = kept@;
        if same_positions(&word_pattern, pat) {
            kept.push(words[k].clone());
            assert(strings_view(kept@) =~= strings_view(before).push(ws[k as int]));
        }
        k = k + 1;
    }
    assert(ws.take(ws.len() as int) =~= ws);
    kept
}

/// The distinct patterns of the words for `g` (in the order they first
/// occur), each with the number of words that share it.
pub fn group_patterns(words: &Vec<String>, n: usize, g: u8) -> (res: (Vec<Vec<usize>>, Vec<usize>))
    requires
        all_long_enough(strings_view(words@), n),
    ensures
        positions_view(res.0@) == distinct(word_patterns(strings_view(words@), g, n)),
        res.1@.len() == res.0@.len(),
        forall|i: int|
            0 <= i < res.1@.len() ==> #[trigger] res.1@[i] == group_size(
                word_patterns(strings_view(words@), g, n),
                res.0@[i]@,
            ),
{
    let ghost ws = strings_view(words@);
    let ghost pats = word_patterns(ws, g, n);
    let mut combination_vec: Vec<Vec<usize>> = Vec::new();
    let mut combination_count_vec: Vec<usize> = Vec::new();
    let total = words.len();
    let mut k: usize = 0;
    while k < total
        invariant
            k <= total,
            total == ws.len(),
            ws == strings_view(words@),
            pats == word_patterns(ws, g, n),
            all_long_enough(ws, n),
            positions_view(combination_vec@) == distinct(pats.take(k as int)),
            combination_count_vec@.len() == combination_vec@.len(),
            forall|i: int|
                0 <= i < combination_count_vec@.len() ==> #[trigger] combination_count_vec@[i]
                    == group_size(pats.take(k as int), combination_vec@[i]@),
        decreases total - k,
    {
        let ghost prev = pats.take(k as int);
        let ghost next = pats.take(k + 1);
        assert(next.drop_last() =~= prev);
        assert(bytes_of(ws[k as int]).len() >= n);
        let temp_vec = positions_of(words[k].as_str().as_bytes(), n, g);
        assert(next.last() == temp_vec@);
        proof {
            lemma_distinct(prev);
        }
        let mut found = false;
        let mut at: usize = 0;
        let mut i: usize = 0;
        while i < combination_vec.len()
            invariant
                i <= combination_vec@.len(),
                found ==> at < i && combination_vec@[at as int]@ == temp_vec@,
                !found ==> forall|t: int| 0 <= t < i ==> combination_vec@[t]@ != temp_vec@,
            decreases combination_vec@.len() - i,
        {
            if !found && same_positions(&combination_vec[i], &temp_vec) {
                found = true;
                at = i;
            }
            i = i + 1;
        }
        let ghost dv = positions_view(combination_vec@);
        assert(dv.len() == combination_vec@.len());
        if found {
            assert(dv[at as int] == temp_vec@);
            assert(distinct(next) == distinct(prev));
            proof {
                lemma_group_size(prev, temp_vec@);
                lemma_count_with_copies(ws.take(k as int), g, n, 0);
            }
            assert(combination_count_vec@[at as int] <= k);
            let c = combination_count_vec[at];
            combination_count_vec.set(at, c + 1);
            assert forall|t: int| 0 <= t < combination_count_vec@.len() implies #[trigger] combination_count_vec@[t]
                == group_size(next, combination_vec@[t]@) by {
                if t != at {
                    assert(dv[t] != dv[at as int]);
                }
            }
        } else {
            assert(!dv.contains(temp_vec@)) by {
                if dv.contains(temp_vec@) {
                    let t = choose|t: int| 0 <= t < dv.len() && dv[t] == temp_vec@;
                    assert(combination_vec@[t]@ == temp_vec@);
                }
            }
            proof {
                lemma_group_size(prev, temp_vec@);
            }
            let ghost before = combination_vec@;
            combination_vec.push(temp_vec);
            combination_count_vec.push(1);
            assert(positions_view(combination_vec@) =~= dv.push(next.last()));
            assert forall|t: int| 0 <= t < combination_count_vec@.len() implies #[trigger] combination_count_vec@[t]
                == group_size(next, combination_vec@[t]@) by {
                if t < before.len() {
                    assert(combination_vec@[t] == before[t]);
                    assert(dv[t] != next.last());
                }
            }
        }
        k = k + 1;
    }
    assert(pats.take(total as int) =~= pats);
    (combination_vec, combination_count_vec)
}

/// The patterns whose count is the largest (compared from 0 up), in order.
pub fn largest_groups(patterns: &Vec<Vec<usize>>, count: &Vec<i32>) -> (temp_vec: Vec<Vec<usize>>)
    requires
        count@.len() == patterns@.len(),
    ensures
        positions_view(temp_vec@) == tied(
            positions_view(patterns@),
            count@,
            max_count(count@),
        ),
{
    let ghost pv = positions_view(patterns@);
    let mut biggest_pattern_count: i32 = 0;
    let mut temp_vec: Vec<Vec<usize>> = Vec::new();
    let mut i: usize = 0;
    while i < count.len()
        invariant
            i <= count@.len(),
            count@.len() == patterns@.len(),
            pv == positions_view(patterns@),
            biggest_pattern_count == max_count(count@.take(i as int)),
            positions_view(temp_vec@) == tied(
                pv.take(i as int),
                count@.take(i as int),
                biggest_pattern_count,
            ),
        decreases count@.len() - i,
    {
        let ghost cp = count@.take(i as int);
        let ghost pp = pv.take(i as int);
        assert(count@.take(i + 1).drop_last() =~= cp);
        assert(pv.take(i + 1).drop_last() =~= pp);
        assert(pv.take(i + 1).last() == patterns@[i as int]@);
        let value = count[i];
        let ghost before = temp_vec@;
        if value > biggest_pattern_count {
            proof {
                lemma_max_count(cp);
                assert forall|k: int| 0 <= k < cp.len() implies #[trigger] cp[k] < value by {}
                lemma_tied_empty(pp, cp, value);
            }
            if temp_vec.len() > 0 {
                temp_vec.clear();
            }
            temp_vec.push(copy_positions(&patterns[i]));
            biggest_pattern_count = value;
            assert(positions_view(temp_vec@) =~= tied(pp, cp, value).push(patterns@[i as int]@));
        } else if value == biggest_pattern_count {
            temp_vec.push(copy_positions(&patterns[i]));
            assert(positions_view(temp_vec@) =~= positions_view(before).push(patterns@[i as int]@));
        }
        i = i + 1;
    }
    assert(count@.take(count@.len() as int) =~= count@);
    assert(pv.take(count@.len() as int) =~= pv);
    temp_vec
}

} // verus!
