use vstd::prelude::*;
use vstd::string::*;
use vstd::utf8::*;

verus! {

broadcast use vstd::seq_lib::group_seq_properties;

/// The characters of each string.
pub open spec fn strings_view(v: Seq<String>) -> Seq<Seq<char>> {
    v.map_values(|s: String| s@)
}

/// The UTF-8 bytes of a word given by its characters.
pub open spec fn bytes_of(w: Seq<char>) -> Seq<u8> {
    encode_utf8(w)
}

/// `pat` occurs in `hay` at byte offset `i`.
pub open spec fn occurs_at(hay: Seq<u8>, pat: Seq<u8>, i: int) -> bool {
    0 <= i && i + pat.len() <= hay.len() && hay.subrange(i, i + pat.len()) == pat
}

/// `pat` occurs somewhere in `hay` as a run of bytes (what `str::contains`
/// tests for a string pattern).
pub open spec fn bytes_contain(hay: Seq<u8>, pat: Seq<u8>) -> bool {
    exists|i: int| #[trigger] occurs_at(hay, pat, i)
}

/// The word holds the bytes `pat` somewhere.
pub open spec fn holds_bytes(pat: Seq<u8>) -> spec_fn(Seq<char>) -> bool {
    |w: Seq<char>| bytes_contain(bytes_of(w), pat)
}

/// The word has a number of characters other than `n`.
pub open spec fn other_length(n: usize) -> spec_fn(Seq<char>) -> bool {
    |w: Seq<char>| w.len() != n
}

/// A guess of exactly one byte: a single ASCII character.
pub open spec fn single_byte(s: Seq<char>) -> bool {
    s.len() == 1 && is_ascii_chars(s)
}

/// How many of the first `n` bytes of `w` equal `g`.
pub open spec fn letter_count(w: Seq<u8>, g: u8, n: nat) -> nat
    decreases n,
{
    if n == 0 {
        0
    } else {
        letter_count(w, g, (n - 1) as nat) + if w[n - 1] == g {
            1nat
        } else {
            0nat
        }
    }
}

/// The offsets among the first `n` bytes of `w` that hold `g`, increasing.
pub open spec fn pattern_of(w: Seq<u8>, g: u8, n: nat) -> Seq<usize>
    decreases n,
{
    if n == 0 {
        Seq::empty()
    } else {
        let earlier = pattern_of(w, g, (n - 1) as nat);
        if w[n - 1] == g {
            earlier.push((n - 1) as usize)
        } else {
            earlier
        }
    }
}

/// The word has more than `limit` copies of `g` among its first `n` bytes.
pub open spec fn too_many(g: u8, n: usize, limit: usize) -> spec_fn(Seq<char>) -> bool {
    |w: Seq<char>| letter_count(bytes_of(w), g, n as nat) > limit
}

/// `word` with the character `c` written at every position listed in `pat`
/// (positions past its end are ignored).
pub open spec fn fill_pattern(word: Seq<char>, pat: Seq<usize>, c: char) -> Seq<char> {
    Seq::new(word.len(), |i: int| if pat.contains(i as usize) { c } else { word[i] })
}

/// A word of `n` stars.
pub open spec fn stars(n: nat) -> Seq<char> {
    Seq::new(n, |i: int| '*')
}

pub proof fn lemma_letter_count_bound(w: Seq<u8>, g: u8, n: nat)
    ensures
        letter_count(w, g, n) <= n,
    decreases n,
{
    if n > 0 {
        lemma_letter_count_bound(w, g, (n - 1) as nat);
    }
}

/// Each character takes at least one byte in UTF-8.
pub proof fn lemma_bytes_at_least_chars(w: Seq<char>)
    ensures
        bytes_of(w).len() >= w.len(),
    decreases w.len(),
{
    if w.len() > 0 {
        lemma_bytes_at_least_chars(w.drop_first());
    }
}

/// The byte of a one-character ASCII string is its character.
pub proof fn lemma_single_byte(s: Seq<char>)
    requires
        single_byte(s),
    ensures
        bytes_of(s).len() == 1,
        bytes_of(s)[0] == s[0] as u8,
{
    is_ascii_chars_encode_utf8(s);
}

/// `str::contains` for a string pattern, on the bytes of both strings.
pub fn contains_bytes(hay: &[u8], pat: &[u8]) -> (found: bool)
    ensures
        found == bytes_contain(hay@, pat@),
{
    let n = hay.len();
    let m = pat.len();
    if m > n {
        assert forall|i: int| !#[trigger] occurs_at(hay@, pat@, i) by {}
        return false;
    }
    let mut i: usize = 0;
    while i <= n - m
        invariant
            n == hay@.len(),
            m == pat@.len(),
            m <= n,
            i <= n - m + 1,
            forall|j: int| 0 <= j < i ==> !#[trigger] occurs_at(hay@, pat@, j),
        decreases n - m + 1 - i,
    {
        let mut k: usize = 0;
        let mut same = true;
        while k < m
            invariant
                n == hay@.len(),
                m == pat@.len(),
                i + m <= n,
                k <= m,
                same == forall|t: int| 0 <= t < k ==> hay@[i + t] == pat@[t],
            decreases m - k,
        {
            if hay[i + k] != pat[k] {
                same = false;
            }
            k = k + 1;
        }
        if same {
            assert(hay@.subrange(i as int, i + m) =~= pat@);
            assert(occurs_at(hay@, pat@, i as int));
            return true;
        }
        assert(!occurs_at(hay@, pat@, i as int)) by {
            let t = choose|t: int| 0 <= t < m && hay@[i + t] != pat@[t];
            if hay@.subrange(i as int, i + m) == pat@ {
                assert(hay@.subrange(i as int, i + m)[t] == hay@[i + t]);
            }
        }
        i = i + 1;
    }
    assert forall|j: int| !#[trigger] occurs_at(hay@, pat@, j) by {}
    false
}

/// Whether two strings hold the same characters.
pub fn same_text(a: &str, b: &str) -> (same: bool)
    ensures
        same == (a@ == b@),
{
    let n = a.unicode_len();
    if n != b.unicode_len() {
        return false;
    }
    let mut i: usize = 0;
    while i < n
        invariant
            n == a@.len(),
            n == b@.len(),
            i <= n,
            forall|t: int| 0 <= t < i ==> a@[t] == b@[t],
        decreases n - i,
    {
        if a.get_char(i) != b.get_char(i) {
            return false;
        }
        i = i + 1;
    }
    assert(a@ =~= b@);
    true
}

/// Whether the string holds the character `c`.
pub fn has_char(s: &str, c: char) -> (found: bool)
    ensures
        found == s@.contains(c),
{
    let n = s.unicode_len();
    let mut i: usize = 0;
    while i < n
        invariant
            n == s@.len(),
            i <= n,
            forall|t: int| 0 <= t < i ==> s@[t] != c,
        decreases n - i,
    {
        if s.get_char(i) == c {
            assert(s@[i as int] == c);
            return true;
        }
        i = i + 1;
    }
    false
}

} // verus!
