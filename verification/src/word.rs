//! Fixed-width puzzle words: validation, case normalization, equality.
//!
//! A [`Word`] is an ordered, fixed-length sequence of uppercase ASCII
//! letters. Raw text is turned into a `Word` by [`Word::from_string`],
//! which rejects input of the wrong length or with characters that are
//! not letters, and uppercases lowercase letters before storing them.

use vstd::prelude::*;

use crate::SolverError;

verus! {

/// True exactly for the uppercase ASCII letters `'A'` through `'Z'`.
pub open spec fn is_upper_letter(c: char) -> bool {
    'A' <= c && c <= 'Z'
}

/// True exactly for the lowercase ASCII letters `'a'` through `'z'`.
pub open spec fn is_lower_letter(c: char) -> bool {
    'a' <= c && c <= 'z'
}

/// True exactly for the ASCII letters, of either case.
pub open spec fn is_letter(c: char) -> bool {
    is_upper_letter(c) || is_lower_letter(c)
}

/// The uppercase form of an ASCII letter; any other character is kept.
pub open spec fn to_upper(c: char) -> char {
    if is_lower_letter(c) {
        upper_of_lower(c)
    } else {
        c
    }
}

/// Table mapping each lowercase ASCII letter to its uppercase form.
pub open spec fn upper_of_lower(c: char) -> char {
    if c == 'a' { 'A' } else if c == 'b' { 'B' } else if c == 'c' { 'C' }
    else if c == 'd' { 'D' } else if c == 'e' { 'E' } else if c == 'f' { 'F' }
    else if c == 'g' { 'G' } else if c == 'h' { 'H' } else if c == 'i' { 'I' }
    else if c == 'j' { 'J' } else if c == 'k' { 'K' } else if c == 'l' { 'L' }
    else if c == 'm' { 'M' } else if c == 'n' { 'N' } else if c == 'o' { 'O' }
    else if c == 'p' { 'P' } else if c == 'q' { 'Q' } else if c == 'r' { 'R' }
    else if c == 's' { 'S' } else if c == 't' { 'T' } else if c == 'u' { 'U' }
    else if c == 'v' { 'V' } else if c == 'w' { 'W' } else if c == 'x' { 'X' }
    else if c == 'y' { 'Y' } else if c == 'z' { 'Z' } else { c }
}

/// Executable uppercasing of a single character, per [`to_upper`].
pub fn upper_char(c: char) -> (r: char)
    ensures
        r == to_upper(c),
{
    if 'a' <= c && c <= 'z' {
        match c {
            'a' => 'A', 'b' => 'B', 'c' => 'C', 'd' => 'D', 'e' => 'E',
            'f' => 'F', 'g' => 'G', 'h' => 'H', 'i' => 'I', 'j' => 'J',
            'k' => 'K', 'l' => 'L', 'm' => 'M', 'n' => 'N', 'o' => 'O',
            'p' => 'P', 'q' => 'Q', 'r' => 'R', 's' => 'S', 't' => 'T',
            'u' => 'U', 'v' => 'V', 'w' => 'W', 'x' => 'X', 'y' => 'Y',
            _ => 'Z',
        }
    } else {
        c
    }
}

/// A sequence of characters that forms a valid stored word: every
/// character is an uppercase ASCII letter.
pub open spec fn valid_word(s: Seq<char>) -> bool {
    forall|i: int| 0 <= i < s.len() ==> is_upper_letter(#[trigger] s[i])
}

/// A fixed-length sequence of uppercase ASCII letters: a legal guess or
/// a candidate answer. Equality is structural: two `Word`s are equal
/// exactly when they hold the same letters in the same order.
///
/// The derived `PartialEq` exists for unverified callers; verified code
/// compares words with [`Word::same_word`].
#[derive(Debug, PartialEq, Eq, Hash)]
pub struct Word {
    letters: Vec<char>,
}

impl View for Word {
    type V = Seq<char>;

    closed spec fn view(&self) -> Seq<char> {
        self.letters@
    }
}

impl Clone for Word {
    /// A clone holds the same letters as the original.
    fn clone(&self) -> (r: Self)
        ensures
            r@ == self@,
    {
        let mut letters: Vec<char> = Vec::new();
        let mut i: usize = 0;
        while i < self.letters.len()
            invariant
                i <= self.letters.len(),
                letters@ == self.letters@.take(i as int),
            decreases self.letters.len() - i,
        {
            letters.push(self.letters[i]);
            i = i + 1;
        }
        proof {
            assert(letters@ == self.letters@);
        }
        Word { letters }
    }
}

impl Word {
    /// Wraps an already-normalized character sequence as a `Word`.
    /// Fails with `InvalidCharacter` unless every character is an
    /// uppercase ASCII letter.
    pub fn new(chars: Vec<char>) -> (r: Result<Word, SolverError>)
        ensures
            r is Ok <==> valid_word(chars@),
            r is Ok ==> r->Ok_0@ == chars@,
            r is Err ==> r->Err_0 == SolverError::InvalidCharacter,
    {
        let mut i: usize = 0;
        while i < chars.len()
            invariant
                i <= chars.len(),
                forall|j: int| 0 <= j < i ==> is_upper_letter(#[trigger] chars@[j]),
            decreases chars.len() - i,
        {
            let c = chars[i];
            if !('A' <= c && c <= 'Z') {
                return Err(SolverError::InvalidCharacter);
            }
            i = i + 1;
        }
        Ok(Word { letters: chars })
    }

    /// Parses raw text into a `Word` of the configured `width`.
    ///
    /// Fails with `InvalidLength` when the character count differs from
    /// `width`, and otherwise with `InvalidCharacter` when any character
    /// is not an ASCII letter. On success the letters are the text's
    /// characters, case-normalized to uppercase.
    pub fn from_string(text: &str, width: usize) -> (r: Result<Word, SolverError>)
        ensures
            r is Err ==> (r->Err_0 == SolverError::InvalidLength
                || r->Err_0 == SolverError::InvalidCharacter),
            (r is Err && r->Err_0 == SolverError::InvalidLength) <==> text@.len() != width,
            text@.len() == width
                ==> ((r is Err && r->Err_0 == SolverError::InvalidCharacter)
                    <==> !(forall|i: int| 0 <= i < text@.len() ==> is_letter(#[trigger] text@[i]))),
            r is Ok ==> r->Ok_0@ == text@.map_values(|c: char| to_upper(c)),
            r is Ok ==> r->Ok_0@.len() == width && valid_word(r->Ok_0@),
    {
        let n = text.unicode_len();
        if n != width {
            return Err(SolverError::InvalidLength);
        }
        let mut letters: Vec<char> = Vec::new();
        let mut i: usize = 0;
        while i < n
            invariant
                i <= n,
                n == text@.len(),
                n == width,
                letters@ == text@.take(i as int).map_values(|c: char| to_upper(c)),
                forall|j: int| 0 <= j < i ==> is_letter(#[trigger] text@[j]),
            decreases n - i,
        {
            let c = text.get_char(i);
            if !(('A' <= c && c <= 'Z') || ('a' <= c && c <= 'z')) {
                return Err(SolverError::InvalidCharacter);
            }
            letters.push(upper_char(c));
            proof {
                assert(letters@ =~= text@.take(i + 1).map_values(|ch: char| to_upper(ch)));
            }
            i = i + 1;
        }
        proof {
            assert(text@.take(n as int) == text@);
            assert(forall|i: int| 0 <= i < letters@.len() ==> is_upper_letter(#[trigger] letters@[i]));
        }
        Ok(Word { letters })
    }

    /// The number of letters in the word.
    pub fn len(&self) -> (n: usize)
        ensures
            n == self@.len(),
    {
        self.letters.len()
    }

    /// The letter at position `i`.
    pub fn letter(&self, i: usize) -> (c: char)
        requires
            i < self@.len(),
        ensures
            c == self@[i as int],
    {
        self.letters[i]
    }

    /// The word's letters, in order.
    pub fn letters(&self) -> (v: &Vec<char>)
        ensures
            v@ == self@,
    {
        &self.letters
    }

    /// Structural equality of two words, usable from verified code.
    pub fn same_word(&self, other: &Word) -> (r: bool)
        ensures
            r <==> self@ == other@,
    {
        if self.letters.len() != other.letters.len() {
            proof {
                assert(self@ != other@);
            }
            return false;
        }
        let mut i: usize = 0;
        while i < self.letters.len()
            invariant
                i <= self.letters.len(),
                self.letters.len() == other.letters.len(),
                forall|j: int| 0 <= j < i ==> self@[j] == other@[j],
            decreases self.letters.len() - i,
        {
            if self.letters[i] != other.letters[i] {
                proof {
                    assert(self@[i as int] != other@[i as int]);
                }
                return false;
            }
            i = i + 1;
        }
        proof {
            assert(self@ =~= other@);
        }
        true
    }
}

/// De-duplication of a sequence of letter sequences: the first
/// occurrence of each distinct sequence survives, in order.
pub open spec fn dedup_views(vs: Seq<Seq<char>>) -> Seq<Seq<char>>
    decreases vs.len(),
{
    if vs.len() == 0 {
        Seq::empty()
    } else {
        let d = dedup_views(vs.drop_last());
        if d.contains(vs.last()) {
            d
        } else {
            d.push(vs.last())
        }
    }
}

/// What de-duplication guarantees: no sequence twice, and exactly the
/// sequences of the input.
pub proof fn lemma_dedup_views_props(vs: Seq<Seq<char>>)
    ensures
        forall|i: int, j: int| 0 <= i < j < dedup_views(vs).len()
            ==> #[trigger] dedup_views(vs)[i] !== #[trigger] dedup_views(vs)[j],
        forall|x: Seq<char>| #[trigger] dedup_views(vs).contains(x) <==> vs.contains(x),
        dedup_views(vs).len() <= vs.len(),
    decreases vs.len(),
{
    if vs.len() > 0 {
        let dl = vs.drop_last();
        lemma_dedup_views_props(dl);
        let d = dedup_views(dl);
        let r = dedup_views(vs);
        assert forall|x: Seq<char>| #[trigger] r.contains(x) implies vs.contains(x) by {
            if d.contains(x) {
                assert(dl.contains(x));
                let w = choose|w: int| 0 <= w < dl.len() && dl[w] == x;
                assert(vs[w] == x);
            } else {
                let w = choose|w: int| 0 <= w < r.len() && r[w] == x;
                assert(x == vs.last());
                assert(vs[vs.len() - 1] == x);
            }
        }
        assert forall|x: Seq<char>| vs.contains(x) implies #[trigger] r.contains(x) by {
            let w = choose|w: int| 0 <= w < vs.len() && vs[w] == x;
            if w < vs.len() - 1 {
                assert(dl[w] == x);
                assert(dl.contains(x));
                assert(d.contains(x));
                let v = choose|v: int| 0 <= v < d.len() && d[v] == x;
                assert(r[v] == x);
            } else {
                if d.contains(vs.last()) {
                    assert(r.contains(x));
                } else {
                    assert(r[r.len() - 1] == x);
                }
            }
        }
        if !d.contains(vs.last()) {
            assert forall|i: int, j: int| 0 <= i < j < r.len() implies #[trigger] r[i]
                !== #[trigger] r[j] by {
                if j == r.len() - 1 {
                    assert(r[j] == vs.last());
                    assert(r[i] == d[i]);
                    assert(d.contains(d[i]));
                }
            }
        }
    }
}

/// Removes duplicate words, keeping the first occurrence of each word
/// in order: the surviving views are exactly [`dedup_views`] of the
/// input views, so no word occurs twice and no word is lost.
pub fn dedup_words(words: &Vec<Word>) -> (r: Vec<Word>)
    ensures
        crate::score::word_views(r@) == dedup_views(crate::score::word_views(words@)),
        crate::session::distinct_views(crate::score::word_views(r@)),
        forall|x: Seq<char>| #[trigger] crate::score::word_views(r@).contains(x)
            <==> crate::score::word_views(words@).contains(x),
        r@.len() <= words@.len(),
{
    proof {
        lemma_dedup_views_props(crate::score::word_views(words@));
    }
    let ghost vs = crate::score::word_views(words@);
    let mut out: Vec<Word> = Vec::new();
    let mut i: usize = 0;
    proof {
        assert(vs.take(0) =~= Seq::<Seq<char>>::empty());
    }
    while i < words.len()
        invariant
            i <= words@.len(),
            vs == crate::score::word_views(words@),
            vs.len() == words@.len(),
            crate::score::word_views(out@) == dedup_views(vs.take(i as int)),
        decreases words@.len() - i,
    {
        proof {
            assert(vs.take(i + 1).drop_last() =~= vs.take(i as int));
            assert(vs.take(i + 1).last() == vs[i as int]);
            assert(vs[i as int] == words@[i as int]@);
        }
        let seen = crate::session::contains_word(&out, &words[i]);
        if !seen {
            let ghost prior = out@;
            let w = words[i].clone();
            out.push(w);
            proof {
                assert(crate::score::word_views(prior).len() == prior.len());
                assert(crate::score::word_views(out@) =~= crate::score::word_views(
                    prior,
                ).push(vs[i as int]));
            }
        }
        i = i + 1;
    }
    proof {
        assert(vs.take(vs.len() as int) =~= vs);
    }
    out
}

} // verus!
