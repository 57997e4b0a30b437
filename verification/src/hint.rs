//! Per-letter feedback for a guess against a candidate answer.
//!
//! The feedback algorithm runs in two passes and consumes answer
//! letters as it matches them, which is what makes duplicate letters
//! come out right: a guess with two copies of a letter against an
//! answer with one copy marks at most one of them.
//!
//! 1. Every position where the guess letter equals the answer letter is
//!    marked `Correct`, and the answer letter at that position is
//!    blanked out in a scratch copy so it cannot be matched again.
//! 2. Left to right over the positions not already `Correct`: if the
//!    guess letter still occurs among the remaining scratch letters,
//!    the position is marked `Misplaced` and the first such occurrence
//!    is blanked out; otherwise the position stays `Incorrect`.

use vstd::prelude::*;

use crate::SolverError;
use crate::word::{Word, to_upper};

verus! {

/// The sentinel written over a consumed scratch letter. It is not an
/// uppercase ASCII letter, so it never equals a stored guess letter.
pub const BLANK: char = '_';

/// The outcome for a single letter position of a guess.
#[derive(Copy, Clone, PartialEq, Eq, Structural, Debug, Hash)]
pub enum LetterHint {
    /// The letter is in the answer, at this very position.
    Correct,
    /// The letter is in the answer, but at another position.
    Misplaced,
    /// The letter is not in the answer (or all its copies are used up).
    Incorrect,
}

/// The marks after the first pass: `Correct` exactly at the positions
/// where guess and answer agree, `Incorrect` everywhere else.
pub open spec fn match_marks(g: Seq<char>, a: Seq<char>) -> Seq<LetterHint> {
    Seq::new(g.len(), |i: int| if g[i] == a[i] { LetterHint::Correct } else { LetterHint::Incorrect })
}

/// The scratch copy of the answer after the first pass: the letters of
/// positions marked `Correct` are consumed.
pub open spec fn match_scratch(g: Seq<char>, a: Seq<char>) -> Seq<char> {
    Seq::new(a.len(), |i: int| if g[i] == a[i] { BLANK } else { a[i] })
}

/// One step of the second pass at position `i`: a position not already
/// `Correct` whose guess letter still occurs in the scratch sequence is
/// marked `Misplaced`, and the first such occurrence is consumed.
pub open spec fn scan_step(
    marks: Seq<LetterHint>,
    scratch: Seq<char>,
    g: Seq<char>,
    i: int,
) -> (Seq<LetterHint>, Seq<char>) {
    if marks[i] == LetterHint::Correct {
        (marks, scratch)
    } else {
        match scratch.index_of_first(g[i]) {
            Some(j) => (marks.update(i, LetterHint::Misplaced), scratch.update(j, BLANK)),
            None => (marks, scratch),
        }
    }
}

/// The second pass from position `i` on: the final marks and scratch.
pub open spec fn scan(
    marks: Seq<LetterHint>,
    scratch: Seq<char>,
    g: Seq<char>,
    i: nat,
) -> (Seq<LetterHint>, Seq<char>)
    decreases g.len() - i,
{
    if i >= g.len() {
        (marks, scratch)
    } else {
        let stepped = scan_step(marks, scratch, g, i as int);
        scan(stepped.0, stepped.1, g, (i + 1) as nat)
    }
}

/// The per-position feedback for guess `g` against answer `a`, per the
/// two-pass algorithm. Meaningful when `g` and `a` have equal length.
pub open spec fn hint_marks(g: Seq<char>, a: Seq<char>) -> Seq<LetterHint> {
    scan(match_marks(g, a), match_scratch(g, a), g, 0).0
}

/// The letter hint that a feedback character `c` encodes for the
/// guessed letter `letter`: the guessed letter itself (case-insensitive)
/// encodes `Correct`, `'*'` encodes `Misplaced`, `'_'` encodes
/// `Incorrect`, and anything else is a syntax error.
pub open spec fn mark_of_char(c: char, letter: char) -> Option<LetterHint> {
    if to_upper(c) == letter {
        Some(LetterHint::Correct)
    } else if c == '*' {
        Some(LetterHint::Misplaced)
    } else if c == '_' {
        Some(LetterHint::Incorrect)
    } else {
        None
    }
}

/// An ordered sequence of letter hints, one per position of the
/// associated guess.
///
/// The derived `PartialEq` exists for unverified callers; verified code
/// compares hints with [`Hint::same_hint`].
#[derive(Debug, PartialEq, Eq, Hash)]
pub struct Hint {
    marks: Vec<LetterHint>,
}

impl View for Hint {
    type V = Seq<LetterHint>;

    closed spec fn view(&self) -> Seq<LetterHint> {
        self.marks@
    }
}

impl Clone for Hint {
    /// A clone holds the same marks as the original.
    fn clone(&self) -> (r: Self)
        ensures
            r@ == self@,
    {
        let mut marks: Vec<LetterHint> = Vec::new();
        let mut i: usize = 0;
        while i < self.marks.len()
            invariant
                i <= self.marks.len(),
                marks@ == self.marks@.take(i as int),
            decreases self.marks.len() - i,
        {
            marks.push(self.marks[i]);
            i = i + 1;
        }
        proof {
            assert(marks@ == self.marks@);
        }
        Hint { marks }
    }
}

/// Finds the first position of `c` in `scratch`, as the spec-level
/// `index_of_first` does.
fn find_first(scratch: &Vec<char>, c: char) -> (r: Option<usize>)
    ensures
        r is Some <==> scratch@.index_of_first(c) is Some,
        r matches Some(j) ==> scratch@.index_of_first(c) == Some(j as int),
{
    let mut j: usize = 0;
    while j < scratch.len()
        invariant
            j <= scratch.len(),
            forall|k: int| 0 <= k < j ==> scratch@[k] != c,
        decreases scratch.len() - j,
    {
        if scratch[j] == c {
            proof {
                scratch@.index_of_first_ensures(c);
                assert(scratch@.contains(c));
                let found = scratch@.index_of_first(c)->0;
                assert(!(found < j) && !(j < found)) by {
                    assert(scratch@[j as int] == c);
                };
            }
            return Some(j);
        }
        j = j + 1;
    }
    proof {
        scratch@.index_of_first_ensures(c);
        assert(forall|k: int| 0 <= k < scratch@.len() ==> scratch@[k] != c);
        if scratch@.contains(c) {
            let w = choose|w: int| 0 <= w < scratch@.len() && scratch@[w] == c;
            assert(scratch@[w] != c);
        }
    }
    None
}

impl Hint {
    /// Wraps a sequence of letter hints as a `Hint`.
    pub fn new(marks: Vec<LetterHint>) -> (r: Hint)
        ensures
            r@ == marks@,
    {
        Hint { marks }
    }

    /// The number of letter hints.
    pub fn len(&self) -> (n: usize)
        ensures
            n == self@.len(),
    {
        self.marks.len()
    }

    /// The letter hint at position `i`.
    pub fn mark(&self, i: usize) -> (m: LetterHint)
        requires
            i < self@.len(),
        ensures
            m == self@[i as int],
    {
        self.marks[i]
    }

    /// The letter hints, in order.
    pub fn marks(&self) -> (v: &Vec<LetterHint>)
        ensures
            v@ == self@,
    {
        &self.marks
    }

    /// Structural equality of two hints, usable from verified code.
    pub fn same_hint(&self, other: &Hint) -> (r: bool)
        ensures
            r <==> self@ == other@,
    {
        if self.marks.len() != other.marks.len() {
            proof {
                assert(self@ != other@);
            }
            return false;
        }
        let mut i: usize = 0;
        while i < self.marks.len()
            invariant
                i <= self.marks.len(),
                self.marks.len() == other.marks.len(),
                forall|j: int| 0 <= j < i ==> self@[j] == other@[j],
            decreases self.marks.len() - i,
        {
            if self.marks[i] != other.marks[i] {
                proof {
                    assert(self@[i as int] != other@[i as int]);
                }
                return false;
            }
            i = i + 1;
        }
        proof {
            assert(self@ =~= other@);
        }
        true
    }

    /// The feedback for `guess` against `answer` under the two-pass
    /// duplicate-consuming algorithm. Fails with `LengthMismatch` when
    /// the two words differ in length; otherwise the result is exactly
    /// [`hint_marks`] of the two letter sequences.
    pub fn from_guess_and_answer(guess: &Word, answer: &Word) -> (r: Result<Hint, SolverError>)
        ensures
            r is Ok <==> guess@.len() == answer@.len(),
            r is Err ==> r->Err_0 == SolverError::LengthMismatch,
            r is Ok ==> r->Ok_0@ == hint_marks(guess@, answer@),
    {
        if guess.len() != answer.len() {
            return Err(SolverError::LengthMismatch);
        }
        let n = guess.len();
        let ghost g = guess@;
        let ghost a = answer@;

        // First pass: mark exact matches and blank them in the scratch copy.
        let mut marks: Vec<LetterHint> = Vec::new();
        let mut scratch: Vec<char> = Vec::new();
        let mut i: usize = 0;
        while i < n
            invariant
                i <= n,
                n == g.len() && n == a.len(),
                g == guess@ && a == answer@,
                marks@ == match_marks(g, a).take(i as int),
                scratch@ == match_scratch(g, a).take(i as int),
            decreases n - i,
        {
            if guess.letter(i) == answer.letter(i) {
                marks.push(LetterHint::Correct);
                scratch.push(BLANK);
            } else {
                marks.push(LetterHint::Incorrect);
                scratch.push(answer.letter(i));
            }
            proof {
                assert(marks@ =~= match_marks(g, a).take(i + 1));
                assert(scratch@ =~= match_scratch(g, a).take(i + 1));
            }
            i = i + 1;
        }
        proof {
            assert(marks@ == match_marks(g, a)) by {
                assert(match_marks(g, a).take(n as int) =~= match_marks(g, a));
            };
            assert(scratch@ == match_scratch(g, a)) by {
                assert(match_scratch(g, a).take(n as int) =~= match_scratch(g, a));
            };
        }

        // Second pass: consume scratch letters for misplaced positions.
        let mut i: usize = 0;
        while i < n
            invariant
                i <= n,
                n == g.len() && n == a.len(),
                g == guess@ && a == answer@,
                marks@.len() == n && scratch@.len() == n,
                scan(marks@, scratch@, g, i as nat)
                    == scan(match_marks(g, a), match_scratch(g, a), g, 0),
            decreases n - i,
        {
            let ghost marks0 = marks@;
            let ghost scratch0 = scratch@;
            let correct_here = match marks[i] {
                LetterHint::Correct => true,
                _ => false,
            };
            if !correct_here {
                match find_first(&scratch, guess.letter(i)) {
                    Some(j) => {
                        proof {
                            scratch0.index_of_first_ensures(g[i as int]);
                        }
                        marks.set(i, LetterHint::Misplaced);
                        scratch.set(j, BLANK);
                    }
                    None => {}
                }
            }
            proof {
                assert((marks@, scratch@) == scan_step(marks0, scratch0, g, i as int));
                assert(scan(marks0, scratch0, g, i as nat)
                    == scan(marks@, scratch@, g, (i + 1) as nat));
            }
            i = i + 1;
        }
        proof {
            assert(scan(marks@, scratch@, g, n as nat) == (marks@, scratch@));
            assert(marks@ == hint_marks(g, a));
        }
        Ok(Hint { marks })
    }

    /// Parses a feedback string supplied for `guess`: per position, the
    /// guessed letter itself (case-insensitive) means `Correct`, `'*'`
    /// means `Misplaced`, `'_'` means `Incorrect`. Any other character,
    /// or a length mismatch with `guess`, fails with `InvalidHintSyntax`.
    pub fn from_string(text: &str, guess: &Word) -> (r: Result<Hint, SolverError>)
        ensures
            r is Ok <==> (text@.len() == guess@.len()
                && forall|i: int| 0 <= i < text@.len()
                    ==> #[trigger] mark_of_char(text@[i], guess@[i]) is Some),
            r is Err ==> r->Err_0 == SolverError::InvalidHintSyntax,
            r is Ok ==> r->Ok_0@.len() == guess@.len(),
            r is Ok ==> forall|i: int| 0 <= i < guess@.len()
                ==> #[trigger] mark_of_char(text@[i], guess@[i]) == Some(r->Ok_0@[i]),
    {
        let n = text.unicode_len();
        if n != guess.len() {
            return Err(SolverError::InvalidHintSyntax);
        }
        let mut marks: Vec<LetterHint> = Vec::new();
        let mut i: usize = 0;
        while i < n
            invariant
                i <= n,
                n == text@.len() && n == guess@.len(),
                marks@.len() == i,
                forall|j: int| 0 <= j < i
                    ==> #[trigger] mark_of_char(text@[j], guess@[j]) == Some(marks@[j]),
            decreases n - i,
        {
            let c = text.get_char(i);
            let letter = guess.letter(i);
            if upper_char_eq(c, letter) {
                marks.push(LetterHint::Correct);
            } else if c == '*' {
                marks.push(LetterHint::Misplaced);
            } else if c == '_' {
                marks.push(LetterHint::Incorrect);
            } else {
                proof {
                    assert(mark_of_char(text@[i as int], guess@[i as int]) is None);
                }
                return Err(SolverError::InvalidHintSyntax);
            }
            i = i + 1;
        }
        Ok(Hint { marks })
    }
}

/// Whether feedback character `c`, uppercased, equals the guessed letter.
fn upper_char_eq(c: char, letter: char) -> (r: bool)
    ensures
        r <==> to_upper(c) == letter,
{
    crate::word::upper_char(c) == letter
}

/// How many of the first `i` positions of `s` hold character `c`.
pub open spec fn count_char_upto(s: Seq<char>, c: char, i: nat) -> nat
    decreases i,
{
    if i == 0 {
        0
    } else {
        count_char_upto(s, c, (i - 1) as nat) + if s[i - 1] == c {
            1nat
        } else {
            0nat
        }
    }
}

/// How many of the first `i` positions agree between `g` and `a`.
pub open spec fn count_matches_upto(g: Seq<char>, a: Seq<char>, i: nat) -> nat
    decreases i,
{
    if i == 0 {
        0
    } else {
        count_matches_upto(g, a, (i - 1) as nat) + if g[i - 1] == a[i - 1] {
            1nat
        } else {
            0nat
        }
    }
}

/// How many of the first `i` marks are `Correct`.
pub open spec fn count_correct_upto(marks: Seq<LetterHint>, i: nat) -> nat
    decreases i,
{
    if i == 0 {
        0
    } else {
        count_correct_upto(marks, (i - 1) as nat) + if marks[i - 1] == LetterHint::Correct {
            1nat
        } else {
            0nat
        }
    }
}

/// How many of the first `i` positions guess letter `c` and are marked
/// other than `Incorrect`: the positions where `c` was marked `Correct`
/// or `Misplaced`.
pub open spec fn count_marked_upto(g: Seq<char>, marks: Seq<LetterHint>, c: char, i: nat) -> nat
    decreases i,
{
    if i == 0 {
        0
    } else {
        count_marked_upto(g, marks, c, (i - 1) as nat) + if g[i - 1] == c && marks[i - 1]
            != LetterHint::Incorrect {
            1nat
        } else {
            0nat
        }
    }
}

/// Updating one position changes a character count by that position's
/// contribution.
proof fn lemma_count_char_update(s: Seq<char>, c: char, j: int, x: char, i: nat)
    requires
        0 <= j < s.len(),
        i <= s.len(),
    ensures
        j >= i ==> count_char_upto(s.update(j, x), c, i) == count_char_upto(s, c, i),
        j < i ==> count_char_upto(s.update(j, x), c, i) as int == count_char_upto(s, c, i)
            - (if s[j] == c { 1int } else { 0int }) + (if x == c { 1int } else { 0int }),
    decreases i,
{
    if i > 0 {
        lemma_count_char_update(s, c, j, x, (i - 1) as nat);
        assert(s.update(j, x).len() == s.len());
        if j == i - 1 {
            assert(s.update(j, x)[i - 1] == x);
        } else {
            assert(s.update(j, x)[i - 1] == s[i - 1]);
        }
    }
}

/// Updating one mark changes a marked count by that position's
/// contribution.
proof fn lemma_count_marked_update(
    g: Seq<char>,
    marks: Seq<LetterHint>,
    c: char,
    j: int,
    x: LetterHint,
    i: nat,
)
    requires
        0 <= j < marks.len(),
        i <= marks.len(),
    ensures
        j >= i ==> count_marked_upto(g, marks.update(j, x), c, i) == count_marked_upto(
            g,
            marks,
            c,
            i,
        ),
        j < i ==> count_marked_upto(g, marks.update(j, x), c, i) as int == count_marked_upto(
            g,
            marks,
            c,
            i,
        ) - (if g[j] == c && marks[j] != LetterHint::Incorrect {
            1int
        } else {
            0int
        }) + (if g[j] == c && x != LetterHint::Incorrect {
            1int
        } else {
            0int
        }),
    decreases i,
{
    if i > 0 {
        lemma_count_marked_update(g, marks, c, j, x, (i - 1) as nat);
        assert(marks.update(j, x).len() == marks.len());
        if j == i - 1 {
            assert(marks.update(j, x)[i - 1] == x);
        } else {
            assert(marks.update(j, x)[i - 1] == marks[i - 1]);
        }
    }
}

/// Updating a mark keeps every `Correct` count: neither the old nor the
/// new mark at the position is `Correct`.
proof fn lemma_count_correct_update(marks: Seq<LetterHint>, j: int, x: LetterHint, i: nat)
    requires
        0 <= j < marks.len(),
        i <= marks.len(),
        marks[j] != LetterHint::Correct,
        x != LetterHint::Correct,
    ensures
        count_correct_upto(marks.update(j, x), i) == count_correct_upto(marks, i),
    decreases i,
{
    if i > 0 {
        lemma_count_correct_update(marks, j, x, (i - 1) as nat);
    }
}

/// After the first pass, the `Correct` marks count the index-wise
/// matches, and for each letter `c` the marked positions plus the
/// occurrences of `c` left in the scratch copy count the occurrences
/// of `c` in the answer.
proof fn lemma_first_pass_counts(g: Seq<char>, a: Seq<char>, c: char, i: nat)
    requires
        g.len() == a.len(),
        i <= g.len(),
        crate::word::valid_word(a),
        c != BLANK,
    ensures
        count_correct_upto(match_marks(g, a), i) == count_matches_upto(g, a, i),
        count_marked_upto(g, match_marks(g, a), c, i) + count_char_upto(
            match_scratch(g, a),
            c,
            i,
        ) == count_char_upto(a, c, i),
    decreases i,
{
    if i > 0 {
        lemma_first_pass_counts(g, a, c, (i - 1) as nat);
    }
}

/// The second pass, from position `i` on, conserves the sum of marked
/// positions for `c` and remaining scratch occurrences of `c`, and
/// leaves every `Correct` count unchanged.
proof fn lemma_scan_conserves(
    g: Seq<char>,
    marks: Seq<LetterHint>,
    scratch: Seq<char>,
    c: char,
    i: nat,
)
    requires
        marks.len() == g.len(),
        scratch.len() == g.len(),
        crate::word::valid_word(g),
        crate::word::is_upper_letter(c),
        forall|j: int| i <= j < marks.len() ==> #[trigger] marks[j] != LetterHint::Misplaced,
    ensures
        count_marked_upto(g, scan(marks, scratch, g, i).0, c, g.len()) + count_char_upto(
            scan(marks, scratch, g, i).1,
            c,
            g.len(),
        ) == count_marked_upto(g, marks, c, g.len()) + count_char_upto(scratch, c, g.len()),
        count_correct_upto(scan(marks, scratch, g, i).0, g.len()) == count_correct_upto(
            marks,
            g.len(),
        ),
        scan(marks, scratch, g, i).0.len() == marks.len(),
    decreases g.len() - i,
{
    if i >= g.len() {
    } else {
        let stepped = scan_step(marks, scratch, g, i as int);
        if marks[i as int] == LetterHint::Correct {
            lemma_scan_conserves(g, marks, scratch, c, (i + 1) as nat);
        } else {
            scratch.index_of_first_ensures(g[i as int]);
            match scratch.index_of_first(g[i as int]) {
                Some(j) => {
                    let m2 = marks.update(i as int, LetterHint::Misplaced);
                    let s2 = scratch.update(j, BLANK);
                    assert(scratch[j] == g[i as int]);
                    assert(g[i as int] != BLANK);
                    assert(c != BLANK);
                    lemma_count_marked_update(
                        g,
                        marks,
                        c,
                        i as int,
                        LetterHint::Misplaced,
                        g.len(),
                    );
                    lemma_count_char_update(scratch, c, j, BLANK, g.len());
                    lemma_count_correct_update(
                        marks,
                        i as int,
                        LetterHint::Misplaced,
                        g.len(),
                    );
                    assert forall|k: int| i + 1 <= k < m2.len() implies #[trigger] m2[k]
                        != LetterHint::Misplaced by {
                        assert(m2[k] == marks[k]);
                    }
                    lemma_scan_conserves(g, m2, s2, c, (i + 1) as nat);
                }
                None => {
                    lemma_scan_conserves(g, marks, scratch, c, (i + 1) as nat);
                }
            }
        }
    }
}

/// The feedback for `g` against `a` marks exactly as many positions
/// `Correct` as there are index-wise matches between the two words.
pub proof fn lemma_correct_count(g: Seq<char>, a: Seq<char>)
    requires
        g.len() == a.len(),
        crate::word::valid_word(g),
        crate::word::valid_word(a),
    ensures
        count_correct_upto(hint_marks(g, a), g.len()) == count_matches_upto(g, a, g.len()),
{
    let m0 = match_marks(g, a);
    let s0 = match_scratch(g, a);
    lemma_first_pass_counts(g, a, 'A', g.len());
    assert(forall|j: int| 0 <= j < m0.len() ==> #[trigger] m0[j] != LetterHint::Misplaced);
    lemma_scan_conserves(g, m0, s0, 'A', 0);
}

/// For any letter `c`, the positions of `g` that guess `c` and are
/// marked `Correct` or `Misplaced` never outnumber the occurrences of
/// `c` in the guess, nor those in the answer: duplicate letters are
/// consumed, not counted twice.
pub proof fn lemma_letter_count_bound(g: Seq<char>, a: Seq<char>, c: char)
    requires
        g.len() == a.len(),
        crate::word::valid_word(g),
        crate::word::valid_word(a),
        crate::word::is_upper_letter(c),
    ensures
        count_marked_upto(g, hint_marks(g, a), c, g.len()) <= count_char_upto(g, c, g.len()),
        count_marked_upto(g, hint_marks(g, a), c, g.len()) <= count_char_upto(a, c, g.len()),
{
    let m0 = match_marks(g, a);
    let s0 = match_scratch(g, a);
    assert(c != BLANK);
    lemma_first_pass_counts(g, a, c, g.len());
    assert(forall|j: int| 0 <= j < m0.len() ==> #[trigger] m0[j] != LetterHint::Misplaced);
    lemma_scan_conserves(g, m0, s0, c, 0);
    lemma_marked_le_char(g, hint_marks(g, a), c, g.len());
}

/// Positions marked for `c` are positions guessing `c`: the marked
/// count never exceeds the occurrences of `c` in the guess.
proof fn lemma_marked_le_char(g: Seq<char>, marks: Seq<LetterHint>, c: char, i: nat)
    ensures
        count_marked_upto(g, marks, c, i) <= count_char_upto(g, c, i),
    decreases i,
{
    if i > 0 {
        lemma_marked_le_char(g, marks, c, (i - 1) as nat);
    }
}

} // verus!
