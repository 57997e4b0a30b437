//! The scoring engine: ranks every legal guess by how well it
//! partitions the remaining candidate answers.
//!
//! For one guess, the candidate answers are partitioned into buckets
//! by the hint each answer would produce against the guess. The bucket
//! sizes feed two complementary metrics, both in thousandths of a
//! percent (see [`crate::entropy`]):
//!
//! * the expected score, derived from the Shannon entropy of the
//!   bucket distribution;
//! * the worst-case score, the guaranteed reduction left by the
//!   largest bucket.
//!
//! Guesses are independent of one another, so the table may be
//! computed in chunks, sequentially or in parallel; the result is the
//! same sequence either way, and every scorer here carries that
//! equality in its contract. The ranked table sorts by expected score
//! descending; ties keep the order in which the guesses were given.

use vstd::prelude::*;

use rayon::iter::ParallelIterator;
use rayon::slice::ParallelSlice;

use crate::entropy::{
    MAX_CANDIDATES, expected_millis, expected_millis_of, sum_counts, worst_millis,
    worst_millis_of,
};
use crate::hint::{Hint, LetterHint, hint_marks};
use crate::word::Word;

verus! {

/// One row of a score table: a guess and its two scores, in
/// thousandths of a percent.
///
/// The expected score always lies in `[0, 100000)` (that is,
/// `[0, 100)` percent) and the worst-case score in `[0, 100000]`.
/// Neither bounds the other: an expected score below the worst-case
/// score is legal and does occur.
#[derive(Debug, PartialEq, Eq)]
pub struct ScoreEntry {
    /// The scored guess.
    pub word: Word,
    /// Expected percentage reduction of the candidate set, in
    /// thousandths of a percent.
    pub expected_millis: u64,
    /// Guaranteed percentage reduction of the candidate set, in
    /// thousandths of a percent.
    pub worst_millis: u64,
}

impl View for ScoreEntry {
    type V = (Seq<char>, u64, u64);

    open spec fn view(&self) -> (Seq<char>, u64, u64) {
        (self.word@, self.expected_millis, self.worst_millis)
    }
}

impl Clone for ScoreEntry {
    /// A clone carries the same word and scores.
    fn clone(&self) -> (r: Self)
        ensures
            r@ == self@,
    {
        ScoreEntry {
            word: self.word.clone(),
            expected_millis: self.expected_millis,
            worst_millis: self.worst_millis,
        }
    }
}

/// The letter sequences of a sequence of words.
pub open spec fn word_views(ws: Seq<Word>) -> Seq<Seq<char>> {
    ws.map_values(|w: Word| w@)
}

/// The hint patterns of a bucket table.
pub open spec fn bucket_keys(t: Seq<(Seq<LetterHint>, nat)>) -> Seq<Seq<LetterHint>> {
    t.map_values(|p: (Seq<LetterHint>, nat)| p.0)
}

/// The models of an executable bucket table.
pub open spec fn bucket_models(bs: Seq<(Hint, u64)>) -> Seq<(Seq<LetterHint>, nat)> {
    bs.map_values(|p: (Hint, u64)| (p.0@, p.1 as nat))
}

/// Counting one more answer whose hint is `h`: the first bucket with
/// that pattern grows by one, or a new bucket of size one is appended.
pub open spec fn add_to_buckets(
    t: Seq<(Seq<LetterHint>, nat)>,
    h: Seq<LetterHint>,
) -> Seq<(Seq<LetterHint>, nat)> {
    match bucket_keys(t).index_of_first(h) {
        Some(i) => t.update(i, (h, (t[i].1 + 1) as nat)),
        None => t.push((h, 1nat)),
    }
}

/// The hint buckets of `answers` against guess `g`: one bucket per
/// distinct hint pattern, ordered by first occurrence, holding the
/// number of answers that produce it.
pub open spec fn buckets_of(g: Seq<char>, answers: Seq<Seq<char>>) -> Seq<
    (Seq<LetterHint>, nat),
>
    decreases answers.len(),
{
    if answers.len() == 0 {
        Seq::empty()
    } else {
        add_to_buckets(buckets_of(g, answers.drop_last()), hint_marks(g, answers.last()))
    }
}

/// The bucket sizes of `answers` against `g`, in first-occurrence order.
pub open spec fn bucket_counts(g: Seq<char>, answers: Seq<Seq<char>>) -> Seq<nat> {
    buckets_of(g, answers).map_values(|p: (Seq<LetterHint>, nat)| p.1)
}

/// The largest element of a sequence of counts (zero when empty).
pub open spec fn max_count(s: Seq<nat>) -> nat
    decreases s.len(),
{
    if s.len() == 0 {
        0
    } else if s.last() >= max_count(s.drop_last()) {
        s.last()
    } else {
        max_count(s.drop_last())
    }
}

/// The expected score of guess `g` against `answers`, in thousandths
/// of a percent.
pub open spec fn expected_of(g: Seq<char>, answers: Seq<Seq<char>>) -> nat {
    expected_millis_of(bucket_counts(g, answers), answers.len())
}

/// The worst-case score of guess `g` against `answers`, in thousandths
/// of a percent.
pub open spec fn worst_of(g: Seq<char>, answers: Seq<Seq<char>>) -> nat {
    worst_millis_of(max_count(bucket_counts(g, answers)), answers.len())
}

/// The score row for guess `g` against `answers`, as a model value.
pub open spec fn score_model(g: Seq<char>, answers: Seq<Seq<char>>) -> (Seq<char>, u64, u64) {
    (g, expected_of(g, answers) as u64, worst_of(g, answers) as u64)
}

/// The unranked score table: one row per guess, in the guesses' order.
/// It depends only on the two candidate sequences, never on how the
/// computation was chunked or scheduled.
pub open spec fn table_models(guesses: Seq<Seq<char>>, answers: Seq<Seq<char>>) -> Seq<
    (Seq<char>, u64, u64),
> {
    guesses.map_values(|g: Seq<char>| score_model(g, answers))
}

/// The models of a vector of score entries.
pub open spec fn entry_models(es: Seq<ScoreEntry>) -> Seq<(Seq<char>, u64, u64)> {
    es.map_values(|e: ScoreEntry| e@)
}

/// All words in `ws` have length `width`.
pub open spec fn all_width(ws: Seq<Word>, width: nat) -> bool {
    forall|i: int| 0 <= i < ws.len() ==> #[trigger] ws[i]@.len() == width
}

/// Appending the score row of guess `i` extends the table of the
/// first `i` guesses to the table of the first `i + 1`.
proof fn lemma_table_push(
    prior: Seq<ScoreEntry>,
    e: ScoreEntry,
    gs: Seq<Seq<char>>,
    avs: Seq<Seq<char>>,
    i: int,
)
    requires
        0 <= i < gs.len(),
        entry_models(prior) == table_models(gs.take(i), avs),
        e@ == score_model(gs[i], avs),
    ensures
        entry_models(prior.push(e)) == table_models(gs.take(i + 1), avs),
{
    let lhs = entry_models(prior.push(e));
    let rhs = table_models(gs.take(i + 1), avs);
    assert(entry_models(prior).len() == prior.len());
    assert(table_models(gs.take(i), avs).len() == gs.take(i).len());
    assert(prior.len() == i);
    assert forall|k: int| 0 <= k < i + 1 implies lhs[k] == rhs[k] by {
        assert(rhs[k] == score_model(gs.take(i + 1)[k], avs));
        assert(gs.take(i + 1)[k] == gs[k]);
        if k < i {
            assert(lhs[k] == prior[k]@);
            assert(entry_models(prior)[k] == prior[k]@);
            assert(table_models(gs.take(i), avs)[k] == score_model(gs.take(i)[k], avs));
            assert(gs.take(i)[k] == gs[k]);
        } else {
            assert(lhs[k] == e@);
        }
    }
    assert(lhs =~= rhs);
}

/// Every bucket holds at least one answer, and the buckets sum to the
/// number of answers.
proof fn lemma_buckets_shape(g: Seq<char>, answers: Seq<Seq<char>>)
    ensures
        sum_counts(bucket_counts(g, answers)) == answers.len(),
        forall|i: int| 0 <= i < bucket_counts(g, answers).len()
            ==> 1 <= #[trigger] bucket_counts(g, answers)[i],
    decreases answers.len(),
{
    if answers.len() == 0 {
    } else {
        let prev = buckets_of(g, answers.drop_last());
        let h = hint_marks(g, answers.last());
        lemma_buckets_shape(g, answers.drop_last());
        bucket_keys(prev).index_of_first_ensures(h);
        match bucket_keys(prev).index_of_first(h) {
            Some(i) => {
                lemma_sum_update_bump(prev.map_values(|p: (Seq<LetterHint>, nat)| p.1), i);
                assert(bucket_counts(g, answers) =~= prev.map_values(
                    |p: (Seq<LetterHint>, nat)| p.1,
                ).update(i, (prev[i].1 + 1) as nat));
            }
            None => {
                let cs = prev.map_values(|p: (Seq<LetterHint>, nat)| p.1);
                assert(bucket_counts(g, answers) =~= cs.push(1nat));
                assert(cs.push(1nat).drop_last() =~= cs);
            }
        }
    }
}

/// Adding one to an element adds one to the sum.
proof fn lemma_sum_update_bump(s: Seq<nat>, i: int)
    requires
        0 <= i < s.len(),
    ensures
        sum_counts(s.update(i, (s[i] + 1) as nat)) == sum_counts(s) + 1,
    decreases s.len(),
{
    if i == s.len() - 1 {
        assert(s.update(i, (s[i] + 1) as nat).drop_last() =~= s.drop_last());
    } else {
        assert(s.update(i, (s[i] + 1) as nat).drop_last() =~= s.drop_last().update(
            i,
            (s[i] + 1) as nat,
        ));
        lemma_sum_update_bump(s.drop_last(), i);
    }
}

/// The largest count never exceeds the sum of all counts.
proof fn lemma_max_le_sum(s: Seq<nat>)
    ensures
        max_count(s) <= sum_counts(s),
    decreases s.len(),
{
    if s.len() > 0 {
        lemma_max_le_sum(s.drop_last());
    }
}

/// Taking one more count updates the running maximum.
proof fn lemma_max_take_unfold(s: Seq<nat>, j: int)
    requires
        0 <= j < s.len(),
    ensures
        max_count(s.take(j + 1)) == if s[j] >= max_count(s.take(j)) {
            s[j]
        } else {
            max_count(s.take(j))
        },
{
    assert(s.take(j + 1).drop_last() =~= s.take(j));
    assert(s.take(j + 1).last() == s[j]);
}

/// Finds the first bucket whose hint pattern equals `h`, as the
/// spec-level `index_of_first` over the bucket keys does.
fn find_bucket(buckets: &Vec<(Hint, u64)>, h: &Hint) -> (r: Option<usize>)
    ensures
        r is Some <==> bucket_keys(bucket_models(buckets@)).index_of_first(h@) is Some,
        r matches Some(j) ==> bucket_keys(bucket_models(buckets@)).index_of_first(h@) == Some(
            j as int,
        ),
{
    let ghost ks = bucket_keys(bucket_models(buckets@));
    proof {
        assert(forall|k: int| 0 <= k < ks.len() ==> ks[k] == #[trigger] buckets@[k].0@);
    }
    let mut j: usize = 0;
    while j < buckets.len()
        invariant
            j <= buckets@.len(),
            ks == bucket_keys(bucket_models(buckets@)),
            ks.len() == buckets@.len(),
            forall|k: int| 0 <= k < ks.len() ==> ks[k] == #[trigger] buckets@[k].0@,
            forall|k: int| 0 <= k < j ==> #[trigger] ks[k] != h@,
        decreases buckets@.len() - j,
    {
        if buckets[j].0.same_hint(h) {
            proof {
                ks.index_of_first_ensures(h@);
                assert(ks[j as int] == h@);
                let fo = ks.index_of_first(h@)->0;
                assert(!(fo < j) && !(j < fo));
            }
            return Some(j);
        }
        j = j + 1;
    }
    proof {
        ks.index_of_first_ensures(h@);
        if ks.contains(h@) {
            let w = choose|w: int| 0 <= w < ks.len() && ks[w] == h@;
            assert(ks[w] != h@);
        }
    }
    None
}

/// Scores one guess against the candidate answers: partitions the
/// answers into hint buckets and evaluates both metrics.
pub fn score_one(guess: &Word, answers: &Vec<Word>) -> (r: ScoreEntry)
    requires
        all_width(answers@, guess@.len()),
        answers@.len() <= MAX_CANDIDATES,
    ensures
        r@ == score_model(guess@, word_views(answers@)),
        r.expected_millis < 100000,
        r.worst_millis <= 100000,
{
    let ghost av = word_views(answers@);
    let mut buckets: Vec<(Hint, u64)> = Vec::new();
    let mut i: usize = 0;
    while i < answers.len()
        invariant
            i <= answers@.len(),
            av == word_views(answers@),
            av.len() == answers@.len(),
            all_width(answers@, guess@.len()),
            answers@.len() <= MAX_CANDIDATES,
            bucket_models(buckets@) == buckets_of(guess@, av.take(i as int)),
            forall|k: int| 0 <= k < buckets@.len() ==> #[trigger] buckets@[k].1 <= i,
        decreases answers@.len() - i,
    {
        let h = match Hint::from_guess_and_answer(guess, &answers[i]) {
            Ok(h) => h,
            Err(_) => {
                proof {
                    assert(answers@[i as int]@.len() == guess@.len());
                }
                vstd::pervasive::unreached()
            }
        };
        proof {
            assert(av.take(i + 1).drop_last() =~= av.take(i as int));
            assert(av.take(i + 1).last() == av[i as int]);
            assert(h@ == hint_marks(guess@, av[i as int]));
        }
        let ghost prev = bucket_models(buckets@);
        match find_bucket(&buckets, &h) {
            Some(j) => {
                proof {
                    bucket_keys(prev).index_of_first_ensures(h@);
                }
                let c = buckets[j].1;
                let hh = buckets[j].0.clone();
                buckets.set(j, (hh, c + 1));
                proof {
                    assert(bucket_models(buckets@) =~= add_to_buckets(prev, h@));
                }
            }
            None => {
                buckets.push((h, 1));
                proof {
                    assert(bucket_models(buckets@) =~= add_to_buckets(prev, h@));
                }
            }
        }
        i = i + 1;
    }
    proof {
        assert(av.take(av.len() as int) =~= av);
    }

    // Pull out the bucket sizes and their maximum.
    let mut counts: Vec<u64> = Vec::new();
    let mut max: u64 = 0;
    let mut j: usize = 0;
    proof {
        assert(bucket_counts(guess@, av).take(0) =~= Seq::<nat>::empty());
    }
    while j < buckets.len()
        invariant
            j <= buckets@.len(),
            av == word_views(answers@),
            bucket_models(buckets@) == buckets_of(guess@, av),
            counts@.map_values(|c: u64| c as nat) == bucket_counts(guess@, av).take(j as int),
            max == max_count(bucket_counts(guess@, av).take(j as int)),
        decreases buckets@.len() - j,
    {
        let c = buckets[j].1;
        proof {
            assert(bucket_counts(guess@, av)[j as int] == c as nat);
            lemma_max_take_unfold(bucket_counts(guess@, av), j as int);
        }
        counts.push(c);
        if c > max {
            max = c;
        }
        proof {
            assert(counts@.map_values(|c0: u64| c0 as nat) =~= bucket_counts(guess@, av).take(
                j + 1,
            ));
        }
        j = j + 1;
    }
    proof {
        let full = bucket_counts(guess@, av);
        assert(full.len() == buckets@.len());
        assert(full.take(full.len() as int) =~= full);
        assert(counts@.map_values(|c: u64| c as nat) == full);
        lemma_buckets_shape(guess@, av);
        lemma_max_le_sum(full);
        assert(forall|k: int| 0 <= k < counts@.len()
            ==> #[trigger] counts@[k] as nat == full[k]);
        assert(forall|k: int| 0 <= k < counts@.len() ==> 1 <= #[trigger] counts@[k]);
        assert(sum_counts(counts@.map_values(|c: u64| c as nat)) == av.len());
        assert(av.len() == answers@.len());
    }
    let n = answers.len() as u64;
    let e = expected_millis(&counts, n);
    let w = worst_millis(max, n);
    ScoreEntry { word: guess.clone(), expected_millis: e, worst_millis: w }
}

/// Scores every guess in order, sequentially. The result is the
/// unranked table: a pure function of the two candidate sequences.
pub fn score_entries(guesses: &Vec<Word>, answers: &Vec<Word>, width: usize) -> (r: Vec<
    ScoreEntry,
>)
    requires
        all_width(guesses@, width as nat),
        all_width(answers@, width as nat),
        answers@.len() <= MAX_CANDIDATES,
    ensures
        entry_models(r@) == table_models(word_views(guesses@), word_views(answers@)),
{
    let mut out: Vec<ScoreEntry> = Vec::new();
    let mut i: usize = 0;
    while i < guesses.len()
        invariant
            i <= guesses@.len(),
            all_width(guesses@, width as nat),
            all_width(answers@, width as nat),
            answers@.len() <= MAX_CANDIDATES,
            entry_models(out@) == table_models(
                word_views(guesses@).take(i as int),
                word_views(answers@),
            ),
        decreases guesses@.len() - i,
    {
        let e = score_one(&guesses[i], answers);
        let ghost prior = out@;
        out.push(e);
        proof {
            assert(word_views(guesses@)[i as int] == guesses@[i as int]@);
            lemma_table_push(prior, e, word_views(guesses@), word_views(answers@), i as int);
        }
        i = i + 1;
    }
    proof {
        assert(word_views(guesses@).take(guesses@.len() as int) =~= word_views(guesses@));
    }
    out
}

/// Scores the guesses in chunks of `chunk_size`, as a worker pool
/// would, concatenating the chunk results in order. The contract is
/// the same as for [`score_entries`]: the chunk size has no effect on
/// the resulting table.
pub fn score_entries_chunked(
    guesses: &Vec<Word>,
    answers: &Vec<Word>,
    width: usize,
    chunk_size: usize,
) -> (r: Vec<ScoreEntry>)
    requires
        chunk_size >= 1,
        all_width(guesses@, width as nat),
        all_width(answers@, width as nat),
        answers@.len() <= MAX_CANDIDATES,
    ensures
        entry_models(r@) == table_models(word_views(guesses@), word_views(answers@)),
{
    let mut out: Vec<ScoreEntry> = Vec::new();
    let mut start: usize = 0;
    while start < guesses.len()
        invariant
            start <= guesses@.len(),
            chunk_size >= 1,
            all_width(guesses@, width as nat),
            all_width(answers@, width as nat),
            answers@.len() <= MAX_CANDIDATES,
            entry_models(out@) == table_models(
                word_views(guesses@).take(start as int),
                word_views(answers@),
            ),
        decreases guesses@.len() - start,
    {
        let end = if guesses.len() - start < chunk_size {
            guesses.len()
        } else {
            start + chunk_size
        };
        let mut i: usize = start;
        while i < end
            invariant
                start <= i <= end <= guesses@.len(),
                all_width(guesses@, width as nat),
                all_width(answers@, width as nat),
                answers@.len() <= MAX_CANDIDATES,
                entry_models(out@) == table_models(
                    word_views(guesses@).take(i as int),
                    word_views(answers@),
                ),
            decreases end - i,
        {
            let e = score_one(&guesses[i], answers);
            let ghost prior = out@;
            out.push(e);
            proof {
                assert(word_views(guesses@)[i as int] == guesses@[i as int]@);
                lemma_table_push(prior, e, word_views(guesses@), word_views(answers@), i as int);
            }
            i = i + 1;
        }
        start = end;
    }
    proof {
        assert(word_views(guesses@).take(guesses@.len() as int) =~= word_views(guesses@));
    }
    out
}

/// Scores the guesses on a worker pool, splitting them into chunks of
/// one hundred, exactly like [`score_entries_chunked`] does
/// sequentially.
///
/// Relies on rayon's `par_chunks`, `map`, `flat_map_iter` and
/// `collect::<Vec<_>>`: `par_chunks` yields the slice's chunks in
/// order, and `collect` concatenates the split results left to right,
/// whatever the worker count, so the table equals the sequential one
/// entry for entry. The closures only call the verified [`score_one`]
/// and std iterator plumbing.
#[verifier::external_body]
pub fn par_score_entries(guesses: &Vec<Word>, answers: &Vec<Word>, width: usize) -> (r: Vec<
    ScoreEntry,
>)
    requires
        all_width(guesses@, width as nat),
        all_width(answers@, width as nat),
        answers@.len() <= MAX_CANDIDATES,
    ensures
        entry_models(r@) == table_models(word_views(guesses@), word_views(answers@)),
{
    guesses
        .par_chunks(100)
        .map(|chunk| chunk.iter().map(|g| score_one(g, answers)).collect::<Vec<_>>())
        .flat_map_iter(|v| v)
        .collect()
}

/// Sorted by expected score, descending.
pub open spec fn sorted_desc(s: Seq<(Seq<char>, u64, u64)>) -> bool {
    forall|i: int, j: int| 0 <= i < j < s.len() ==> #[trigger] s[i].1 >= #[trigger] s[j].1
}

/// Inserts a row into a ranked table: it goes after every row whose
/// expected score is at least its own, so rows that score equal keep
/// the order in which they arrived.
pub open spec fn insert_desc(
    s: Seq<(Seq<char>, u64, u64)>,
    e: (Seq<char>, u64, u64),
) -> Seq<(Seq<char>, u64, u64)>
    decreases s.len(),
{
    if s.len() == 0 {
        seq![e]
    } else if s.last().1 >= e.1 {
        s.push(e)
    } else {
        insert_desc(s.drop_last(), e).push(s.last())
    }
}

/// The ranked table: the rows sorted by expected score descending,
/// ties kept in input order (a stable insertion sort).
pub open spec fn rank_models(s: Seq<(Seq<char>, u64, u64)>) -> Seq<(Seq<char>, u64, u64)>
    decreases s.len(),
{
    if s.len() == 0 {
        Seq::empty()
    } else {
        insert_desc(rank_models(s.drop_last()), s.last())
    }
}

/// Where the new row lands: at the position `p` found by scanning from
/// the end over rows that score strictly below it, `insert_desc` is
/// the plain sequence insertion.
proof fn lemma_insert_desc_at(s: Seq<(Seq<char>, u64, u64)>, e: (Seq<char>, u64, u64), p: int)
    requires
        0 <= p <= s.len(),
        forall|j: int| p <= j < s.len() ==> #[trigger] s[j].1 < e.1,
        p > 0 ==> s[p - 1].1 >= e.1,
    ensures
        insert_desc(s, e) == s.insert(p, e),
    decreases s.len(),
{
    if s.len() == 0 {
        assert(insert_desc(s, e) =~= s.insert(0, e));
    } else if s.last().1 >= e.1 {
        assert(p == s.len());
        assert(s.push(e) =~= s.insert(p, e));
    } else {
        assert(p < s.len());
        lemma_insert_desc_at(s.drop_last(), e, p);
        assert(insert_desc(s.drop_last(), e).push(s.last()) =~= s.insert(p, e));
    }
}

/// `insert_desc` keeps a table sorted, grows it by one, and its rows
/// are the old rows plus the new one.
proof fn lemma_insert_desc_props(s: Seq<(Seq<char>, u64, u64)>, e: (Seq<char>, u64, u64))
    requires
        sorted_desc(s),
    ensures
        sorted_desc(insert_desc(s, e)),
        insert_desc(s, e).len() == s.len() + 1,
        forall|x: (Seq<char>, u64, u64)| #[trigger] insert_desc(s, e).contains(x)
            <==> (s.contains(x) || x == e),
    decreases s.len(),
{
    let r = insert_desc(s, e);
    if s.len() == 0 {
        assert forall|x: (Seq<char>, u64, u64)| #[trigger] r.contains(x) implies (s.contains(x)
            || x == e) by {
            let w = choose|w: int| 0 <= w < r.len() && r[w] == x;
            assert(r[0] == e);
        }
        assert(r.contains(e)) by {
            assert(r[0] == e);
        }
    } else if s.last().1 >= e.1 {
        assert forall|i: int, j: int| 0 <= i < j < r.len() implies #[trigger] r[i].1
            >= #[trigger] r[j].1 by {
            if j < s.len() {
            } else {
                assert(r[j] == e);
                if i < s.len() - 1 {
                    assert(s[i].1 >= s[s.len() - 1].1);
                }
            }
        }
        assert forall|x: (Seq<char>, u64, u64)| #[trigger] r.contains(x) implies (s.contains(x)
            || x == e) by {
            let w = choose|w: int| 0 <= w < r.len() && r[w] == x;
            if w < s.len() {
                assert(s[w] == x);
            }
        }
        assert forall|x: (Seq<char>, u64, u64)| s.contains(x) || x == e implies #[trigger] r
            .contains(x) by {
            if s.contains(x) {
                let w = choose|w: int| 0 <= w < s.len() && s[w] == x;
                assert(r[w] == x);
            } else {
                assert(r[s.len() as int] == e);
            }
        }
    } else {
        let dl = s.drop_last();
        assert(sorted_desc(dl));
        lemma_insert_desc_props(dl, e);
        let q = insert_desc(dl, e);
        // r == q.push(s.last()); q holds dl's rows and e, all scoring
        // at least s.last().1
        assert forall|i: int, j: int| 0 <= i < j < r.len() implies #[trigger] r[i].1
            >= #[trigger] r[j].1 by {
            if j < q.len() {
            } else {
                assert(r[j] == s.last());
                assert(q.contains(q[i]));
                if q[i] == e {
                } else {
                    assert(dl.contains(q[i]));
                    let w = choose|w: int| 0 <= w < dl.len() && dl[w] == q[i];
                    assert(s[w].1 >= s[s.len() - 1].1);
                }
            }
        }
        assert forall|x: (Seq<char>, u64, u64)| #[trigger] r.contains(x) implies (s.contains(x)
            || x == e) by {
            let w = choose|w: int| 0 <= w < r.len() && r[w] == x;
            if w < q.len() {
                assert(q.contains(x));
                if dl.contains(x) {
                    let v = choose|v: int| 0 <= v < dl.len() && dl[v] == x;
                    assert(s[v] == x);
                }
            } else {
                assert(x == s.last());
                assert(s[s.len() - 1] == x);
            }
        }
        assert forall|x: (Seq<char>, u64, u64)| s.contains(x) || x == e implies #[trigger] r
            .contains(x) by {
            if x == e {
                assert(q.contains(e));
                let w = choose|w: int| 0 <= w < q.len() && q[w] == e;
                assert(r[w] == e);
            } else {
                let w = choose|w: int| 0 <= w < s.len() && s[w] == x;
                if w < s.len() - 1 {
                    assert(dl[w] == x);
                    assert(q.contains(x));
                    let v = choose|v: int| 0 <= v < q.len() && q[v] == x;
                    assert(r[v] == x);
                } else {
                    assert(r[r.len() - 1] == x);
                }
            }
        }
    }
}

/// A ranked table is sorted descending, has one row per input row, and
/// holds exactly the input rows.
pub proof fn lemma_rank_models_props(s: Seq<(Seq<char>, u64, u64)>)
    ensures
        sorted_desc(rank_models(s)),
        rank_models(s).len() == s.len(),
        forall|x: (Seq<char>, u64, u64)| #[trigger] rank_models(s).contains(x) ==> s.contains(x),
        forall|x: (Seq<char>, u64, u64)| #[trigger] s.contains(x) ==> rank_models(s).contains(x),
    decreases s.len(),
{
    if s.len() > 0 {
        let dl = s.drop_last();
        lemma_rank_models_props(dl);
        lemma_insert_desc_props(rank_models(dl), s.last());
        assert(rank_models(s) == insert_desc(rank_models(dl), s.last()));
        assert forall|x: (Seq<char>, u64, u64)| #[trigger] rank_models(s).contains(x) implies s
            .contains(x) by {
            assert(insert_desc(rank_models(dl), s.last()).contains(x));
            if rank_models(dl).contains(x) {
                let w = choose|w: int| 0 <= w < dl.len() && dl[w] == x;
                assert(s[w] == x);
            } else {
                assert(s[s.len() - 1] == x);
            }
        }
        assert forall|x: (Seq<char>, u64, u64)| #[trigger] s.contains(x) implies rank_models(
            s,
        ).contains(x) by {
            let w = choose|w: int| 0 <= w < s.len() && s[w] == x;
            if w < s.len() - 1 {
                assert(dl[w] == x);
                assert(dl.contains(x));
            } else {
                assert(x == s.last());
            }
            assert(insert_desc(rank_models(dl), s.last()).contains(x));
        }
    }
}

/// Mapping entry models over a sequence insertion inserts the model.
proof fn lemma_entry_models_insert(s: Seq<ScoreEntry>, p: int, e: ScoreEntry)
    requires
        0 <= p <= s.len(),
    ensures
        entry_models(s.insert(p, e)) == entry_models(s).insert(p, e@),
{
    assert(entry_models(s.insert(p, e)) =~= entry_models(s).insert(p, e@));
}

/// Sorts score rows by expected score descending, stably: rows with
/// equal expected scores keep the order in which they were given. The
/// result is exactly [`rank_models`] of the input rows.
pub fn rank_entries(entries: &Vec<ScoreEntry>) -> (r: Vec<ScoreEntry>)
    ensures
        entry_models(r@) == rank_models(entry_models(entries@)),
{
    let ghost ms = entry_models(entries@);
    let mut out: Vec<ScoreEntry> = Vec::new();
    let mut i: usize = 0;
    proof {
        assert(ms.take(0) =~= Seq::<(Seq<char>, u64, u64)>::empty());
    }
    while i < entries.len()
        invariant
            i <= entries@.len(),
            ms == entry_models(entries@),
            ms.len() == entries@.len(),
            entry_models(out@) == rank_models(ms.take(i as int)),
            out@.len() == i,
        decreases entries@.len() - i,
    {
        let e = entries[i].clone();
        proof {
            assert(e@ == ms[i as int]);
            lemma_rank_models_props(ms.take(i as int));
        }
        let mut pos: usize = out.len();
        while pos > 0 && out[pos - 1].expected_millis < e.expected_millis
            invariant
                pos <= out@.len(),
                forall|j: int| pos <= j < out@.len() ==> #[trigger] out@[j]@.1 < e@.1,
            decreases pos,
        {
            pos = pos - 1;
            proof {
                assert(out@[pos as int]@.1 < e@.1);
            }
        }
        let ghost prior = out@;
        out.insert(pos, e);
        proof {
            assert(forall|j: int| pos <= j < prior.len()
                ==> #[trigger] entry_models(prior)[j].1 < e@.1);
            if pos > 0 {
                assert(entry_models(prior)[pos - 1].1 == prior[pos - 1]@.1);
            }
            lemma_insert_desc_at(entry_models(prior), e@, pos as int);
            lemma_entry_models_insert(prior, pos as int, e);
            assert(ms.take(i + 1).drop_last() =~= ms.take(i as int));
            assert(ms.take(i + 1).last() == ms[i as int]);
            assert(entry_models(out@) == insert_desc(rank_models(ms.take(i as int)), e@));
        }
        i = i + 1;
    }
    proof {
        assert(ms.take(ms.len() as int) =~= ms);
    }
    out
}

/// The full scoring operation: scores every guess against the
/// candidate answers on a worker pool and returns the ranked table,
/// sorted by expected score descending, ties in input order.
pub fn get_scores(guesses: &Vec<Word>, answers: &Vec<Word>, width: usize) -> (r: Vec<ScoreEntry>)
    requires
        all_width(guesses@, width as nat),
        all_width(answers@, width as nat),
        answers@.len() <= MAX_CANDIDATES,
    ensures
        entry_models(r@) == rank_models(table_models(word_views(guesses@), word_views(answers@))),
        sorted_desc(entry_models(r@)),
        r@.len() == guesses@.len(),
{
    let entries = par_score_entries(guesses, answers, width);
    let ranked = rank_entries(&entries);
    proof {
        let t = table_models(word_views(guesses@), word_views(answers@));
        lemma_rank_models_props(t);
        assert(t.len() == word_views(guesses@).len());
    }
    ranked
}

/// Every row of a ranked score table keeps its expected score in
/// `[0, 100000)` and its worst-case score in `[0, 100000]`, in
/// thousandths of a percent: in percent, expected scores lie in
/// `[0, 100)` and worst-case scores in `[0, 100]`. Nothing orders the
/// two scores of a row relative to each other.
pub proof fn lemma_score_table_bounds(guesses: Seq<Seq<char>>, answers: Seq<Seq<char>>, k: int)
    requires
        0 <= k < rank_models(table_models(guesses, answers)).len(),
    ensures
        rank_models(table_models(guesses, answers))[k].1 < 100000,
        rank_models(table_models(guesses, answers))[k].2 <= 100000,
{
    let t = table_models(guesses, answers);
    let r = rank_models(t);
    lemma_rank_models_props(t);
    assert(r.contains(r[k]));
    assert(t.contains(r[k]));
    let w = choose|w: int| 0 <= w < t.len() && t[w] == r[k];
    assert(t[w] == score_model(guesses[w], answers));
    crate::entropy::lemma_expected_millis_of_bound(bucket_counts(guesses[w], answers), answers.len());
    crate::entropy::lemma_worst_millis_of_bound(
        max_count(bucket_counts(guesses[w], answers)),
        answers.len(),
    );
}

} // verus!
