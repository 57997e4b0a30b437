//! The incremental solver session: the evolving candidate sets, the
//! history of applied hints, and the per-depth score-table cache.
//!
//! A session starts from the full validated word list, with both
//! candidate sets equal to it and one cached score table. Applying a
//! hint partitions the remaining answers into the kept and the removed
//! ones, drops the played guess from the remaining guesses, pushes one
//! history entry, and caches the score table of the new state. `undo`
//! pops exactly one entry and restores the prior state bit for bit.
//! The session is `Active` until `exit`; afterwards no operation
//! accepts it.
//!
//! Each history entry snapshots the candidate sets it replaced, so the
//! removed answers are both stored and re-derivable: the entry's
//! `removed` vector is exactly the filter of its `prev_answers` by
//! inconsistency with the entry's guess and hint.

use vstd::prelude::*;

use crate::SolverError;
use crate::entropy::MAX_CANDIDATES;
use crate::hint::{Hint, LetterHint, hint_marks};
use crate::score::{
    ScoreEntry, all_width, entry_models, get_scores, rank_models, table_models, word_views,
};
use crate::word::Word;

verus! {

/// The views of a sequence of words are pairwise distinct: the word
/// list is a set.
pub open spec fn distinct_views(vs: Seq<Seq<char>>) -> bool {
    forall|i: int, j: int| 0 <= i < j < vs.len() ==> #[trigger] vs[i] !== #[trigger] vs[j]
}

/// The answers consistent with feedback `h` for guess `g`: those whose
/// own hint against `g` equals `h`.
pub open spec fn kept_views(avs: Seq<Seq<char>>, g: Seq<char>, h: Seq<LetterHint>) -> Seq<
    Seq<char>,
> {
    avs.filter(|a: Seq<char>| hint_marks(g, a) == h)
}

/// The answers inconsistent with feedback `h` for guess `g`.
pub open spec fn removed_views(avs: Seq<Seq<char>>, g: Seq<char>, h: Seq<LetterHint>) -> Seq<
    Seq<char>,
> {
    avs.filter(|a: Seq<char>| hint_marks(g, a) != h)
}

/// The guesses left after playing `g`: every word but `g`.
pub open spec fn without_view(gvs: Seq<Seq<char>>, g: Seq<char>) -> Seq<Seq<char>> {
    gvs.filter(|v: Seq<char>| !(v == g))
}

/// One applied hint: the guess, its feedback, the answers it removed,
/// and snapshots of both candidate sets from just before it was
/// applied, which make exact undo a plain restore.
#[derive(Debug, PartialEq, Eq, Clone)]
pub struct HistoryEntry {
    /// The played guess.
    pub guess: Word,
    /// The feedback the guess received.
    pub hint: Hint,
    /// The answers the step removed: exactly the previous answers
    /// inconsistent with the feedback.
    pub removed: Vec<Word>,
    /// The remaining guesses before this step.
    pub prev_guesses: Vec<Word>,
    /// The remaining answers before this step.
    pub prev_answers: Vec<Word>,
}

/// The solver session. All cross-command state lives here; the fields
/// are read-only to callers, and every mutation goes through a method
/// that requires and preserves [`SolverSession::wf`].
pub struct SolverSession {
    /// The configured puzzle width: every word and hint has this length.
    pub width: usize,
    /// Whether the session still accepts operations.
    pub active: bool,
    /// The legal guesses not yet played.
    pub remaining_guesses: Vec<Word>,
    /// The candidate answers consistent with every hint so far.
    pub remaining_answers: Vec<Word>,
    /// One entry per applied hint, oldest first.
    pub history: Vec<HistoryEntry>,
    /// One ranked score table per depth: the table for the initial
    /// state, then one per applied hint.
    pub score_cache: Vec<Vec<ScoreEntry>>,
}

impl SolverSession {
    /// The remaining answers right after history entry `k`: the next
    /// entry's snapshot, or the current answers for the last entry.
    pub open spec fn answers_after(&self, k: int) -> Seq<Word> {
        if k + 1 < self.history@.len() {
            self.history@[k + 1].prev_answers@
        } else {
            self.remaining_answers@
        }
    }

    /// The remaining guesses right after history entry `k`.
    pub open spec fn guesses_after(&self, k: int) -> Seq<Word> {
        if k + 1 < self.history@.len() {
            self.history@[k + 1].prev_guesses@
        } else {
            self.remaining_guesses@
        }
    }

    /// The candidate sets at the depth of history entry `k`: the
    /// snapshots that entry holds.
    pub open spec fn state_ok_at(&self, k: int) -> bool {
        let e = self.history@[k];
        &&& e.guess@.len() == self.width
        &&& e.hint@.len() == self.width
        &&& all_width(e.prev_guesses@, self.width as nat)
        &&& all_width(e.prev_answers@, self.width as nat)
        &&& distinct_views(word_views(e.prev_guesses@))
        &&& distinct_views(word_views(e.prev_answers@))
        &&& e.prev_answers@.len() <= MAX_CANDIDATES
        &&& entry_models(self.score_cache@[k]@) == rank_models(
            table_models(word_views(e.prev_guesses@), word_views(e.prev_answers@)),
        )
        &&& word_views(self.answers_after(k)) == kept_views(
            word_views(e.prev_answers@),
            e.guess@,
            e.hint@,
        )
        &&& word_views(self.guesses_after(k)) == without_view(
            word_views(e.prev_guesses@),
            e.guess@,
        )
        &&& word_views(e.removed@) == removed_views(
            word_views(e.prev_answers@),
            e.guess@,
            e.hint@,
        )
    }

    /// Well-formedness: the cache holds one table per depth; every
    /// stored word has the configured width; the candidate sets are
    /// sets; each cached table is the ranked score table of its
    /// depth's candidate sets; and consecutive depths are related by
    /// exactly the filter that the depth's hint prescribes.
    pub open spec fn wf(&self) -> bool {
        &&& self.score_cache@.len() == self.history@.len() + 1
        &&& all_width(self.remaining_guesses@, self.width as nat)
        &&& all_width(self.remaining_answers@, self.width as nat)
        &&& distinct_views(word_views(self.remaining_guesses@))
        &&& distinct_views(word_views(self.remaining_answers@))
        &&& self.remaining_answers@.len() <= MAX_CANDIDATES
        &&& entry_models(self.score_cache@.last()@) == rank_models(
            table_models(
                word_views(self.remaining_guesses@),
                word_views(self.remaining_answers@),
            ),
        )
        &&& forall|k: int| 0 <= k < self.history@.len() ==> self.state_ok_at(k)
    }

    /// Starts a session over the validated, de-duplicated word list:
    /// both candidate sets are the full list, the history is empty,
    /// and the cache holds the initial state's ranked score table.
    pub fn new(words: Vec<Word>, width: usize) -> (s: SolverSession)
        requires
            all_width(words@, width as nat),
            distinct_views(word_views(words@)),
            words@.len() <= MAX_CANDIDATES,
        ensures
            s.wf(),
            s.active,
            s.width == width,
            word_views(s.remaining_guesses@) == word_views(words@),
            word_views(s.remaining_answers@) == word_views(words@),
            s.history@.len() == 0,
            s.score_cache@.len() == 1,
    {
        let table = get_scores(&words, &words, width);
        let guesses = clone_words(&words);
        let mut score_cache: Vec<Vec<ScoreEntry>> = Vec::new();
        score_cache.push(table);
        proof {
            assert(all_width(guesses@, width as nat)) by {
                assert(forall|i: int| 0 <= i < guesses@.len()
                    ==> #[trigger] guesses@[i]@ == word_views(guesses@)[i]);
                assert(forall|i: int| 0 <= i < words@.len()
                    ==> #[trigger] words@[i]@ == word_views(words@)[i]);
            };
        }
        SolverSession {
            width,
            active: true,
            remaining_guesses: guesses,
            remaining_answers: words,
            history: Vec::new(),
            score_cache,
        }
    }

    /// Ends the session: no operation accepts a terminated session,
    /// and nothing else changes.
    pub fn exit(&mut self)
        requires
            old(self).wf(),
            old(self).active,
        ensures
            final(self).wf(),
            !final(self).active,
            final(self).width == old(self).width,
            final(self).remaining_guesses@ == old(self).remaining_guesses@,
            final(self).remaining_answers@ == old(self).remaining_answers@,
            final(self).history@ == old(self).history@,
            final(self).score_cache@ == old(self).score_cache@,
    {
        self.active = false;
        proof {
            assert(forall|k: int| 0 <= k < self.history@.len()
                ==> old(self).state_ok_at(k) == #[trigger] self.state_ok_at(k));
        }
    }

    /// Applies a played guess and its feedback: keeps exactly the
    /// answers whose own hint against the guess equals the feedback,
    /// removes the guess from the remaining guesses, records the step
    /// in the history with snapshots for undo, and caches the ranked
    /// score table of the new state.
    ///
    /// Fails with `LengthMismatch`, leaving the state unchanged, when
    /// the guess or the feedback does not have the configured width.
    /// On success it returns how many answers were removed and how
    /// many remain; a feedback inconsistent with every remaining word
    /// legally leaves the candidate set empty, and the session goes on.
    ///
    /// After a successful call every remaining answer's hint against
    /// the guess equals the feedback, and the remaining answers are a
    /// subset of the previous ones.
    pub fn hint(&mut self, guess: &Word, feedback: &Hint) -> (r: Result<
        (usize, usize),
        SolverError,
    >)
        requires
            old(self).wf(),
            old(self).active,
        ensures
            final(self).wf(),
            final(self).active,
            final(self).width == old(self).width,
            r is Ok <==> (guess@.len() == old(self).width && feedback@.len() == old(self).width),
            r is Err ==> r->Err_0 == SolverError::LengthMismatch,
            r is Err ==> final(self).history@ == old(self).history@
                && final(self).score_cache@ == old(self).score_cache@
                && final(self).remaining_answers@ == old(self).remaining_answers@
                && final(self).remaining_guesses@ == old(self).remaining_guesses@,
            r is Ok ==> word_views(final(self).remaining_answers@) == kept_views(
                word_views(old(self).remaining_answers@),
                guess@,
                feedback@,
            ),
            r is Ok ==> word_views(final(self).remaining_guesses@) == without_view(
                word_views(old(self).remaining_guesses@),
                guess@,
            ),
            r is Ok ==> final(self).history@.drop_last() == old(self).history@
                && final(self).history@.len() == old(self).history@.len() + 1,
            r is Ok ==> final(self).history@.last().guess@ == guess@
                && final(self).history@.last().hint@ == feedback@,
            r is Ok ==> word_views(final(self).history@.last().prev_answers@) == word_views(
                old(self).remaining_answers@,
            ),
            r is Ok ==> word_views(final(self).history@.last().prev_guesses@) == word_views(
                old(self).remaining_guesses@,
            ),
            r is Ok ==> word_views(final(self).history@.last().removed@) == removed_views(
                word_views(old(self).remaining_answers@),
                guess@,
                feedback@,
            ),
            r is Ok ==> final(self).score_cache@.drop_last() == old(self).score_cache@,
            r is Ok ==> r->Ok_0.0 == final(self).history@.last().removed@.len()
                && r->Ok_0.1 == final(self).remaining_answers@.len(),
            // every word kept satisfies the feedback it was kept by
            r is Ok ==> forall|k: int| 0 <= k < final(self).remaining_answers@.len()
                ==> hint_marks(guess@, #[trigger] word_views(final(self).remaining_answers@)[k])
                    == feedback@,
            // the kept answers are a subset of the previous ones
            r is Ok ==> forall|k: int| 0 <= k < final(self).remaining_answers@.len()
                ==> word_views(old(self).remaining_answers@).contains(
                    #[trigger] word_views(final(self).remaining_answers@)[k],
                ),
    {
        if guess.len() != self.width || feedback.len() != self.width {
            return Err(SolverError::LengthMismatch);
        }
        let ghost g = guess@;
        let ghost h = feedback@;
        let ghost av = word_views(self.remaining_answers@);
        let ghost gv = word_views(self.remaining_guesses@);
        let ghost pred = |a: Seq<char>| hint_marks(g, a) == h;

        // Partition the remaining answers by consistency with the feedback.
        let mut kept: Vec<Word> = Vec::new();
        let mut removed: Vec<Word> = Vec::new();
        let n = self.remaining_answers.len();
        let mut i: usize = 0;
        proof {
            reveal(Seq::filter);
            assert(av.take(0) =~= Seq::<Seq<char>>::empty());
        }
        while i < n
            invariant
                i <= n,
                n == self.remaining_answers@.len(),
                self.wf(),
                g == guess@ && h == feedback@,
                g.len() == self.width && h.len() == self.width,
                av == word_views(self.remaining_answers@),
                av.len() == n,
                word_views(kept@) == kept_views(av.take(i as int), g, h),
                word_views(removed@) == removed_views(av.take(i as int), g, h),
            decreases n - i,
        {
            let w = &self.remaining_answers[i];
            proof {
                assert(self.remaining_answers@[i as int]@.len() == self.width);
                assert(av[i as int] == self.remaining_answers@[i as int]@);
            }
            let hw = match Hint::from_guess_and_answer(guess, w) {
                Ok(x) => x,
                Err(_) => vstd::pervasive::unreached(),
            };
            let c = w.clone();
            proof {
                reveal(Seq::filter);
                assert(av.take(i + 1).drop_last() =~= av.take(i as int));
                assert(av.take(i + 1).last() == av[i as int]);
            }
            if hw.same_hint(feedback) {
                let ghost prior = kept@;
                kept.push(c);
                proof {
                    assert(word_views(prior).len() == prior.len());
                    assert(kept@ == prior.push(kept@[kept@.len() - 1]));
                    assert(word_views(kept@) =~= word_views(prior).push(av[i as int]));
                    assert(word_views(kept@) == kept_views(av.take(i + 1), g, h));
                    assert(word_views(removed@) == removed_views(av.take(i + 1), g, h));
                }
            } else {
                let ghost prior = removed@;
                removed.push(c);
                proof {
                    assert(word_views(prior).len() == prior.len());
                    assert(word_views(removed@) =~= word_views(prior).push(av[i as int]));
                    assert(word_views(removed@) == removed_views(av.take(i + 1), g, h));
                    assert(word_views(kept@) == kept_views(av.take(i + 1), g, h));
                }
            }
            i = i + 1;
        }
        proof {
            assert(av.take(n as int) =~= av);
        }

        // Drop the played guess from the remaining guesses.
        let mut new_guesses: Vec<Word> = Vec::new();
        let m = self.remaining_guesses.len();
        let mut j: usize = 0;
        proof {
            reveal(Seq::filter);
            assert(gv.take(0) =~= Seq::<Seq<char>>::empty());
        }
        while j < m
            invariant
                j <= m,
                m == self.remaining_guesses@.len(),
                self.wf(),
                g == guess@,
                gv == word_views(self.remaining_guesses@),
                gv.len() == m,
                word_views(new_guesses@) == without_view(gv.take(j as int), g),
            decreases m - j,
        {
            let w = &self.remaining_guesses[j];
            proof {
                reveal(Seq::filter);
                assert(gv[j as int] == self.remaining_guesses@[j as int]@);
                assert(gv.take(j + 1).drop_last() =~= gv.take(j as int));
                assert(gv.take(j + 1).last() == gv[j as int]);
            }
            if !w.same_word(guess) {
                let ghost prior = new_guesses@;
                new_guesses.push(w.clone());
                proof {
                    assert(word_views(prior).len() == prior.len());
                    assert(word_views(new_guesses@) =~= word_views(prior).push(gv[j as int]));
                    assert(word_views(new_guesses@) == without_view(gv.take(j + 1), g));
                }
            }
            j = j + 1;
        }
        proof {
            assert(gv.take(m as int) =~= gv);
        }

        // Snapshot the old state, install the new one, cache its table.
        let prev_answers = clone_words(&self.remaining_answers);
        let prev_guesses = clone_words(&self.remaining_guesses);
        self.remaining_answers = kept;
        self.remaining_guesses = new_guesses;
        proof {
            lemma_views_filter_sub(av, pred);
            lemma_without_sub(gv, g);
            assert(word_views(self.remaining_answers@) == av.filter(pred));
            assert(word_views(self.remaining_guesses@) == without_view(gv, g));
            assert forall|k: int| 0 <= k < self.remaining_answers@.len()
                implies #[trigger] self.remaining_answers@[k]@.len() == self.width by {
                assert(word_views(self.remaining_answers@)[k] == self.remaining_answers@[k]@);
                assert(av.contains(word_views(self.remaining_answers@)[k]));
                let w = choose|w: int| 0 <= w < av.len() && av[w]
                    == word_views(self.remaining_answers@)[k];
                assert(old(self).remaining_answers@[w]@.len() == self.width);
            }
            assert forall|k: int| 0 <= k < self.remaining_guesses@.len()
                implies #[trigger] self.remaining_guesses@[k]@.len() == self.width by {
                assert(word_views(self.remaining_guesses@)[k] == self.remaining_guesses@[k]@);
                assert(gv.contains(word_views(self.remaining_guesses@)[k]));
                let w = choose|w: int| 0 <= w < gv.len() && gv[w]
                    == word_views(self.remaining_guesses@)[k];
                assert(old(self).remaining_guesses@[w]@.len() == self.width);
            }
            assert(word_views(self.remaining_answers@).len()
                == self.remaining_answers@.len());
        }
        let table = get_scores(&self.remaining_guesses, &self.remaining_answers, self.width);
        self.score_cache.push(table);
        let removed_count = removed.len();
        let remaining_count = self.remaining_answers.len();
        let entry = HistoryEntry {
            guess: guess.clone(),
            hint: feedback.clone(),
            removed,
            prev_guesses,
            prev_answers,
        };
        let ghost old_hist_len = self.history@.len() as int;
        self.history.push(entry);
        proof {
            let fin = *self;
            let prev = *old(self);
            assert(fin.history@.drop_last() =~= prev.history@);
            assert(fin.score_cache@.drop_last() =~= prev.score_cache@);
            // prior depths keep their facts; the one before the new
            // entry now reads its snapshots instead of the live state
            assert forall|k: int| 0 <= k < fin.history@.len() implies fin.state_ok_at(k) by {
                if k < old_hist_len {
                    assert(prev.state_ok_at(k));
                    assert(fin.history@[k] == prev.history@[k]);
                    assert(fin.score_cache@[k] == prev.score_cache@[k]);
                    if k < old_hist_len - 1 {
                        assert(fin.history@[k + 1] == prev.history@[k + 1]);
                        assert(fin.answers_after(k) == prev.answers_after(k));
                        assert(fin.guesses_after(k) == prev.guesses_after(k));
                    } else {
                        assert(prev.answers_after(k) == prev.remaining_answers@);
                        assert(fin.answers_after(k) == fin.history@[k + 1].prev_answers@);
                        assert(word_views(fin.answers_after(k)) == word_views(
                            prev.answers_after(k),
                        ));
                        assert(word_views(fin.guesses_after(k)) == word_views(
                            prev.guesses_after(k),
                        ));
                    }
                } else {
                    // the new entry: its snapshots are the old state,
                    // whose table the old last cache entry holds
                    assert(fin.history@[k] == entry);
                    assert(fin.answers_after(k) == fin.remaining_answers@);
                    assert(fin.guesses_after(k) == fin.remaining_guesses@);
                    assert(fin.score_cache@[k] == prev.score_cache@[old_hist_len]);
                    assert(prev.score_cache@[old_hist_len] == prev.score_cache@.last());
                    assert(word_views(entry.prev_answers@) == word_views(
                        prev.remaining_answers@,
                    ));
                    assert(word_views(entry.prev_guesses@) == word_views(
                        prev.remaining_guesses@,
                    ));
                    assert(entry_models(fin.score_cache@[k]@) == rank_models(
                        table_models(
                            word_views(entry.prev_guesses@),
                            word_views(entry.prev_answers@),
                        ),
                    ));
                    assert(all_width(entry.prev_answers@, fin.width as nat)) by {
                        assert(forall|w: int| 0 <= w < entry.prev_answers@.len()
                            ==> #[trigger] entry.prev_answers@[w]@ == word_views(
                                entry.prev_answers@,
                            )[w]);
                        assert(forall|w: int| 0 <= w < prev.remaining_answers@.len()
                            ==> #[trigger] prev.remaining_answers@[w]@ == word_views(
                                prev.remaining_answers@,
                            )[w]);
                    };
                    assert(all_width(entry.prev_guesses@, fin.width as nat)) by {
                        assert(forall|w: int| 0 <= w < entry.prev_guesses@.len()
                            ==> #[trigger] entry.prev_guesses@[w]@ == word_views(
                                entry.prev_guesses@,
                            )[w]);
                        assert(forall|w: int| 0 <= w < prev.remaining_guesses@.len()
                            ==> #[trigger] prev.remaining_guesses@[w]@ == word_views(
                                prev.remaining_guesses@,
                            )[w]);
                    };
                    assert(entry.prev_answers@.len() == word_views(entry.prev_answers@).len());
                }
            }
            // the law clauses: every kept answer matches the feedback,
            // and comes from the previous candidate set
            assert forall|k: int| 0 <= k < fin.remaining_answers@.len() implies hint_marks(
                g,
                #[trigger] word_views(fin.remaining_answers@)[k],
            ) == h by {
                av.lemma_filter_pred(pred, k);
            }
            assert forall|k: int| 0 <= k < fin.remaining_answers@.len() implies word_views(
                prev.remaining_answers@,
            ).contains(#[trigger] word_views(fin.remaining_answers@)[k]) by {
                assert(av.contains(word_views(fin.remaining_answers@)[k]));
            }
        }
        Ok((removed_count, remaining_count))
    }


    /// The ranked score table for the current depth: the cache entry
    /// that the last `hint` (or the start of the session) computed.
    pub open spec fn current_models(&self) -> Seq<(Seq<char>, u64, u64)> {
        entry_models(self.score_cache@.last()@)
    }

    /// The first `n` entries of the current depth's ranked score
    /// table. With `strict`, the table is first narrowed to entries
    /// whose word is still a possible answer; without it, words
    /// already excluded from the answers keep their place.
    pub fn top(&self, n: usize, strict: bool) -> (r: Vec<ScoreEntry>)
        requires
            self.wf(),
            self.active,
        ensures
            !strict ==> entry_models(r@) == clipped(self.current_models(), n as int),
            strict ==> entry_models(r@) == clipped(
                strict_filter(self.current_models(), word_views(self.remaining_answers@)),
                n as int,
            ),
    {
        let ghost t = self.current_models();
        let ghost avs = word_views(self.remaining_answers@);
        let table = &self.score_cache[self.score_cache.len() - 1];
        proof {
            assert(self.score_cache@[self.score_cache@.len() - 1] == self.score_cache@.last());
            reveal(Seq::filter);
            assert(t.take(0) =~= Seq::<(Seq<char>, u64, u64)>::empty());
            assert(strict_filter(t.take(0), avs) =~= Seq::<(Seq<char>, u64, u64)>::empty());
        }
        let mut out: Vec<ScoreEntry> = Vec::new();
        let mut i: usize = 0;
        while i < table.len()
            invariant
                i <= table@.len(),
                t == entry_models(table@),
                t.len() == table@.len(),
                avs == word_views(self.remaining_answers@),
                self.wf(),
                out@.len() <= n,
                !strict ==> entry_models(out@) == clipped(t.take(i as int), n as int),
                strict ==> entry_models(out@) == clipped(
                    strict_filter(t.take(i as int), avs),
                    n as int,
                ),
            decreases table@.len() - i,
        {
            let ghost fi = if strict {
                strict_filter(t.take(i as int), avs)
            } else {
                t.take(i as int)
            };
            let ghost fi1 = if strict {
                strict_filter(t.take(i + 1), avs)
            } else {
                t.take(i + 1)
            };
            proof {
                reveal(Seq::filter);
                assert(t.take(i + 1).drop_last() =~= t.take(i as int));
                assert(t.take(i + 1).last() == t[i as int]);
                assert(t[i as int] == table@[i as int]@);
            }
            let keep = if strict {
                contains_word(&self.remaining_answers, &table[i].word)
            } else {
                true
            };
            proof {
                if strict {
                    assert(keep <==> avs.contains(t[i as int].0));
                    assert(fi1 == if avs.contains(t[i as int].0) {
                        fi.push(t[i as int])
                    } else {
                        fi
                    });
                } else {
                    assert(fi1 =~= fi.push(t[i as int]));
                }
            }
            if keep && out.len() < n {
                let ghost prior = out@;
                out.push(table[i].clone());
                proof {
                    assert(entry_models(prior).len() == prior.len());
                    assert(entry_models(out@) =~= entry_models(prior).push(t[i as int]));
                    // the clipped prefix grows with the pushed row
                    assert(fi.len() == prior.len());
                    assert(clipped(fi1, n as int) == fi1);
                    assert(entry_models(out@) == clipped(fi1, n as int));
                }
            } else {
                proof {
                    if keep {
                        // the table already holds n rows; one more
                        // filtered row lies beyond the clip
                        assert(out@.len() == n);
                        assert(entry_models(out@).len() == n);
                        assert(clipped(fi, n as int).len() == n);
                        assert(fi.len() >= n);
                        assert(fi1.take(n as int) =~= fi.take(n as int));
                        assert(clipped(fi1, n as int) == clipped(fi, n as int));
                    }
                    assert(entry_models(out@) == clipped(fi1, n as int));
                }
            }
            i = i + 1;
        }
        proof {
            assert(t.take(t.len() as int) =~= t);
        }
        out
    }

    /// Looks a word up in the current depth's score table: its rank
    /// (the first position holding it) and its score row. A word the
    /// table does not list reports `WordNotFound`; the session is
    /// unaffected either way.
    pub fn score(&self, word: &Word) -> (r: Result<(usize, ScoreEntry), SolverError>)
        requires
            self.wf(),
            self.active,
        ensures
            r is Ok <==> (exists|k: int| 0 <= k < self.current_models().len()
                && (#[trigger] self.current_models()[k]).0 == word@),
            r is Err ==> r->Err_0 == SolverError::WordNotFound,
            r is Ok ==> {
                let (rank, e) = r->Ok_0;
                &&& rank < self.current_models().len()
                &&& e@ == self.current_models()[rank as int]
                &&& e@.0 == word@
                &&& forall|j: int| 0 <= j < rank ==> (#[trigger] self.current_models()[j]).0
                    != word@
            },
    {
        let ghost t = self.current_models();
        let table = &self.score_cache[self.score_cache.len() - 1];
        proof {
            assert(self.score_cache@[self.score_cache@.len() - 1] == self.score_cache@.last());
        }
        let mut i: usize = 0;
        while i < table.len()
            invariant
                i <= table@.len(),
                t == self.current_models(),
                t == entry_models(table@),
                t.len() == table@.len(),
                forall|j: int| 0 <= j < i ==> (#[trigger] t[j]).0 != word@,
            decreases table@.len() - i,
        {
            if table[i].word.same_word(word) {
                proof {
                    assert(t[i as int] == table@[i as int]@);
                    assert((t[i as int]).0 == word@);
                    assert(0 <= i < t.len() && (t[i as int]).0 == word@);
                }
                return Ok((i, table[i].clone()));
            }
            proof {
                assert(t[i as int] == table@[i as int]@);
            }
            i = i + 1;
        }
        proof {
            if exists|k: int| 0 <= k < t.len() && (#[trigger] t[k]).0 == word@ {
                let k = choose|k: int| 0 <= k < t.len() && (#[trigger] t[k]).0 == word@;
                assert((t[k]).0 != word@);
            }
        }
        Err(SolverError::WordNotFound)
    }

    /// Lists each applied hint with the number of answers it removed,
    /// the number it started from, and the number it left: the
    /// reduction statistics of the whole session, oldest step first.
    pub fn history_report(&self) -> (r: Vec<HistoryLine>)
        requires
            self.wf(),
        ensures
            r@.len() == self.history@.len(),
            forall|k: int| 0 <= k < r@.len() ==> {
                let line = #[trigger] r@[k];
                let e = self.history@[k];
                &&& line.guess@ == e.guess@
                &&& line.hint@ == e.hint@
                &&& line.removed == e.removed@.len()
                &&& line.before == e.prev_answers@.len()
                &&& line.remaining == self.answers_after(k).len()
                &&& line.remaining == line.before - line.removed
            },
    {
        let mut out: Vec<HistoryLine> = Vec::new();
        let mut k: usize = 0;
        while k < self.history.len()
            invariant
                k <= self.history@.len(),
                self.wf(),
                out@.len() == k,
                forall|j: int| 0 <= j < k ==> {
                    let line = #[trigger] out@[j];
                    let e = self.history@[j];
                    &&& line.guess@ == e.guess@
                    &&& line.hint@ == e.hint@
                    &&& line.removed == e.removed@.len()
                    &&& line.before == e.prev_answers@.len()
                    &&& line.remaining == self.answers_after(j).len()
                    &&& line.remaining == line.before - line.removed
                },
            decreases self.history@.len() - k,
        {
            let e = &self.history[k];
            let before = e.prev_answers.len();
            let removed = e.removed.len();
            proof {
                assert(self.state_ok_at(k as int));
                let av = word_views(e.prev_answers@);
                lemma_partition_len(av, e.guess@, e.hint@);
                assert(av.len() == e.prev_answers@.len());
                assert(word_views(e.removed@).len() == e.removed@.len());
                assert(word_views(self.answers_after(k as int)).len() == self.answers_after(
                    k as int,
                ).len());
                assert(removed <= before);
                assert(self.answers_after(k as int).len() == before - removed);
            }
            let remaining = before - removed;
            out.push(
                HistoryLine {
                    guess: e.guess.clone(),
                    hint: e.hint.clone(),
                    removed,
                    before,
                    remaining,
                },
            );
            k = k + 1;
        }
        out
    }

    /// Reverts the last applied hint, restoring both candidate sets,
    /// the history, and the score cache to their prior values. With an
    /// empty history there is nothing to undo: the state is left
    /// unchanged and `false` reports the no-op.
    pub fn undo(&mut self) -> (r: bool)
        requires
            old(self).wf(),
            old(self).active,
        ensures
            final(self).wf(),
            final(self).active,
            final(self).width == old(self).width,
            r <==> old(self).history@.len() > 0,
            !r ==> final(self).history@ == old(self).history@,
            !r ==> final(self).score_cache@ == old(self).score_cache@,
            !r ==> final(self).remaining_answers@ == old(self).remaining_answers@,
            !r ==> final(self).remaining_guesses@ == old(self).remaining_guesses@,
            r ==> final(self).history@ == old(self).history@.drop_last(),
            r ==> final(self).score_cache@ == old(self).score_cache@.drop_last(),
            r ==> final(self).remaining_answers@ == old(self).history@.last().prev_answers@,
            r ==> final(self).remaining_guesses@ == old(self).history@.last().prev_guesses@,
    {
        match self.history.pop() {
            None => false,
            Some(e) => {
                self.score_cache.pop();
                self.remaining_answers = e.prev_answers;
                self.remaining_guesses = e.prev_guesses;
                proof {
                    let n = self.history@.len() as int;
                    // the popped entry's snapshots become the current state
                    assert(old(self).state_ok_at(n));
                    assert forall|k: int| 0 <= k < n implies self.state_ok_at(k) by {
                        assert(old(self).state_ok_at(k));
                        assert(self.history@[k] == old(self).history@[k]);
                        assert(self.score_cache@[k] == old(self).score_cache@[k]);
                        if k < n - 1 {
                            assert(self.history@[k + 1] == old(self).history@[k + 1]);
                            assert(self.answers_after(k) == old(self).answers_after(k));
                            assert(self.guesses_after(k) == old(self).guesses_after(k));
                        } else {
                            assert(old(self).answers_after(k) == old(self).history@[k
                                + 1].prev_answers@);
                            assert(self.answers_after(k) == self.remaining_answers@);
                            assert(self.remaining_answers@ == old(self).history@[k
                                + 1].prev_answers@);
                            assert(self.guesses_after(k) == old(self).guesses_after(k));
                        }
                    }
                }
                true
            }
        }
    }
}

/// A filtered view sequence keeps only views of the original: it is no
/// longer, each of its elements occurs in the original, and filtering
/// a set of views yields a set of views.
pub proof fn lemma_views_filter_sub(vs: Seq<Seq<char>>, pred: spec_fn(Seq<char>) -> bool)
    ensures
        vs.filter(pred).len() <= vs.len(),
        forall|k: int| 0 <= k < vs.filter(pred).len() ==> vs.contains(#[trigger] vs.filter(pred)[k]),
        distinct_views(vs) ==> distinct_views(vs.filter(pred)),
    decreases vs.len(),
{
    reveal(Seq::filter);
    let r = vs.filter(pred);
    if vs.len() == 0 {
    } else {
        let dl = vs.drop_last();
        lemma_views_filter_sub(dl, pred);
        assert forall|k: int| 0 <= k < r.len() implies vs.contains(#[trigger] r[k]) by {
            if pred(vs.last()) && k == r.len() - 1 {
                assert(r[k] == vs.last());
                assert(vs[vs.len() - 1] == vs.last());
            } else {
                assert(r[k] == dl.filter(pred)[k]);
                assert(dl.contains(r[k]));
                let w = choose|w: int| 0 <= w < dl.len() && dl[w] == r[k];
                assert(vs[w] == r[k]);
            }
        }
        if distinct_views(vs) {
            assert(distinct_views(dl)) by {
                assert(forall|i: int| 0 <= i < dl.len() ==> dl[i] == #[trigger] vs[i]);
            };
            assert(distinct_views(dl.filter(pred)));
            if pred(vs.last()) {
                assert forall|i: int, j: int| 0 <= i < j < r.len() implies #[trigger] r[i]
                    !== #[trigger] r[j] by {
                    if j == r.len() - 1 {
                        assert(r[j] == vs.last());
                        assert(r[i] == dl.filter(pred)[i]);
                        assert(dl.contains(r[i]));
                        let w = choose|w: int| 0 <= w < dl.len() && dl[w] == r[i];
                        assert(vs[w] == r[i]);
                        assert(vs[w] !== vs[vs.len() - 1]);
                    } else {
                        assert(r[i] == dl.filter(pred)[i]);
                        assert(r[j] == dl.filter(pred)[j]);
                    }
                }
            }
        }
    }
}

/// [`lemma_views_filter_sub`], specialized to [`without_view`].
pub proof fn lemma_without_sub(gvs: Seq<Seq<char>>, g: Seq<char>)
    ensures
        without_view(gvs, g).len() <= gvs.len(),
        forall|k: int| 0 <= k < without_view(gvs, g).len() ==> gvs.contains(
            #[trigger] without_view(gvs, g)[k],
        ),
        distinct_views(gvs) ==> distinct_views(without_view(gvs, g)),
    decreases gvs.len(),
{
    reveal(Seq::filter);
    let r = without_view(gvs, g);
    if gvs.len() == 0 {
    } else {
        let dl = gvs.drop_last();
        lemma_without_sub(dl, g);
        assert forall|k: int| 0 <= k < r.len() implies gvs.contains(#[trigger] r[k]) by {
            if !(gvs.last() == g) && k == r.len() - 1 {
                assert(r[k] == gvs.last());
                assert(gvs[gvs.len() - 1] == gvs.last());
            } else {
                assert(r[k] == without_view(dl, g)[k]);
                assert(dl.contains(r[k]));
                let w = choose|w: int| 0 <= w < dl.len() && dl[w] == r[k];
                assert(gvs[w] == r[k]);
            }
        }
        if distinct_views(gvs) {
            assert(distinct_views(dl)) by {
                assert(forall|i: int| 0 <= i < dl.len() ==> dl[i] == #[trigger] gvs[i]);
            };
            assert(distinct_views(without_view(dl, g)));
            if !(gvs.last() == g) {
                assert forall|i: int, j: int| 0 <= i < j < r.len() implies #[trigger] r[i]
                    !== #[trigger] r[j] by {
                    if j == r.len() - 1 {
                        assert(r[j] == gvs.last());
                        assert(r[i] == without_view(dl, g)[i]);
                        assert(dl.contains(r[i]));
                        let w = choose|w: int| 0 <= w < dl.len() && dl[w] == r[i];
                        assert(gvs[w] == r[i]);
                        assert(gvs[w] !== gvs[gvs.len() - 1]);
                    } else {
                        assert(r[i] == without_view(dl, g)[i]);
                        assert(r[j] == without_view(dl, g)[j]);
                    }
                }
            }
        }
    }
}

/// Copies a word list: the copy holds the same letter sequences.
pub fn clone_words(words: &Vec<Word>) -> (r: Vec<Word>)
    ensures
        word_views(r@) == word_views(words@),
{
    let mut out: Vec<Word> = Vec::new();
    let mut i: usize = 0;
    while i < words.len()
        invariant
            i <= words@.len(),
            word_views(out@) == word_views(words@).take(i as int),
        decreases words@.len() - i,
    {
        let ghost prior = out@;
        let w = words[i].clone();
        proof {
            assert(w@ == word_views(words@)[i as int]);
        }
        out.push(w);
        proof {
            assert(word_views(prior).len() == prior.len());
            assert(prior.len() == i);
            assert(out@ == prior.push(w));
            assert forall|k: int| 0 <= k < i + 1 implies word_views(out@)[k] == word_views(
                words@,
            ).take(i + 1)[k] by {
                assert(word_views(out@)[k] == out@[k]@);
                if k < i {
                    assert(out@[k] == prior[k]);
                    assert(word_views(prior)[k] == prior[k]@);
                    assert(word_views(prior)[k] == word_views(words@).take(i as int)[k]);
                }
            }
            assert(word_views(out@) =~= word_views(words@).take(i + 1));
        }
        i = i + 1;
    }
    proof {
        assert(word_views(words@).take(words@.len() as int) =~= word_views(words@));
    }
    out
}

/// A table clipped to its first `n` rows (all of them when it is
/// shorter).
pub open spec fn clipped(t: Seq<(Seq<char>, u64, u64)>, n: int) -> Seq<(Seq<char>, u64, u64)> {
    if n <= t.len() {
        t.take(n)
    } else {
        t
    }
}

/// The rows of a score table whose word is still a candidate answer.
pub open spec fn strict_filter(t: Seq<(Seq<char>, u64, u64)>, avs: Seq<Seq<char>>) -> Seq<
    (Seq<char>, u64, u64),
> {
    t.filter(|m: (Seq<char>, u64, u64)| avs.contains(m.0))
}

/// One line of the history listing: a past guess, its feedback, and
/// how it cut the candidate answers down.
#[derive(Debug, PartialEq, Eq)]
pub struct HistoryLine {
    /// The played guess.
    pub guess: Word,
    /// The feedback it received.
    pub hint: Hint,
    /// How many answers the step removed.
    pub removed: usize,
    /// How many answers there were before the step.
    pub before: usize,
    /// How many answers were left after the step.
    pub remaining: usize,
}

/// The two halves of the partition by a feedback cover the whole:
/// kept and removed counts sum to the total.
pub proof fn lemma_partition_len(avs: Seq<Seq<char>>, g: Seq<char>, h: Seq<LetterHint>)
    ensures
        kept_views(avs, g, h).len() + removed_views(avs, g, h).len() == avs.len(),
    decreases avs.len(),
{
    reveal(Seq::filter);
    if avs.len() > 0 {
        lemma_partition_len(avs.drop_last(), g, h);
    }
}

/// Whether a word list holds a word with the given letters.
pub fn contains_word(words: &Vec<Word>, w: &Word) -> (r: bool)
    ensures
        r <==> word_views(words@).contains(w@),
{
    let mut i: usize = 0;
    while i < words.len()
        invariant
            i <= words@.len(),
            forall|j: int| 0 <= j < i ==> word_views(words@)[j] !== w@,
        decreases words@.len() - i,
    {
        if words[i].same_word(w) {
            proof {
                assert(word_views(words@)[i as int] == w@);
            }
            return true;
        }
        proof {
            assert(word_views(words@)[i as int] == words@[i as int]@);
        }
        i = i + 1;
    }
    proof {
        if word_views(words@).contains(w@) {
            let j = choose|j: int| 0 <= j < word_views(words@).len() && word_views(words@)[j]
                == w@;
            assert(word_views(words@)[j] !== w@);
        }
    }
    false
}

/// Applying a hint and then undoing it restores the candidate sets,
/// the history, and the score cache to their prior values: the round
/// trip is exact. The premises are the contracts of
/// [`SolverSession::hint`] (relating `pre` to `mid`) and of
/// [`SolverSession::undo`] (relating `mid` to `post`).
pub proof fn lemma_hint_undo_round_trip(
    pre: SolverSession,
    mid: SolverSession,
    post: SolverSession,
)
    requires
        mid.history@.len() == pre.history@.len() + 1,
        mid.history@.drop_last() == pre.history@,
        mid.score_cache@.drop_last() == pre.score_cache@,
        word_views(mid.history@.last().prev_answers@) == word_views(pre.remaining_answers@),
        word_views(mid.history@.last().prev_guesses@) == word_views(pre.remaining_guesses@),
        post.history@ == mid.history@.drop_last(),
        post.score_cache@ == mid.score_cache@.drop_last(),
        post.remaining_answers@ == mid.history@.last().prev_answers@,
        post.remaining_guesses@ == mid.history@.last().prev_guesses@,
    ensures
        post.history@ == pre.history@,
        post.score_cache@ == pre.score_cache@,
        word_views(post.remaining_answers@) == word_views(pre.remaining_answers@),
        word_views(post.remaining_guesses@) == word_views(pre.remaining_guesses@),
{
}

} // verus!
