//! What holds of every guess folded into the solver: the clues it leaves,
//! the candidates it keeps, and why honest scoring never loses the answer.
use vstd::prelude::*;
use crate::letters::{all_letters, letter, letter_count, letter_index, lower, lower_count, upper,
    upper_count, uppercase};
use crate::model::{upper_word, GuessError, SolverModel};
use crate::order::{lex_lt, strictly_sorted};

verus! {

/// A word of ASCII capitals, as the answer always is.
pub open spec fn capitals(w: Seq<u8>) -> bool {
    forall|i: int| 0 <= i < w.len() ==> upper(#[trigger] w[i])
}

/// The smaller of two integers.
pub open spec fn min_int(a: int, b: int) -> int {
    if a < b {
        a
    } else {
        b
    }
}

/// `guess` and `wrongs` are how a player types the score Wordle gives `guess`
/// against `answer`: a capital exactly where the guess has the answer's
/// letter (green), and, for each letter, as many wrong-position (yellow)
/// marks as the answer has copies left over after the greens, but no more
/// than the guess has non-green copies; every other letter small (gray).
pub open spec fn honest_feedback(answer: Seq<u8>, guess: Seq<u8>, wrongs: Seq<u8>) -> bool {
    &&& guess.len() == answer.len()
    &&& all_letters(guess)
    &&& all_letters(wrongs)
    &&& forall|i: int|
        0 <= i < guess.len() ==> (upper(#[trigger] guess[i]) <==> answer[i] == uppercase(guess[i]))
    &&& forall|k: int|
        0 <= k < 26 ==> #[trigger] letter_count(wrongs, k) == min_int(
            letter_count(answer, k) - upper_count(guess, k),
            lower_count(guess, k) as int,
        )
}

/// Sum over the letter indexes below `n` of the count of each in `s`.
pub open spec fn sum_letter_counts(s: Seq<u8>, n: int) -> int
    decreases n,
{
    if n <= 0 {
        0
    } else {
        sum_letter_counts(s, n - 1) + letter_count(s, n - 1)
    }
}

/// Sum over the letter indexes below `n` of the count of each as a small
/// letter in `s`.
pub open spec fn sum_lower_counts(s: Seq<u8>, n: int) -> int
    decreases n,
{
    if n <= 0 {
        0
    } else {
        sum_lower_counts(s, n - 1) + lower_count(s, n - 1)
    }
}

proof fn lemma_sum_letter_split(s: Seq<u8>, n: int)
    requires
        s.len() > 0,
    ensures
        sum_letter_counts(s, n) == sum_letter_counts(s.drop_last(), n) + if 0 <= letter_index(
            s.last(),
        ) < n {
            1int
        } else {
            0int
        },
    decreases n,
{
    if n > 0 {
        lemma_sum_letter_split(s, n - 1);
    }
}

proof fn lemma_sum_lower_split(s: Seq<u8>, n: int)
    requires
        s.len() > 0,
    ensures
        sum_lower_counts(s, n) == sum_lower_counts(s.drop_last(), n) + if lower(s.last()) && 0
            <= letter_index(s.last()) < n {
            1int
        } else {
            0int
        },
    decreases n,
{
    if n > 0 {
        lemma_sum_lower_split(s, n - 1);
    }
}

/// A word of letters has as many letters, counted by kind, as it is long.
proof fn lemma_sum_letter_counts(s: Seq<u8>)
    requires
        all_letters(s),
    ensures
        sum_letter_counts(s, 26) == s.len(),
    decreases s.len(),
{
    if s.len() > 0 {
        assert(letter(s[s.len() - 1]));
        assert forall|i: int| 0 <= i < s.drop_last().len() implies letter(
            #[trigger] s.drop_last()[i],
        ) by {
            assert(s.drop_last()[i] == s[i]);
        }
        lemma_sum_letter_counts(s.drop_last());
        lemma_sum_letter_split(s, 26);
    } else {
        lemma_sum_zero(s, 26);
    }
}

proof fn lemma_sum_zero(s: Seq<u8>, n: int)
    requires
        s.len() == 0,
    ensures
        sum_letter_counts(s, n) == 0,
        sum_lower_counts(s, n) == 0,
    decreases n,
{
    if n > 0 {
        lemma_sum_zero(s, n - 1);
    }
}

/// A word has no more small letters, counted by kind, than it is long.
proof fn lemma_sum_lower_counts(s: Seq<u8>)
    ensures
        sum_lower_counts(s, 26) <= s.len(),
    decreases s.len(),
{
    if s.len() > 0 {
        lemma_sum_lower_counts(s.drop_last());
        lemma_sum_lower_split(s, 26);
    } else {
        lemma_sum_zero(s, 26);
    }
}

proof fn lemma_sum_le(a: Seq<u8>, b: Seq<u8>, n: int)
    requires
        forall|k: int| 0 <= k < n ==> #[trigger] letter_count(a, k) <= lower_count(b, k),
    ensures
        sum_letter_counts(a, n) <= sum_lower_counts(b, n),
    decreases n,
{
    if n > 0 {
        lemma_sum_le(a, b, n - 1);
    }
}

/// Every copy of a letter in a word of letters is a capital or a small one.
proof fn lemma_count_split(s: Seq<u8>, k: int)
    requires
        all_letters(s),
    ensures
        letter_count(s, k) == upper_count(s, k) + lower_count(s, k),
    decreases s.len(),
{
    if s.len() > 0 {
        assert(letter(s[s.len() - 1]));
        assert forall|i: int| 0 <= i < s.drop_last().len() implies letter(
            #[trigger] s.drop_last()[i],
        ) by {
            assert(s.drop_last()[i] == s[i]);
        }
        lemma_count_split(s.drop_last(), k);
    }
}

/// The greens of a letter never outnumber the answer's copies of it.
proof fn lemma_greens_within_answer(answer: Seq<u8>, guess: Seq<u8>, k: int)
    requires
        guess.len() == answer.len(),
        forall|i: int|
            0 <= i < guess.len() ==> (upper(#[trigger] guess[i]) ==> answer[i] == uppercase(
                guess[i],
            )),
    ensures
        upper_count(guess, k) <= letter_count(answer, k),
    decreases guess.len(),
{
    if guess.len() > 0 {
        let n = guess.len() - 1;
        assert forall|i: int|
            0 <= i < guess.drop_last().len() && upper(#[trigger] guess.drop_last()[i]) implies
            answer.drop_last()[i] == uppercase(guess.drop_last()[i]) by {
            assert(guess.drop_last()[i] == guess[i]);
            assert(answer.drop_last()[i] == answer[i]);
        }
        lemma_greens_within_answer(answer.drop_last(), guess.drop_last(), k);
        if upper(guess[n]) {
            assert(answer[n] == uppercase(guess[n]));
        }
    }
}

/// Among a strictly sorted list, a filter keeps only words of the list, and
/// keeps them strictly sorted.
proof fn lemma_filter_sorted(s: Seq<Seq<u8>>, pred: spec_fn(Seq<u8>) -> bool)
    requires
        strictly_sorted(s),
    ensures
        strictly_sorted(s.filter(pred)),
        forall|i: int|
            0 <= i < s.filter(pred).len() ==> s.contains(#[trigger] s.filter(pred)[i]),
    decreases s.len(),
{
    reveal(Seq::filter);
    if s.len() > 0 {
        let d = s.drop_last();
        assert(strictly_sorted(d)) by {
            assert forall|i: int, j: int| 0 <= i < j < d.len() implies lex_lt(
                #[trigger] d[i],
                #[trigger] d[j],
            ) by {
                assert(d[i] == s[i] && d[j] == s[j]);
            }
        }
        lemma_filter_sorted(d, pred);
        let f = d.filter(pred);
        assert forall|i: int| 0 <= i < f.len() implies lex_lt(#[trigger] f[i], s.last()) by {
            let p = choose|p: int| 0 <= p < d.len() && d[p] == f[i];
            assert(s[p] == f[i]);
        }
        assert forall|i: int| 0 <= i < f.len() implies s.contains(#[trigger] f[i]) by {
            let p = choose|p: int| 0 <= p < d.len() && d[p] == f[i];
            assert(s[p] == f[i]);
        }
        if pred(s.last()) {
            let g = f.push(s.last());
            assert(s.filter(pred) == g);
            assert forall|i: int, j: int| 0 <= i < j < g.len() implies lex_lt(
                #[trigger] g[i],
                #[trigger] g[j],
            ) by {
                if j < f.len() {
                    assert(g[i] == f[i] && g[j] == f[j]);
                } else {
                    assert(g[i] == f[i]);
                }
            }
            assert forall|i: int| 0 <= i < g.len() implies s.contains(#[trigger] g[i]) by {
                if i < f.len() {
                    assert(g[i] == f[i]);
                } else {
                    assert(s[s.len() - 1] == g[i]);
                }
            }
        }
    }
}

/// If some position has an objection, a first one does.
proof fn lemma_first_position_issue(m: SolverModel, guess: Seq<u8>, i: int)
    requires
        0 <= i < m.len,
        m.position_issue(guess, i) is Some,
    ensures
        exists|j: int| m.first_position_issue(guess, j),
    decreases i,
{
    if exists|j: int| 0 <= j < i && (#[trigger] m.position_issue(guess, j)) is Some {
        let j = choose|j: int| 0 <= j < i && (#[trigger] m.position_issue(guess, j)) is Some;
        lemma_first_position_issue(m, guess, j);
    } else {
        assert(m.first_position_issue(guess, i));
    }
}

/// The answer survives honest scoring: if the clues so far allow the answer,
/// and a guess is scored against it truthfully, the new clues still allow it,
/// and it stays a candidate unless it is the very word guessed (a win).
pub proof fn lemma_answer_survives(
    m: SolverModel,
    answer: Seq<u8>,
    guess: Seq<u8>,
    wrongs: Seq<u8>,
)
    requires
        m.inv(),
        answer.len() == m.len,
        capitals(answer),
        m.admits(answer),
        honest_feedback(answer, guess, wrongs),
    ensures
        m.after_guess(guess, wrongs).admits(answer),
        m.current.contains(answer) && answer != upper_word(guess) ==> m.after_guess(
            guess,
            wrongs,
        ).current.contains(answer),
{
    let c = m.with_guess_clues(guess, wrongs);
    let a = m.after_guess(guess, wrongs);
    assert(guess.take(m.len as int) =~= guess);
    assert forall|k: int| 0 <= k < 26 implies c.min_counts[k] <= #[trigger] letter_count(
        answer,
        k,
    ) <= c.max_counts[k] by {
        lemma_count_split(guess, k);
        lemma_greens_within_answer(answer, guess, k);
        assert(letter_count(wrongs, k) == min_int(
            letter_count(answer, k) - upper_count(guess, k),
            lower_count(guess, k) as int,
        ));
    }
    assert forall|p: int| 0 <= p < m.len implies (#[trigger] c.correct[p] matches Some(g)
        ==> answer[p] == g) by {
        assert(upper(guess[p]) <==> answer[p] == uppercase(guess[p]));
    }
    assert forall|p: int| 0 <= p < m.len implies !(#[trigger] c.wrong[p])[letter_index(
        answer[p],
    )] by {
        assert(upper(answer[p]));
        assert(upper(guess[p]) <==> answer[p] == uppercase(guess[p]));
        assert(letter(guess[p]));
        assert(m.wrong[p].len() == 26);
    }
    assert(c.admits(answer));
    assert(a.admits(answer));
    if m.current.contains(answer) && answer != upper_word(guess) {
        let i = choose|i: int| 0 <= i < m.current.len() && m.current[i] == answer;
        let pred = c.keeps(upper_word(guess));
        assert(pred(m.current[i]));
        m.current.lemma_filter_contains(pred, i);
    }
}

/// Honest scoring is never refused: a guess scored truthfully against an
/// answer that the clues so far allow passes every check.
pub proof fn lemma_honest_feedback_accepted(
    m: SolverModel,
    answer: Seq<u8>,
    guess: Seq<u8>,
    wrongs: Seq<u8>,
)
    requires
        m.inv(),
        answer.len() == m.len,
        capitals(answer),
        m.admits(answer),
        honest_feedback(answer, guess, wrongs),
    ensures
        m.verdict(guess, wrongs) == Ok::<(), GuessError>(()),
{
    assert forall|i: int| 0 <= i < m.len implies (#[trigger] m.position_issue(guess, i))
        is None by {
        assert(upper(guess[i]) <==> answer[i] == uppercase(guess[i]));
        assert(letter(guess[i]));
    }
    assert(!exists|i: int| m.first_position_issue(guess, i));
    assert forall|k: int| 0 <= k < 26 implies #[trigger] letter_count(wrongs, k) <= lower_count(
        guess,
        k,
    ) by {
        assert(letter_count(wrongs, k) == min_int(
            letter_count(answer, k) - upper_count(guess, k),
            lower_count(guess, k) as int,
        ));
    }
    lemma_sum_letter_counts(wrongs);
    lemma_sum_lower_counts(guess);
    lemma_sum_le(wrongs, guess, 26);
    assert(wrongs.len() <= m.len);
    assert forall|k: int| 0 <= k < 26 implies (#[trigger] m.letter_issue(guess, wrongs, k))
        is None by {
        assert(letter_count(wrongs, k) == min_int(
            letter_count(answer, k) - upper_count(guess, k),
            lower_count(guess, k) as int,
        ));
        assert(m.min_counts[k] <= letter_count(answer, k) <= m.max_counts[k]);
    }
    assert(!exists|k: int| m.first_letter_issue(guess, wrongs, k));
}

/// A guess that passes the checks never moves a pinned letter: every
/// position fixed before keeps its letter.
pub proof fn lemma_valid_guess_keeps_greens(m: SolverModel, guess: Seq<u8>, wrongs: Seq<u8>)
    requires
        m.inv(),
        m.verdict(guess, wrongs) is Ok,
    ensures
        forall|i: int|
            0 <= i < m.len && (#[trigger] m.correct[i]) is Some ==> m.after_guess(
                guess,
                wrongs,
            ).correct[i] == m.correct[i],
{
    assert forall|i: int| 0 <= i < m.len && (#[trigger] m.correct[i]) is Some implies m.after_guess(
        guess,
        wrongs,
    ).correct[i] == m.correct[i] by {
        if m.position_issue(guess, i) is Some {
            lemma_first_position_issue(m, guess, i);
        }
    }
}

/// Folding in a guess only tightens the clues and only narrows the
/// candidates: floors never fall, caps never rise, every remaining candidate
/// was one before, the guessed word is gone, and an alphabetized list stays
/// alphabetized.
pub proof fn lemma_guess_narrows(m: SolverModel, guess: Seq<u8>, wrongs: Seq<u8>)
    requires
        m.inv(),
    ensures
        forall|k: int|
            0 <= k < 26 ==> #[trigger] m.after_guess(guess, wrongs).min_counts[k]
                >= m.min_counts[k],
        forall|k: int|
            0 <= k < 26 ==> #[trigger] m.after_guess(guess, wrongs).max_counts[k]
                <= m.max_counts[k],
        forall|w: Seq<u8>|
            #[trigger] m.after_guess(guess, wrongs).current.contains(w) ==> m.current.contains(w)
                && w != upper_word(guess),
        strictly_sorted(m.current) ==> strictly_sorted(m.after_guess(guess, wrongs).current),
{
    let c = m.with_guess_clues(guess, wrongs);
    let pred = c.keeps(upper_word(guess));
    let f = m.current.filter(pred);
    assert forall|w: Seq<u8>| #[trigger] f.contains(w) implies m.current.contains(w) && w
        != upper_word(guess) by {
        let i = choose|i: int| 0 <= i < f.len() && f[i] == w;
        m.current.lemma_filter_pred(pred, i);
        assert(m.current.filter(pred) =~= f);
        lemma_filter_subset(m.current, pred, i);
    }
    if strictly_sorted(m.current) {
        lemma_filter_sorted(m.current, pred);
    }
}

/// Whatever a filter keeps comes from the list filtered.
proof fn lemma_filter_subset<A>(s: Seq<A>, pred: spec_fn(A) -> bool, i: int)
    requires
        0 <= i < s.filter(pred).len(),
    ensures
        s.contains(s.filter(pred)[i]),
    decreases s.len(),
{
    reveal(Seq::filter);
    if s.len() > 0 {
        let d = s.drop_last();
        let f = d.filter(pred);
        if i < f.len() {
            if pred(s.last()) {
                assert(s.filter(pred)[i] == f.push(s.last())[i]);
            }
            lemma_filter_subset(d, pred, i);
            let p = choose|p: int| 0 <= p < d.len() && d[p] == f[i];
            assert(s[p] == d[p]);
        } else {
            assert(s[s.len() - 1] == s.filter(pred)[i]);
        }
    }
}

/// Every candidate left after a guess agrees with how it was scored: a
/// capital's letter sits at its position; a small letter is not at its own
/// position; each letter appears at least as often as the guess proved; a
/// letter with a gray copy appears exactly as often as proved; and the
/// guessed word itself is gone.
pub proof fn lemma_candidates_match_score(m: SolverModel, guess: Seq<u8>, wrongs: Seq<u8>, w: Seq<u8>)
    requires
        m.inv(),
        guess.len() == m.len,
        all_letters(guess),
        m.after_guess(guess, wrongs).current.contains(w),
    ensures
        forall|i: int| 0 <= i < m.len && upper(#[trigger] guess[i]) ==> w[i] == guess[i],
        forall|i: int|
            0 <= i < m.len && lower(#[trigger] guess[i]) ==> letter_index(w[i]) != letter_index(
                guess[i],
            ),
        forall|k: int| 0 <= k < 26 ==> #[trigger] letter_count(w, k) >= m.proved(guess, wrongs, k),
        forall|k: int|
            0 <= k < 26 && letter_count(guess, k) > m.proved(guess, wrongs, k) ==> #[trigger] letter_count(w, k)
                == m.proved(guess, wrongs, k),
        w != upper_word(guess),
{
    let c = m.with_guess_clues(guess, wrongs);
    let pred = c.keeps(upper_word(guess));
    let f = m.current.filter(pred);
    let i = choose|i: int| 0 <= i < f.len() && f[i] == w;
    m.current.lemma_filter_pred(pred, i);
    assert(c.admits(w));
    assert forall|p: int| 0 <= p < m.len && upper(#[trigger] guess[p]) implies w[p] == guess[p] by {
        assert(c.correct[p] == Some(guess[p]));
    }
    assert forall|p: int| 0 <= p < m.len && lower(#[trigger] guess[p]) implies letter_index(w[p])
        != letter_index(guess[p]) by {
        assert(letter(guess[p]));
        assert(m.wrong[p].len() == 26);
        assert(c.wrong[p][letter_index(guess[p])]);
    }
    assert forall|k: int| 0 <= k < 26 implies #[trigger] letter_count(w, k) >= m.proved(
        guess,
        wrongs,
        k,
    ) by {
        assert(c.min_counts[k] <= letter_count(w, k));
    }
    assert forall|k: int|
        0 <= k < 26 && letter_count(guess, k) > m.proved(guess, wrongs, k) implies #[trigger] letter_count(
        w,
        k,
    ) == m.proved(guess, wrongs, k) by {
        assert(c.min_counts[k] <= letter_count(w, k) <= c.max_counts[k]);
    }
}

/// If some letter has an objection, a first one does.
proof fn lemma_first_letter_issue(m: SolverModel, guess: Seq<u8>, wrongs: Seq<u8>, k: int)
    requires
        0 <= k < 26,
        m.letter_issue(guess, wrongs, k) is Some,
    ensures
        exists|j: int| m.first_letter_issue(guess, wrongs, j),
    decreases k,
{
    if exists|j: int| 0 <= j < k && (#[trigger] m.letter_issue(guess, wrongs, j)) is Some {
        let j = choose|j: int| 0 <= j < k && (#[trigger] m.letter_issue(guess, wrongs, j)) is Some;
        lemma_first_letter_issue(m, guess, wrongs, j);
    } else {
        assert(m.first_letter_issue(guess, wrongs, k));
    }
}

/// When a guess line passes the checks, exactly: it has the word length and
/// only ASCII letters; at each pinned position a capital is the pinned letter
/// and a small letter is not it; the wrong-position list is letters, no
/// longer than the word; it marks each letter no more often than the guess
/// has small copies of it (a capital is green, never a yellow); and it marks
/// no letter whose count is already capped at zero.
pub proof fn lemma_verdict_ok_exactly(m: SolverModel, guess: Seq<u8>, wrongs: Seq<u8>)
    requires
        m.inv(),
    ensures
        m.verdict(guess, wrongs) is Ok <==> {
            &&& guess.len() == m.len
            &&& all_letters(guess)
            &&& forall|i: int|
                0 <= i < m.len && (#[trigger] m.correct[i]) is Some ==> {
                    &&& (65 <= guess[i] <= 90 ==> m.correct[i].unwrap() == guess[i])
                    &&& (97 <= guess[i] <= 122 ==> m.correct[i].unwrap() != guess[i] - 32)
                }
            &&& wrongs.len() <= m.len
            &&& all_letters(wrongs)
            &&& forall|k: int|
                0 <= k < 26 ==> #[trigger] letter_count(wrongs, k) <= lower_count(guess, k)
            &&& forall|k: int|
                0 <= k < 26 && #[trigger] letter_count(wrongs, k) > 0 ==> m.max_counts[k] > 0
        },
{
    if m.verdict(guess, wrongs) is Ok {
        assert forall|i: int| 0 <= i < m.len implies (#[trigger] m.position_issue(guess, i))
            is None by {
            if m.position_issue(guess, i) is Some {
                lemma_first_position_issue(m, guess, i);
            }
        }
        assert forall|i: int| 0 <= i < m.len && (#[trigger] m.correct[i]) is Some implies {
            &&& (65 <= guess[i] <= 90 ==> m.correct[i].unwrap() == guess[i])
            &&& (97 <= guess[i] <= 122 ==> m.correct[i].unwrap() != guess[i] - 32)
        } by {
            assert(m.position_issue(guess, i) is None);
        }
        assert forall|k: int| 0 <= k < 26 implies (#[trigger] m.letter_issue(guess, wrongs, k))
            is None by {
            if m.letter_issue(guess, wrongs, k) is Some {
                lemma_first_letter_issue(m, guess, wrongs, k);
            }
        }
        assert forall|k: int| 0 <= k < 26 implies #[trigger] letter_count(wrongs, k) <= lower_count(
            guess,
            k,
        ) by {
            assert(m.letter_issue(guess, wrongs, k) is None);
        }
        assert forall|k: int| 0 <= k < 26 && #[trigger] letter_count(wrongs, k) > 0 implies m.max_counts[k]
            > 0 by {
            assert(m.letter_issue(guess, wrongs, k) is None);
        }
    } else {
        if guess.len() == m.len && all_letters(guess) && wrongs.len() <= m.len && all_letters(wrongs)
            && (forall|i: int|
            0 <= i < m.len && (#[trigger] m.correct[i]) is Some ==> {
                &&& (65 <= guess[i] <= 90 ==> m.correct[i].unwrap() == guess[i])
                &&& (97 <= guess[i] <= 122 ==> m.correct[i].unwrap() != guess[i] - 32)
            }) && (forall|k: int|
            0 <= k < 26 ==> #[trigger] letter_count(wrongs, k) <= lower_count(guess, k)) && (forall|
            k: int,
        |
            0 <= k < 26 && #[trigger] letter_count(wrongs, k) > 0 ==> m.max_counts[k] > 0) {
            assert forall|i: int| 0 <= i < m.len implies (#[trigger] m.position_issue(guess, i))
                is None by {
                if m.correct[i] is Some {
                    assert(letter(guess[i]));
                }
            }
            assert(!exists|i: int| m.first_position_issue(guess, i));
            assert forall|k: int| 0 <= k < 26 implies (#[trigger] m.letter_issue(
                guess,
                wrongs,
                k,
            )) is None by {
                assert(letter_count(wrongs, k) <= lower_count(guess, k));
            }
            assert(!exists|k: int| m.first_letter_issue(guess, wrongs, k));
        }
    }
}

/// A word has no more copies of any letter than it has bytes.
proof fn lemma_letter_count_le_len(s: Seq<u8>, k: int)
    ensures
        letter_count(s, k) <= s.len(),
    decreases s.len(),
{
    if s.len() > 0 {
        lemma_letter_count_le_len(s.drop_last(), k);
    }
}

/// A fresh (or just reset) solver allows every word of its list that has the
/// word length and only ASCII letters: no bar, no pin, and each letter may
/// appear anywhere from zero up to `len` times.
pub proof fn lemma_fresh_admits_master(len: nat, master: Seq<Seq<u8>>)
    ensures
        forall|w: Seq<u8>|
            #![trigger master.contains(w)]
            master.contains(w) && w.len() == len && all_letters(w) ==> SolverModel::fresh(
                len,
                master,
            ).admits(w),
        forall|k: int| 0 <= k < 26 ==> #[trigger] SolverModel::fresh(len, master).max_counts[k] == len,
        forall|k: int| 0 <= k < 26 ==> #[trigger] SolverModel::fresh(len, master).min_counts[k] == 0,
{
    let f = SolverModel::fresh(len, master);
    assert forall|w: Seq<u8>|
        #![trigger master.contains(w)]
        master.contains(w) && w.len() == len && all_letters(w) implies f.admits(w) by {
        assert forall|k: int| 0 <= k < 26 implies f.min_counts[k] <= #[trigger] letter_count(w, k)
            <= f.max_counts[k] by {
            lemma_letter_count_le_len(w, k);
        }
        assert forall|p: int| 0 <= p < len implies !(#[trigger] f.wrong[p])[letter_index(w[p])] by {
            assert(letter(w[p]));
        }
    }
}

/// From a fresh (or just reset) solver, an answer of the list survives an
/// honestly scored guess, unless it is the word guessed.
pub proof fn lemma_fresh_answer_survives(
    len: nat,
    master: Seq<Seq<u8>>,
    answer: Seq<u8>,
    guess: Seq<u8>,
    wrongs: Seq<u8>,
)
    requires
        master.contains(answer),
        answer.len() == len,
        capitals(answer),
        honest_feedback(answer, guess, wrongs),
    ensures
        SolverModel::fresh(len, master).verdict(guess, wrongs) is Ok,
        answer != upper_word(guess) ==> SolverModel::fresh(len, master).after_guess(
            guess,
            wrongs,
        ).current.contains(answer),
{
    let f = SolverModel::fresh(len, master);
    assert(all_letters(answer)) by {
        assert forall|i: int| 0 <= i < answer.len() implies letter(#[trigger] answer[i]) by {
            assert(upper(answer[i]));
        }
    }
    lemma_fresh_admits_master(len, master);
    assert(f.admits(answer));
    lemma_honest_feedback_accepted(f, answer, guess, wrongs);
    lemma_answer_survives(f, answer, guess, wrongs);
}

/// Some word of `current` holds, at `pos`, a letter whose capital is `b`.
pub open spec fn held_at(current: Seq<Seq<u8>>, pos: int, b: u8) -> bool {
    exists|i: int| 0 <= i < current.len() && uppercase(#[trigger] current[i][pos]) == b
}

/// Row `pos` of the letters still possible lists, in strictly increasing
/// order, exactly the capitals of the letters the candidates hold at `pos`:
/// every candidate's letter there is listed, and every listed byte is a
/// capital A..Z that some candidate holds there (in either case).
pub proof fn lemma_letters_at_exactly(m: SolverModel, pos: int)
    requires
        m.inv(),
        m.columns_fit(),
        0 <= pos < m.len,
    ensures
        forall|i: int|
            0 <= i < m.current.len() ==> m.letters_at(pos).contains(
                uppercase(#[trigger] m.current[i][pos]),
            ),
        forall|j: int|
            0 <= j < m.letters_at(pos).len() ==> 65 <= #[trigger] m.letters_at(pos)[j] <= 90,
        forall|j: int|
            0 <= j < m.letters_at(pos).len() ==> held_at(m.current, pos, #[trigger] m.letters_at(pos)[j]),
        forall|j1: int, j2: int|
            0 <= j1 < j2 < m.letters_at(pos).len() ==> #[trigger] m.letters_at(pos)[j1]
                < #[trigger] m.letters_at(pos)[j2],
{
    let a = crate::model::alphabet();
    let pred = m.seen_pred(pos);
    let row = a.filter(pred);
    assert(row == m.letters_at(pos));
    assert forall|i: int| 0 <= i < m.current.len() implies row.contains(
        uppercase(#[trigger] m.current[i][pos]),
    ) by {
        let c = m.current[i][pos];
        assert(letter(c));
        let k = letter_index(c);
        assert(0 <= k < 26);
        assert(a[k] == uppercase(c));
        assert(m.seen_at(pos, k));
        assert(pred(a[k]));
        a.lemma_filter_contains(pred, k);
    }
    assert forall|j: int| 0 <= j < m.letters_at(pos).len() implies 65 <= #[trigger] m.letters_at(
        pos,
    )[j] <= 90 && exists|i: int|
        0 <= i < m.current.len() && uppercase(#[trigger] m.current[i][pos]) == m.letters_at(pos)[j] by {
        a.lemma_filter_pred(pred, j);
        lemma_filter_subset(a, pred, j);
        let k = choose|k: int| 0 <= k < a.len() && a[k] == row[j];
        assert(row[j] == 65 + k);
        assert(m.seen_at(pos, row[j] - 65));
        let i = choose|i: int|
            0 <= i < m.current.len() && letter_index(#[trigger] m.current[i][pos]) == row[j] - 65;
        assert(letter(m.current[i][pos]));
        assert(uppercase(m.current[i][pos]) == m.letters_at(pos)[j]);
    }
    assert forall|j: int|
        0 <= j < m.letters_at(pos).len() implies held_at(m.current, pos, #[trigger] m.letters_at(pos)[j]) by {
        assert(65 <= m.letters_at(pos)[j] <= 90);
    }
    lemma_filter_increasing(a, pred);
}

/// A filter of a strictly increasing byte list is strictly increasing.
proof fn lemma_filter_increasing(s: Seq<u8>, pred: spec_fn(u8) -> bool)
    requires
        forall|i: int, j: int| 0 <= i < j < s.len() ==> #[trigger] s[i] < #[trigger] s[j],
    ensures
        forall|i: int, j: int|
            0 <= i < j < s.filter(pred).len() ==> #[trigger] s.filter(pred)[i]
                < #[trigger] s.filter(pred)[j],
    decreases s.len(),
{
    reveal(Seq::filter);
    if s.len() > 0 {
        let d = s.drop_last();
        assert forall|i: int, j: int| 0 <= i < j < d.len() implies #[trigger] d[i] < #[trigger] d[j] by {
            assert(d[i] == s[i] && d[j] == s[j]);
        }
        lemma_filter_increasing(d, pred);
        let f = d.filter(pred);
        assert forall|i: int| 0 <= i < f.len() implies #[trigger] f[i] < s.last() by {
            lemma_filter_subset(d, pred, i);
            let p = choose|p: int| 0 <= p < d.len() && d[p] == f[i];
            assert(s[p] == f[i]);
        }
        if pred(s.last()) {
            let g = f.push(s.last());
            assert forall|i: int, j: int| 0 <= i < j < g.len() implies #[trigger] g[i] < #[trigger] g[j] by {
                assert(g[i] == f[i]);
                if j < f.len() {
                    assert(g[j] == f[j]);
                }
            }
        }
    }
}

/// Each refusal names a real fault of the line, with its details right:
/// the length it has; a position (counted from 1) whose pinned letter a
/// capital contradicts or a small letter repeats; or a wrong-position letter
/// (as a capital) that the guess has no small copy of, that is marked more
/// often than the guess has small copies, or that is capped at zero.
pub proof fn lemma_refusals_are_faults(m: SolverModel, guess: Seq<u8>, wrongs: Seq<u8>)
    requires
        m.inv(),
        m.len <= usize::MAX,
    ensures
        guess.len() != m.len ==> m.verdict(guess, wrongs) == Err::<(), GuessError>(
            GuessError::Length { got: guess.len() as usize, expected: m.len as usize },
        ),
        m.verdict(guess, wrongs) == Err::<(), GuessError>(GuessError::NotLetters) ==> !all_letters(
            guess,
        ),
        m.verdict(guess, wrongs) == Err::<(), GuessError>(GuessError::TooManyWrongPosition)
            ==> wrongs.len() > m.len,
        m.verdict(guess, wrongs) == Err::<(), GuessError>(GuessError::WrongPositionNotLetters)
            ==> !all_letters(wrongs),
        m.verdict(guess, wrongs) matches Err(GuessError::AlreadyFixed { position, letter }) ==> {
            &&& 1 <= position <= m.len
            &&& m.correct[position - 1] == Some(letter)
            &&& 65 <= guess[position - 1] <= 90
            &&& guess[position - 1] != letter
        },
        m.verdict(guess, wrongs) matches Err(GuessError::MustCapitalize { position, letter }) ==> {
            &&& 1 <= position <= m.len
            &&& m.correct[position - 1] == Some(letter)
            &&& 97 <= guess[position - 1] <= 122
            &&& guess[position - 1] - 32 == letter
        },
        m.verdict(guess, wrongs) matches Err(GuessError::NotInGuess { letter }) ==> {
            &&& 65 <= letter <= 90
            &&& letter_count(wrongs, letter - 65) > 0
            &&& lower_count(guess, letter - 65) == 0
        },
        m.verdict(guess, wrongs) matches Err(
            GuessError::TooManyMarks { letter, marked, available },
        ) ==> {
            &&& 65 <= letter <= 90
            &&& marked == letter_count(wrongs, letter - 65)
            &&& available == lower_count(guess, letter - 65)
            &&& marked > available > 0
        },
        m.verdict(guess, wrongs) matches Err(GuessError::PreviouslyAbsent { letter }) ==> {
            &&& 65 <= letter <= 90
            &&& letter_count(wrongs, letter - 65) > 0
            &&& m.max_counts[letter - 65] == 0
        },
{
    if guess.len() == m.len && all_letters(guess) {
        if exists|i: int| m.first_position_issue(guess, i) {
            let i = choose|i: int| m.first_position_issue(guess, i);
            assert(m.correct[i] is Some);
            assert(((i + 1) as usize) - 1 == i);
        } else if wrongs.len() <= m.len && all_letters(wrongs) {
            if exists|k: int| m.first_letter_issue(guess, wrongs, k) {
                let k = choose|k: int| m.first_letter_issue(guess, wrongs, k);
                assert(((65 + k) as u8) - 65 == k);
                assert(letter_count(wrongs, k) <= wrongs.len()) by {
                    lemma_letter_count_le_len(wrongs, k);
                }
                assert(lower_count(guess, k) <= letter_count(guess, k)) by {
                    lemma_count_split(guess, k);
                }
                assert(letter_count(guess, k) <= guess.len()) by {
                    lemma_letter_count_le_len(guess, k);
                }
            }
        }
    }
}

} // verus!
