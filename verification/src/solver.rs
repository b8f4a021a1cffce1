//! The solver: the master list of words of one length, the candidates still
//! consistent with the clues, and the clues themselves.
use vstd::prelude::*;
use crate::letters::{
    all_ascii_letters, all_letters, counts_of, idx, is_ascii_lower, is_ascii_upper, letter,
    letter_count, letter_index, lower_count, to_upper, upper, upper_count,
};
use crate::model::{alphabet, fits, upper_word, GuessError, SolverModel};
use crate::order::{compare_words, strictly_sorted, words};
use crate::dictionary::{capital_word, dictionary_words, load_master};

verus! {

broadcast use vstd::array::group_array_axioms;

/// Why switching to another word length failed.
#[derive(PartialEq, Eq, Structural, Debug, Clone, Copy)]
pub enum LengthError {
    /// The word list holds no words of the requested length.
    NoWords { len: usize },
}

/// Everything learned since the last reset.
pub struct Solver {
    len: usize,
    /// All words of this length (uppercase and alphabetized when they come
    /// from `load_master`).
    master: Vec<Vec<u8>>,
    /// Those still consistent with the clues.
    current: Vec<Vec<u8>>,
    /// For each position, letters that cannot go there.
    wrong_positions: Vec<[bool; 26]>,
    /// For each position, the pinned (green) letter, if known.
    correct_positions: Vec<Option<u8>>,
    /// Minimum number of times each letter must appear.
    total_counts: [usize; 26],
    /// Maximum number of times each letter may appear. A gray letter drives
    /// this down; 0 means the letter is absent from the answer entirely.
    max_counts: [usize; 26],
}

impl View for Solver {
    type V = SolverModel;

    closed spec fn view(&self) -> SolverModel {
        SolverModel {
            len: self.len as nat,
            master: words(self.master@),
            current: words(self.current@),
            wrong: self.wrong_positions@.map_values(|a: [bool; 26]| a@),
            correct: self.correct_positions@,
            min_counts: self.total_counts@.map_values(|x: usize| x as int),
            max_counts: self.max_counts@.map_values(|x: usize| x as int),
        }
    }
}

/// A copy of a list of words.
fn clone_words(v: &Vec<Vec<u8>>) -> (r: Vec<Vec<u8>>)
    ensures
        words(r@) == words(v@),
{
    let mut r: Vec<Vec<u8>> = Vec::new();
    let mut i: usize = 0;
    while i < v.len()
        invariant
            i <= v.len(),
            words(r@) == words(v@).take(i as int),
        decreases v.len() - i,
    {
        let x = v[i].clone();
        let ghost old_r = words(r@);
        r.push(x);
        assert(words(r@) =~= old_r.push(x@));
        assert(words(v@).take(i + 1) =~= words(v@).take(i as int).push(words(v@)[i as int]));
        i = i + 1;
    }
    assert(words(v@).take(v@.len() as int) =~= words(v@));
    r
}

/// Per-letter counts of the small letters of a word of ASCII letters.
fn lower_counts_of(word: &[u8]) -> (c: [usize; 26])
    requires
        all_letters(word@),
    ensures
        forall|k: int| 0 <= k < 26 ==> #[trigger] c@[k] == lower_count(word@, k),
{
    let mut c: [usize; 26] = [0usize; 26];
    let mut i: usize = 0;
    while i < word.len()
        invariant
            i <= word.len(),
            all_letters(word@),
            forall|k: int| 0 <= k < 26 ==> #[trigger] c@[k] == lower_count(word@.take(i as int), k),
            forall|k: int| 0 <= k < 26 ==> #[trigger] c@[k] <= i,
        decreases word.len() - i,
    {
        assert(letter(word@[i as int]));
        assert(word@.take(i + 1).drop_last() =~= word@.take(i as int));
        if is_ascii_lower(word[i]) {
            let k = idx(word[i]);
            c[k] = c[k] + 1;
        }
        i = i + 1;
    }
    assert(word@.take(word@.len() as int) =~= word@);
    c
}

impl Solver {
    /// A solver for words of length `len`, with every word of `master` a
    /// candidate and no clues yet.
    pub fn new(len: usize, master: Vec<Vec<u8>>) -> (s: Solver)
        ensures
            s@ == SolverModel::fresh(len as nat, words(master@)),
            s@.inv(),
    {
        let mut s = Solver {
            len,
            current: Vec::new(),
            master,
            wrong_positions: Vec::new(),
            correct_positions: Vec::new(),
            total_counts: [0usize; 26],
            max_counts: [len; 26],
        };
        s.reset();
        s
    }

    /// Forget every clue and restore the full candidate list.
    pub fn reset(&mut self)
        ensures
            final(self)@ == SolverModel::fresh(old(self)@.len, old(self)@.master),
            final(self)@.inv(),
    {
        let mut wrong: Vec<[bool; 26]> = Vec::new();
        let mut correct: Vec<Option<u8>> = Vec::new();
        let mut i: usize = 0;
        while i < self.len
            invariant
                i <= self.len,
                wrong@.len() == i,
                correct@.len() == i,
                forall|j: int| 0 <= j < i ==> (#[trigger] wrong@[j])@ =~= Seq::new(26, |k: int| false),
                forall|j: int| 0 <= j < i ==> #[trigger] correct@[j] == None::<u8>,
            decreases self.len - i,
        {
            wrong.push([false; 26]);
            correct.push(None);
            i = i + 1;
        }
        self.wrong_positions = wrong;
        self.correct_positions = correct;
        self.total_counts = [0usize; 26];
        self.max_counts = [self.len; 26];
        self.current = clone_words(&self.master);
        let ghost f = SolverModel::fresh(self.len as nat, words(self.master@));
        assert(self@.wrong =~= f.wrong);
        assert(self@.correct =~= f.correct);
        assert(self@.min_counts =~= f.min_counts);
        assert(self@.max_counts =~= f.max_counts);
    }

    /// The word length.
    pub fn len(&self) -> (r: usize)
        ensures
            r == self@.len,
    {
        self.len
    }

    /// Every word of this length.
    pub fn master(&self) -> (r: &Vec<Vec<u8>>)
        ensures
            words(r@) == self@.master,
    {
        &self.master
    }

    /// The words still consistent with the clues.
    pub fn current(&self) -> (r: &Vec<Vec<u8>>)
        ensures
            words(r@) == self@.current,
    {
        &self.current
    }

    /// Whether the clues allow `w` to be the answer.
    pub fn admits(&self, w: &[u8]) -> (r: bool)
        requires
            self@.inv(),
            fits(w@, self@.len),
        ensures
            r == self@.admits(w@),
    {
        let wc = counts_of(w);
        let mut k: usize = 0;
        while k < 26
            invariant
                self@.inv(),
                k <= 26,
                forall|j: int| 0 <= j < 26 ==> #[trigger] wc@[j] == letter_count(w@, j),
                forall|j: int|
                    0 <= j < k ==> self@.min_counts[j] <= #[trigger] letter_count(w@, j)
                        <= self@.max_counts[j],
            decreases 26 - k,
        {
            assert(self@.min_counts[k as int] == self.total_counts[k as int]);
            assert(self@.max_counts[k as int] == self.max_counts[k as int]);
            if wc[k] < self.total_counts[k] {
                assert(!(self@.min_counts[k as int] <= letter_count(w@, k as int)));
                return false;
            }
            if wc[k] > self.max_counts[k] {
                assert(!(letter_count(w@, k as int) <= self@.max_counts[k as int]));
                return false;
            }
            k = k + 1;
        }
        let mut pos: usize = 0;
        while pos < self.len
            invariant
                self@.inv(),
                fits(w@, self@.len),
                pos <= self.len,
                forall|p: int|
                    0 <= p < pos ==> (#[trigger] self@.correct[p] matches Some(g) ==> w@[p] == g),
                forall|p: int|
                    0 <= p < pos ==> !(#[trigger] self@.wrong[p])[letter_index(w@[p])],
            decreases self.len - pos,
        {
            assert(letter(w@[pos as int]));
            match self.correct_positions[pos] {
                Some(g) => {
                    if w[pos] != g {
                        assert(self@.correct[pos as int] == Some(g));
                        return false;
                    }
                },
                None => {},
            }
            let row = self.wrong_positions[pos];
            assert(self@.wrong[pos as int] == row@);
            if row[idx(w[pos])] {
                return false;
            }
            pos = pos + 1;
        }
        true
    }

    /// Check a guess line before applying it: `Ok` when it can be folded in,
    /// else the first objection (see `SolverModel::verdict`).
    pub fn validate(&self, guess: &[u8], wrongs: &[u8]) -> (r: Result<(), GuessError>)
        requires
            self@.inv(),
        ensures
            r == self@.verdict(guess@, wrongs@),
    {
        let ghost m = self@;
        if guess.len() != self.len {
            return Err(GuessError::Length { got: guess.len(), expected: self.len });
        }
        if !all_ascii_letters(guess) {
            return Err(GuessError::NotLetters);
        }
        // A new green must not contradict a previously established one, and a
        // known green must not be typed in lowercase.
        let mut i: usize = 0;
        while i < self.len
            invariant
                self@ == m,
                m.inv(),
                guess@.len() == m.len,
                all_letters(guess@),
                i <= self.len,
                forall|j: int| 0 <= j < i ==> (#[trigger] m.position_issue(guess@, j)) is None,
            decreases self.len - i,
        {
            let g = guess[i];
            match self.correct_positions[i] {
                Some(prev) => {
                    assert(m.correct[i as int] == Some(prev));
                    let issue: Option<GuessError> = if is_ascii_upper(g) && prev != g {
                        Some(GuessError::AlreadyFixed { position: i + 1, letter: prev })
                    } else if is_ascii_lower(g) && prev == to_upper(g) {
                        Some(GuessError::MustCapitalize { position: i + 1, letter: prev })
                    } else {
                        None
                    };
                    assert(issue == m.position_issue(guess@, i as int));
                    match issue {
                        Some(e) => {
                            proof {
                                assert(m.first_position_issue(guess@, i as int));
                                let c = choose|j: int| m.first_position_issue(guess@, j);
                                if c < i {
                                    assert(m.position_issue(guess@, c) is None);
                                } else if c > i {
                                    assert(m.position_issue(guess@, i as int) is None);
                                }
                            }
                            return Err(e);
                        },
                        None => {},
                    }
                },
                None => {
                    assert(m.position_issue(guess@, i as int) is None);
                },
            }
            i = i + 1;
        }
        assert(!exists|j: int| m.first_position_issue(guess@, j));
        if wrongs.len() > self.len {
            return Err(GuessError::TooManyWrongPosition);
        }
        if !all_ascii_letters(wrongs) {
            return Err(GuessError::WrongPositionNotLetters);
        }
        // A yellow has to be an actual non-green letter of the guess, and it
        // can't be claimed more often than the guess has copies left to claim.
        let listed = counts_of(wrongs);
        let ungreen = lower_counts_of(guess);
        let mut k: usize = 0;
        while k < 26
            invariant
                self@ == m,
                m.inv(),
                k <= 26,
                guess@.len() == m.len,
                all_letters(guess@),
                all_letters(wrongs@),
                wrongs@.len() <= m.len,
                !exists|j: int| m.first_position_issue(guess@, j),
                forall|j: int| 0 <= j < 26 ==> #[trigger] listed@[j] == letter_count(wrongs@, j),
                forall|j: int| 0 <= j < 26 ==> #[trigger] ungreen@[j] == lower_count(guess@, j),
                forall|j: int|
                    0 <= j < k ==> (#[trigger] m.letter_issue(guess@, wrongs@, j)) is None,
            decreases 26 - k,
        {
            let c: u8 = (65 + k) as u8;
            assert(m.max_counts[k as int] == self.max_counts[k as int]);
            let issue: Option<GuessError> = if listed[k] == 0 {
                None
            } else if ungreen[k] == 0 {
                Some(GuessError::NotInGuess { letter: c })
            } else if listed[k] > ungreen[k] {
                Some(GuessError::TooManyMarks { letter: c, marked: listed[k], available: ungreen[k] })
            } else if self.max_counts[k] == 0 {
                Some(GuessError::PreviouslyAbsent { letter: c })
            } else {
                None
            };
            assert(issue == m.letter_issue(guess@, wrongs@, k as int));
            match issue {
                Some(e) => {
                    proof {
                        assert(m.first_letter_issue(guess@, wrongs@, k as int));
                        let c = choose|j: int| m.first_letter_issue(guess@, wrongs@, j);
                        if c < k {
                            assert(m.letter_issue(guess@, wrongs@, c) is None);
                        } else if c > k {
                            assert(m.letter_issue(guess@, wrongs@, k as int) is None);
                        }
                    }
                    return Err(e);
                },
                None => {},
            }
            k = k + 1;
        }
        assert(!exists|j: int| m.first_letter_issue(guess@, wrongs@, j));
        Ok(())
    }

    /// Fold one scored guess into the accumulated clues and re-filter the
    /// candidates (see `SolverModel::after_guess`).
    pub fn apply(&mut self, guess: &[u8], wrongs: &[u8])
        requires
            old(self)@.inv(),
            old(self)@.candidates_fit(),
            guess@.len() >= old(self)@.len,
            all_letters(guess@),
            all_letters(wrongs@),
            wrongs@.len() + guess@.len() <= usize::MAX,
        ensures
            final(self)@ == old(self)@.after_guess(guess@, wrongs@),
            final(self)@.inv(),
            final(self)@.candidates_fit(),
    {
        let ghost m = self@;
        // Per letter: how many copies the guess spends, and how many of those
        // the clue proved are in the answer.
        let spent = counts_of(guess);
        let mut proved = counts_of(wrongs);
        let mut i: usize = 0;
        while i < self.len
            invariant
                self@ == m,
                i <= self.len,
                guess@.len() >= self.len,
                all_letters(guess@),
                wrongs@.len() + guess@.len() <= usize::MAX,
                forall|k: int|
                    0 <= k < 26 ==> #[trigger] proved@[k] == letter_count(wrongs@, k)
                        + upper_count(guess@.take(i as int), k),
                forall|k: int| 0 <= k < 26 ==> #[trigger] proved@[k] <= wrongs@.len() + i,
            decreases self.len - i,
        {
            assert(guess@.take(i + 1).drop_last() =~= guess@.take(i as int));
            assert(letter(guess@[i as int]));
            if is_ascii_upper(guess[i]) {
                let k = idx(guess[i]);
                proved[k] = proved[k] + 1;
            }
            i = i + 1;
        }
        assert(forall|k: int|
            0 <= k < 26 ==> #[trigger] proved@[k] == m.proved(guess@, wrongs@, k));
        let ghost c = m.with_guess_clues(guess@, wrongs@);
        // Positions: a green pins its position; any other letter is barred there.
        let ghost old_wrong = self.wrong_positions@;
        let ghost old_correct = self.correct_positions@;
        let mut i: usize = 0;
        while i < self.len
            invariant
                self.len == m.len,
                words(self.master@) == m.master,
                words(self.current@) == m.current,
                self.total_counts@.map_values(|x: usize| x as int) == m.min_counts,
                self.max_counts@.map_values(|x: usize| x as int) == m.max_counts,
                old_wrong.map_values(|a: [bool; 26]| a@) == m.wrong,
                old_correct == m.correct,
                m.inv(),
                c == m.with_guess_clues(guess@, wrongs@),
                i <= self.len,
                guess@.len() >= self.len,
                all_letters(guess@),
                self.wrong_positions@.len() == self.len,
                self.correct_positions@.len() == self.len,
                forall|j: int|
                    0 <= j < i ==> (#[trigger] self.wrong_positions@[j])@ == c.wrong[j],
                forall|j: int|
                    i <= j < self.len ==> #[trigger] self.wrong_positions@[j] == old_wrong[j],
                forall|j: int| 0 <= j < i ==> #[trigger] self.correct_positions@[j] == c.correct[j],
                forall|j: int|
                    i <= j < self.len ==> #[trigger] self.correct_positions@[j] == old_correct[j],
            decreases self.len - i,
        {
            let g = guess[i];
            assert(letter(guess@[i as int]));
            let k = idx(g);
            let mut row = self.wrong_positions[i];
            assert(row@ == m.wrong[i as int]);
            if is_ascii_upper(g) {
                self.correct_positions.set(i, Some(g));
                row[k] = false;
            } else {
                row[k] = true;
            }
            assert(row@ =~= c.wrong[i as int]);
            self.wrong_positions.set(i, row);
            i = i + 1;
        }
        // Letter counts: every copy spent without being proved is gray, and
        // caps the letter at the proved number; the proved number also raises
        // the running minimum.
        proof {
            assert(self@.wrong =~= c.wrong);
            assert(self@.correct =~= c.correct);
        }
        let ghost old_total = self.total_counts@;
        let ghost old_max = self.max_counts@;
        let mut k: usize = 0;
        while k < 26
            invariant
                k <= 26,
                forall|j: int| 0 <= j < 26 ==> #[trigger] proved@[j] == m.proved(guess@, wrongs@, j),
                forall|j: int| 0 <= j < 26 ==> #[trigger] spent@[j] == letter_count(guess@, j),
                m.inv(),
                old_total.map_values(|x: usize| x as int) == m.min_counts,
                old_max.map_values(|x: usize| x as int) == m.max_counts,
                c == m.with_guess_clues(guess@, wrongs@),
                self@.wrong == c.wrong,
                self@.correct == c.correct,
                self.len == m.len,
                words(self.master@) == m.master,
                words(self.current@) == m.current,
                forall|j: int| 0 <= j < k ==> #[trigger] self.total_counts@[j] == c.min_counts[j],
                forall|j: int| 0 <= j < k ==> #[trigger] self.max_counts@[j] == c.max_counts[j],
                forall|j: int| k <= j < 26 ==> #[trigger] self.total_counts@[j] == old_total[j],
                forall|j: int| k <= j < 26 ==> #[trigger] self.max_counts@[j] == old_max[j],
            decreases 26 - k,
        {
            assert(m.min_counts[k as int] == old_total[k as int]);
            assert(m.max_counts[k as int] == old_max[k as int]);
            if spent[k] > proved[k] && proved[k] < self.max_counts[k] {
                self.max_counts[k] = proved[k];
            }
            if proved[k] > self.total_counts[k] {
                self.total_counts[k] = proved[k];
            }
            k = k + 1;
        }
        proof {
            assert(self@.min_counts =~= c.min_counts);
            assert(self@.max_counts =~= c.max_counts);
            assert(self@ == c);
        }
        // The exact guessed word (uppercased) is never the answer once scored.
        let mut guessed: Vec<u8> = Vec::new();
        let mut i: usize = 0;
        while i < guess.len()
            invariant
                i <= guess.len(),
                guessed@ == upper_word(guess@).take(i as int),
            decreases guess.len() - i,
        {
            guessed.push(to_upper(guess[i]));
            assert(guessed@ =~= upper_word(guess@).take(i + 1));
            i = i + 1;
        }
        assert(guessed@ =~= upper_word(guess@));
        let ghost pred = c.keeps(upper_word(guess@));
        let mut kept: Vec<Vec<u8>> = Vec::new();
        let mut j: usize = 0;
        while j < self.current.len()
            invariant
                self@ == c,
                c.inv(),
                m.candidates_fit(),
                c.current == m.current,
                c.len == m.len,
                guessed@ == upper_word(guess@),
                pred == c.keeps(upper_word(guess@)),
                j <= self.current.len(),
                words(kept@) == c.current.take(j as int).filter(pred),
                forall|t: int| 0 <= t < kept@.len() ==> fits(#[trigger] words(kept@)[t], c.len),
            decreases self.current.len() - j,
        {
            let w = self.current[j].as_slice();
            assert(w@ == c.current[j as int]);
            assert(fits(c.current[j as int], c.len));
            let keep = self.admits(w) && compare_words(w, guessed.as_slice()) != 0;
            assert(keep == pred(w@));
            let ghost old_kept = words(kept@);
            if keep {
                kept.push(self.current[j].clone());
                assert(words(kept@) =~= old_kept.push(w@));
            }
            proof {
                let s = c.current.take(j + 1);
                assert(s.drop_last() =~= c.current.take(j as int));
                assert(s.last() == w@);
                reveal(Seq::filter);
                assert(s.filter(pred) == if pred(s.last()) {
                    s.drop_last().filter(pred).push(s.last())
                } else {
                    s.drop_last().filter(pred)
                });
            }
            j = j + 1;
        }
        assert(c.current.take(c.current.len() as int) =~= c.current);
        self.current = kept;
    }

    /// For each position, the letters that actually occur there across every
    /// remaining candidate, alphabetized.
    pub fn available_letters(&self) -> (r: Vec<Vec<u8>>)
        requires
            self@.inv(),
            self@.columns_fit(),
        ensures
            r@.len() == self@.len,
            forall|pos: int| 0 <= pos < self@.len ==> (#[trigger] r@[pos])@ == self@.letters_at(pos),
    {
        let ghost m = self@;
        let mut out: Vec<Vec<u8>> = Vec::new();
        let mut pos: usize = 0;
        while pos < self.len
            invariant
                self@ == m,
                m.columns_fit(),
                pos <= self.len,
                out@.len() == pos,
                forall|q: int| 0 <= q < pos ==> (#[trigger] out@[q])@ == m.letters_at(q),
            decreases self.len - pos,
        {
            let mut seen: [bool; 26] = [false; 26];
            let mut j: usize = 0;
            while j < self.current.len()
                invariant
                    self@ == m,
                    m.columns_fit(),
                    pos < self.len,
                    j <= self.current.len(),
                    forall|k: int|
                        0 <= k < 26 ==> (#[trigger] seen@[k] <==> exists|i: int|
                            0 <= i < j && letter_index(#[trigger] m.current[i][pos as int]) == k),
                decreases self.current.len() - j,
            {
                let w = self.current[j].as_slice();
                assert(w@ == m.current[j as int]);
                assert(letter(m.current[j as int][pos as int]));
                let k = idx(w[pos]);
                let ghost old_seen = seen@;
                seen[k] = true;
                proof {
                    assert forall|kk: int| 0 <= kk < 26 implies (#[trigger] seen@[kk] <==> exists|i: int|
                        0 <= i < j + 1 && letter_index(#[trigger] m.current[i][pos as int]) == kk) by {
                        if kk == k {
                            assert(letter_index(m.current[j as int][pos as int]) == kk);
                        } else {
                            assert(seen@[kk] == old_seen[kk]);
                            if exists|i: int|
                                0 <= i < j + 1 && letter_index(#[trigger] m.current[i][pos as int]) == kk {
                                let i = choose|i: int|
                                    0 <= i < j + 1 && letter_index(#[trigger] m.current[i][pos as int]) == kk;
                                assert(i < j);
                            }
                        }
                    }
                }
                j = j + 1;
            }
            let ghost pred = m.seen_pred(pos as int);
            let mut letters: Vec<u8> = Vec::new();
            let mut k: usize = 0;
            while k < 26
                invariant
                    k <= 26,
                    pred == m.seen_pred(pos as int),
                    forall|kk: int|
                        0 <= kk < 26 ==> (#[trigger] seen@[kk] <==> m.seen_at(pos as int, kk)),
                    letters@ == alphabet().take(k as int).filter(pred),
                decreases 26 - k,
            {
                let b: u8 = (65 + k) as u8;
                assert(alphabet()[k as int] == b);
                assert(pred(b) == seen@[k as int]);
                if seen[k] {
                    letters.push(b);
                }
                proof {
                    let s = alphabet().take(k + 1);
                    assert(s.drop_last() =~= alphabet().take(k as int));
                    assert(s.last() == b);
                    reveal(Seq::filter);
                    assert(s.filter(pred) == if pred(s.last()) {
                        s.drop_last().filter(pred).push(s.last())
                    } else {
                        s.drop_last().filter(pred)
                    });
                }
                k = k + 1;
            }
            assert(alphabet().take(26) =~= alphabet());
            out.push(letters);
            pos = pos + 1;
        }
        out
    }

    /// Switch to a different word length: read the words of that length from
    /// the text of the word list, then reset. Fails, changing nothing, when
    /// the list holds no word of that length.
    pub fn set_length(&mut self, new_len: usize, raw: &str) -> (r: Result<(), LengthError>)
        requires
            old(self)@.inv(),
        ensures
            dictionary_words(raw@, new_len as nat).len() == 0 ==> r == Err::<(), LengthError>(
                LengthError::NoWords { len: new_len },
            ) && final(self)@ == old(self)@,
            dictionary_words(raw@, new_len as nat).len() > 0 ==> {
                &&& r is Ok
                &&& final(self)@ == SolverModel::fresh(new_len as nat, final(self)@.master)
                &&& strictly_sorted(final(self)@.master)
                &&& final(self)@.candidates_fit()
                &&& forall|w: Seq<u8>|
                    #![trigger final(self)@.master.contains(w)]
                    final(self)@.master.contains(w) <==> dictionary_words(
                        raw@,
                        new_len as nat,
                    ).contains(w)
            },
            final(self)@.inv(),
    {
        let master = load_master(raw, new_len);
        let ghost dw = dictionary_words(raw@, new_len as nat);
        if master.len() == 0 {
            proof {
                if dw.len() > 0 {
                    assert(dw.contains(dw[0]));
                    assert(words(master@).contains(dw[0]));
                }
            }
            return Err(LengthError::NoWords { len: new_len });
        }
        proof {
            assert(words(master@).contains(words(master@)[0]));
        }
        proof {
            assert forall|i: int| 0 <= i < words(master@).len() implies fits(
                #[trigger] words(master@)[i],
                new_len as nat,
            ) by {
                assert(capital_word(words(master@)[i], new_len as nat));
                assert forall|p: int| 0 <= p < words(master@)[i].len() implies letter(
                    #[trigger] words(master@)[i][p],
                ) by {
                    assert(upper(words(master@)[i][p]));
                }
            }
        }
        self.len = new_len;
        self.master = master;
        self.reset();
        Ok(())
    }
}

} // verus!
