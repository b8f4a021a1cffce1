//! The mathematical model of the solver: the candidate words and the clues
//! gathered since the last reset, and what checking and folding in a scored
//! guess does to them.
use vstd::prelude::*;
use crate::letters::{all_letters, letter, letter_count, letter_index, lower, lower_count, upper,
    upper_count, uppercase};

verus! {

/// Why a guess line cannot be used.
#[derive(PartialEq, Eq, Structural, Debug, Clone, Copy)]
pub enum GuessError {
    /// The guess does not have the solver's word length.
    Length { got: usize, expected: usize },
    /// The guess holds something other than ASCII letters.
    NotLetters,
    /// A capital at `position` (counted from 1) names a different letter than
    /// the one already fixed there.
    AlreadyFixed { position: usize, letter: u8 },
    /// A small letter at `position` (counted from 1) is the letter already
    /// fixed there, which would read as gray.
    MustCapitalize { position: usize, letter: u8 },
    /// More wrong-position letters than the word length.
    TooManyWrongPosition,
    /// The wrong-position list holds something other than ASCII letters.
    WrongPositionNotLetters,
    /// A wrong-position letter that no small letter of the guess is.
    NotInGuess { letter: u8 },
    /// A letter marked wrong-position more often than the guess has small
    /// copies of it.
    TooManyMarks { letter: u8, marked: usize, available: usize },
    /// A wrong-position letter that earlier clues showed to be absent.
    PreviouslyAbsent { letter: u8 },
}

/// The solver as mathematics.
pub struct SolverModel {
    /// The word length.
    pub len: nat,
    /// Every word of this length.
    pub master: Seq<Seq<u8>>,
    /// The words still consistent with the clues.
    pub current: Seq<Seq<u8>>,
    /// For each position and letter index, whether that letter is barred there.
    pub wrong: Seq<Seq<bool>>,
    /// For each position, the letter pinned there, if any.
    pub correct: Seq<Option<u8>>,
    /// For each letter index, the fewest copies the answer can hold.
    pub min_counts: Seq<int>,
    /// For each letter index, the most copies the answer can hold.
    pub max_counts: Seq<int>,
}

/// A word the solver can work with at length `len`: at least `len` bytes, all
/// ASCII letters.
pub open spec fn fits(w: Seq<u8>, len: nat) -> bool {
    w.len() >= len && all_letters(w)
}

/// The uppercase form of every byte of `s`.
pub open spec fn upper_word(s: Seq<u8>) -> Seq<u8> {
    s.map_values(|b: u8| uppercase(b))
}

/// The capital letters A to Z.
pub open spec fn alphabet() -> Seq<u8> {
    Seq::new(26, |k: int| (65 + k) as u8)
}

impl SolverModel {
    /// The shapes agree with the word length.
    pub open spec fn inv(self) -> bool {
        &&& self.wrong.len() == self.len
        &&& forall|i: int| 0 <= i < self.len ==> (#[trigger] self.wrong[i]).len() == 26
        &&& self.correct.len() == self.len
        &&& self.min_counts.len() == 26
        &&& self.max_counts.len() == 26
        &&& forall|k: int| 0 <= k < 26 ==> #[trigger] self.min_counts[k] >= 0
        &&& forall|k: int| 0 <= k < 26 ==> #[trigger] self.max_counts[k] >= 0
    }

    /// Every candidate is a word the solver can work with.
    pub open spec fn candidates_fit(self) -> bool {
        forall|i: int| 0 <= i < self.current.len() ==> fits(#[trigger] self.current[i], self.len)
    }

    /// The clues allow `w` to be the answer: every letter count lies within
    /// its bounds, every pinned position holds its letter, and no position
    /// holds a letter barred there.
    pub open spec fn admits(self, w: Seq<u8>) -> bool {
        &&& forall|k: int|
            0 <= k < 26 ==> self.min_counts[k] <= #[trigger] letter_count(w, k)
                <= self.max_counts[k]
        &&& forall|p: int|
            0 <= p < self.len ==> (#[trigger] self.correct[p] matches Some(g) ==> w[p] == g)
        &&& forall|p: int| 0 <= p < self.len ==> !(#[trigger] self.wrong[p])[letter_index(w[p])]
    }

    /// Kept by the filter after a guess: allowed by these clues, and not the
    /// word just guessed.
    pub open spec fn keeps(self, guessed: Seq<u8>) -> spec_fn(Seq<u8>) -> bool {
        |w: Seq<u8>| self.admits(w) && w != guessed
    }

    /// The state with no clues, holding every word of `master` as a candidate.
    pub open spec fn fresh(len: nat, master: Seq<Seq<u8>>) -> SolverModel {
        SolverModel {
            len,
            master,
            current: master,
            wrong: Seq::new(len, |i: int| Seq::new(26, |k: int| false)),
            correct: Seq::new(len, |i: int| None),
            min_counts: Seq::new(26, |k: int| 0),
            max_counts: Seq::new(26, |k: int| len as int),
        }
    }

    /// How many copies of letter `k` the scored guess proves the answer holds:
    /// one per capital (green) among the first `len` bytes, one per listed
    /// wrong-position (yellow) letter.
    pub open spec fn proved(self, guess: Seq<u8>, wrongs: Seq<u8>, k: int) -> int {
        (letter_count(wrongs, k) + upper_count(guess.take(self.len as int), k)) as int
    }

    /// The clues once a scored guess is folded in; the candidates unchanged.
    ///  - a capital pins its position to itself and lifts any bar of it there;
    ///  - a small letter is barred from its own position;
    ///  - a letter the guess spends more copies of than it proves is capped
    ///    at the proved number (when that lowers the cap);
    ///  - the floor of each letter rises to the proved number.
    pub open spec fn with_guess_clues(self, guess: Seq<u8>, wrongs: Seq<u8>) -> SolverModel {
        SolverModel {
            len: self.len,
            master: self.master,
            current: self.current,
            wrong: Seq::new(
                self.len,
                |i: int| self.wrong[i].update(letter_index(guess[i]), !upper(guess[i])),
            ),
            correct: Seq::new(
                self.len,
                |i: int|
                    if upper(guess[i]) {
                        Some(guess[i])
                    } else {
                        self.correct[i]
                    },
            ),
            min_counts: Seq::new(
                26,
                |k: int|
                    if self.proved(guess, wrongs, k) > self.min_counts[k] {
                        self.proved(guess, wrongs, k)
                    } else {
                        self.min_counts[k]
                    },
            ),
            max_counts: Seq::new(
                26,
                |k: int|
                    if letter_count(guess, k) > self.proved(guess, wrongs, k) && self.proved(
                        guess,
                        wrongs,
                        k,
                    ) < self.max_counts[k] {
                        self.proved(guess, wrongs, k)
                    } else {
                        self.max_counts[k]
                    },
            ),
        }
    }

    /// The state once a scored guess is folded in: the new clues, and the
    /// candidates they still allow, less the guessed word itself.
    pub open spec fn after_guess(self, guess: Seq<u8>, wrongs: Seq<u8>) -> SolverModel {
        let c = self.with_guess_clues(guess, wrongs);
        SolverModel {
            len: c.len,
            master: c.master,
            current: self.current.filter(c.keeps(upper_word(guess))),
            wrong: c.wrong,
            correct: c.correct,
            min_counts: c.min_counts,
            max_counts: c.max_counts,
        }
    }

    /// The objection, if any, to the guess at position `i` given the letter
    /// already pinned there.
    pub open spec fn position_issue(self, guess: Seq<u8>, i: int) -> Option<GuessError> {
        match self.correct[i] {
            Some(prev) => if upper(guess[i]) && prev != guess[i] {
                Some(GuessError::AlreadyFixed { position: (i + 1) as usize, letter: prev })
            } else if lower(guess[i]) && prev == uppercase(guess[i]) {
                Some(GuessError::MustCapitalize { position: (i + 1) as usize, letter: prev })
            } else {
                None
            },
            None => None,
        }
    }

    /// `i` is the first position with an objection.
    pub open spec fn first_position_issue(self, guess: Seq<u8>, i: int) -> bool {
        &&& 0 <= i < self.len
        &&& self.position_issue(guess, i) is Some
        &&& forall|j: int| 0 <= j < i ==> (#[trigger] self.position_issue(guess, j)) is None
    }

    /// The objection, if any, to how the wrong-position list uses letter `k`.
    pub open spec fn letter_issue(self, guess: Seq<u8>, wrongs: Seq<u8>, k: int) -> Option<
        GuessError,
    > {
        let listed = letter_count(wrongs, k);
        let ungreen = lower_count(guess, k);
        let c = (65 + k) as u8;
        if listed == 0 {
            None
        } else if ungreen == 0 {
            Some(GuessError::NotInGuess { letter: c })
        } else if listed > ungreen {
            Some(
                GuessError::TooManyMarks {
                    letter: c,
                    marked: listed as usize,
                    available: ungreen as usize,
                },
            )
        } else if self.max_counts[k] == 0 {
            Some(GuessError::PreviouslyAbsent { letter: c })
        } else {
            None
        }
    }

    /// `k` is the first letter index with an objection.
    pub open spec fn first_letter_issue(self, guess: Seq<u8>, wrongs: Seq<u8>, k: int) -> bool {
        &&& 0 <= k < 26
        &&& self.letter_issue(guess, wrongs, k) is Some
        &&& forall|j: int|
            0 <= j < k ==> (#[trigger] self.letter_issue(guess, wrongs, j)) is None
    }

    /// Whether a guess line can be folded in, and if not, the first objection:
    /// the length, then letters only, then the pinned positions from first to
    /// last, then the size of the wrong-position list, then its letters, then
    /// each letter it lists, from A to Z.
    pub open spec fn verdict(self, guess: Seq<u8>, wrongs: Seq<u8>) -> Result<(), GuessError> {
        if guess.len() != self.len {
            Err(GuessError::Length { got: guess.len() as usize, expected: self.len as usize })
        } else if !all_letters(guess) {
            Err(GuessError::NotLetters)
        } else if exists|i: int| self.first_position_issue(guess, i) {
            Err(
                self.position_issue(guess, choose|i: int| self.first_position_issue(guess, i)).unwrap(),
            )
        } else if wrongs.len() > self.len {
            Err(GuessError::TooManyWrongPosition)
        } else if !all_letters(wrongs) {
            Err(GuessError::WrongPositionNotLetters)
        } else if exists|k: int| self.first_letter_issue(guess, wrongs, k) {
            Err(
                self.letter_issue(
                    guess,
                    wrongs,
                    choose|k: int| self.first_letter_issue(guess, wrongs, k),
                ).unwrap(),
            )
        } else {
            Ok(())
        }
    }

    /// For position `pos`, whether some candidate holds letter `k` there.
    pub open spec fn seen_at(self, pos: int, k: int) -> bool {
        exists|i: int|
            0 <= i < self.current.len() && letter_index(#[trigger] self.current[i][pos]) == k
    }

    /// Whether the capital letter `b` is held at position `pos` by some candidate.
    pub open spec fn seen_pred(self, pos: int) -> spec_fn(u8) -> bool {
        |b: u8| self.seen_at(pos, b - 65)
    }

    /// The letters still possible at position `pos`: each capital letter that
    /// some candidate holds there, in alphabetical order.
    pub open spec fn letters_at(self, pos: int) -> Seq<u8> {
        alphabet().filter(self.seen_pred(pos))
    }

    /// Every candidate has a letter at each of the first `len` positions.
    pub open spec fn columns_fit(self) -> bool {
        forall|i: int|
            0 <= i < self.current.len() ==> {
                &&& (#[trigger] self.current[i]).len() >= self.len
                &&& forall|p: int| 0 <= p < self.len ==> letter(self.current[i][p])
            }
    }
}

} // verus!
