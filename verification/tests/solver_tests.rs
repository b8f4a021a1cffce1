use lib::dictionary::load_master;
use lib::model::GuessError;
use lib::solver::{LengthError, Solver};

fn ws(list: &[&str]) -> Vec<Vec<u8>> {
    list.iter().map(|w| w.as_bytes().to_vec()).collect()
}

fn strs(v: &[Vec<u8>]) -> Vec<String> {
    v.iter().map(|w| String::from_utf8(w.clone()).unwrap()).collect()
}

fn solver(list: &[&str]) -> Solver {
    Solver::new(5, ws(list))
}

#[test]
fn new_starts_with_every_word() {
    let s = solver(&["BRAKE", "CRANE"]);
    assert_eq!(s.len(), 5);
    assert_eq!(strs(s.current()), vec!["BRAKE", "CRANE"]);
    assert_eq!(strs(s.master()), vec!["BRAKE", "CRANE"]);
}

#[test]
fn greens_yellow_and_grays_filter_the_list() {
    // R and A green, e yellow, t and c gray.
    let mut s = solver(&["BRAEK", "CRANE", "GRADE", "TRACE", "FRAME", "BRAND"]);
    assert_eq!(s.validate(b"tRAce", b"e"), Ok(()));
    s.apply(b"tRAce", b"e");
    assert_eq!(strs(s.current()), vec!["BRAEK"]);
}

#[test]
fn honest_score_keeps_the_answer() {
    // Answer CRANE, guess TRACE: T gray, R and A green, C yellow, E green.
    let mut s = solver(&["BRACE", "CRANE", "GRACE", "TRACE", "CRATE"]);
    assert_eq!(s.validate(b"tRAcE", b"c"), Ok(()));
    s.apply(b"tRAcE", b"c");
    let left = strs(s.current());
    assert!(left.contains(&"CRANE".to_string()));
    assert!(!left.contains(&"TRACE".to_string()));
    assert_eq!(left, vec!["CRANE"]);
}

#[test]
fn winning_guess_is_removed() {
    let mut s = solver(&["CRANE", "CRATE"]);
    s.apply(b"CRANE", b"");
    assert!(s.current().is_empty());
}

#[test]
fn gray_copy_pins_total_label() {
    // lAbEL: one green L, one gray L -> exactly one L.
    let mut s = solver(&["HAZEL", "LAPEL", "EASEL", "LABEL", "PANEL", "FABLE"]);
    assert_eq!(s.validate(b"lAbEL", b""), Ok(()));
    s.apply(b"lAbEL", b"");
    assert_eq!(strs(s.current()), vec!["HAZEL", "EASEL", "PANEL"]);
}

#[test]
fn gray_copy_pins_total_eerie() {
    // eerie ee: exactly two e's, none at positions 1, 2 or 5, no r, no i.
    let mut s = solver(&["SHEEP", "GEESE", "EERIE", "ABYSS", "OBESE", "SEWED", "TWEED"]);
    assert_eq!(s.validate(b"eerie", b"ee"), Ok(()));
    s.apply(b"eerie", b"ee");
    assert_eq!(strs(s.current()), vec!["SHEEP", "TWEED"]);
}

#[test]
fn validate_length() {
    let s = solver(&["CRANE"]);
    assert_eq!(s.validate(b"cat", b""), Err(GuessError::Length { got: 3, expected: 5 }));
}

#[test]
fn validate_not_letters() {
    let s = solver(&["CRANE"]);
    assert_eq!(s.validate(b"cr4ne", b""), Err(GuessError::NotLetters));
}

#[test]
fn validate_already_fixed() {
    let mut s = solver(&["BRAEK"]);
    s.apply(b"tRAce", b"e");
    assert_eq!(
        s.validate(b"xLxxx", b""),
        Err(GuessError::AlreadyFixed { position: 2, letter: b'R' })
    );
}

#[test]
fn validate_must_capitalize() {
    let mut s = solver(&["BRAEK"]);
    s.apply(b"tRAce", b"e");
    assert_eq!(
        s.validate(b"trace", b""),
        Err(GuessError::MustCapitalize { position: 2, letter: b'R' })
    );
}

#[test]
fn validate_too_many_wrong_position() {
    let s = solver(&["CRANE"]);
    assert_eq!(s.validate(b"crane", b"abcdef"), Err(GuessError::TooManyWrongPosition));
}

#[test]
fn validate_wrong_position_not_letters() {
    let s = solver(&["CRANE"]);
    assert_eq!(s.validate(b"crane", b"e1"), Err(GuessError::WrongPositionNotLetters));
}

#[test]
fn validate_not_in_guess() {
    let s = solver(&["CRANE"]);
    assert_eq!(s.validate(b"sloth", b"e"), Err(GuessError::NotInGuess { letter: b'E' }));
}

#[test]
fn validate_too_many_marks() {
    let s = solver(&["CRANE"]);
    assert_eq!(
        s.validate(b"arose", b"aa"),
        Err(GuessError::TooManyMarks { letter: b'A', marked: 2, available: 1 })
    );
}

#[test]
fn validate_previously_absent() {
    let mut s = solver(&["BRAEK"]);
    s.apply(b"tRAce", b"e");
    assert_eq!(
        s.validate(b"stomp", b"t"),
        Err(GuessError::PreviouslyAbsent { letter: b'T' })
    );
}

#[test]
fn validate_first_position_wins() {
    let mut s = solver(&["CRANE"]);
    s.apply(b"CRANE", b"");
    // Position 1 conflicts (fixed C, capital T) before position 2 (small r).
    assert_eq!(
        s.validate(b"Trane", b""),
        Err(GuessError::AlreadyFixed { position: 1, letter: b'C' })
    );
}

#[test]
fn validate_uppercase_yellow_counts() {
    let s = solver(&["CRANE"]);
    assert_eq!(s.validate(b"crane", b"E"), Ok(()));
}

#[test]
fn reset_restores_everything() {
    let mut s = solver(&["BRAEK", "CRANE", "GRADE"]);
    s.apply(b"tRAce", b"e");
    assert_eq!(s.current().len(), 1);
    s.reset();
    assert_eq!(strs(s.current()), vec!["BRAEK", "CRANE", "GRADE"]);
    assert_eq!(s.validate(b"trace", b""), Ok(()));
}

#[test]
fn available_letters_by_position() {
    let s = solver(&["CRANE", "BRINE", "CRONE"]);
    let letters = s.available_letters();
    let rows: Vec<String> = letters.iter().map(|r| String::from_utf8(r.clone()).unwrap()).collect();
    assert_eq!(rows, vec!["BC", "R", "AIO", "N", "E"]);
}

#[test]
fn set_length_switches_words() {
    let mut s = solver(&["CRANE"]);
    let raw = "cat\ndog\ncrane\nbird\nDOG\n";
    assert_eq!(s.set_length(3, raw), Ok(()));
    assert_eq!(s.len(), 3);
    assert_eq!(strs(s.current()), vec!["CAT", "DOG"]);
    assert_eq!(strs(s.master()), vec!["CAT", "DOG"]);
}

#[test]
fn set_length_without_words_changes_nothing() {
    let mut s = solver(&["CRANE"]);
    assert_eq!(s.set_length(7, "cat\ndog\n"), Err(LengthError::NoWords { len: 7 }));
    assert_eq!(s.len(), 5);
    assert_eq!(strs(s.current()), vec!["CRANE"]);
}

#[test]
fn load_master_trims_filters_sorts_dedups() {
    let raw = "trace\nCRANE\n  slate \nab\ncrane\n\u{3000}ghost\r\nw\u{f6}rds\nfour\n";
    let words = load_master(raw, 5);
    assert_eq!(strs(&words), vec!["CRANE", "GHOST", "SLATE", "TRACE"]);
}

#[test]
fn load_master_last_line_without_newline() {
    assert_eq!(strs(&load_master("zebra\napple", 5)), vec!["APPLE", "ZEBRA"]);
}

#[test]
fn load_master_rejects_inner_space() {
    assert!(load_master("ab cd\n", 5).is_empty());
}

#[test]
fn load_master_empty_text() {
    assert!(load_master("", 5).is_empty());
}

#[test]
fn load_master_zero_length_words() {
    // A trailing newline does not start another line.
    assert!(load_master("abc\n", 0).is_empty());
    assert_eq!(load_master("abc\n\n", 0), vec![Vec::<u8>::new()]);
    assert_eq!(load_master("\n", 0), vec![Vec::<u8>::new()]);
}

#[test]
fn greens_stay_pinned() {
    let mut s = solver(&["BRAEK", "BRAIN", "DRAIN"]);
    s.apply(b"tRAce", b"e");
    assert_eq!(s.validate(b"sRAin", b""), Ok(()));
    s.apply(b"sRAin", b"");
    assert_eq!(
        s.validate(b"xLxxx", b""),
        Err(GuessError::AlreadyFixed { position: 2, letter: b'R' })
    );
    assert_eq!(
        s.validate(b"xrxxx", b""),
        Err(GuessError::MustCapitalize { position: 2, letter: b'R' })
    );
}

#[test]
fn candidates_stay_alphabetized() {
    let mut s = solver(&["CRANE"]);
    let raw = "slate\nbrake\ncrane\nflame\nabide\ngrade\ntrace\nbrace\n";
    assert_eq!(s.set_length(5, raw), Ok(()));
    assert_eq!(
        strs(s.current()),
        vec!["ABIDE", "BRACE", "BRAKE", "CRANE", "FLAME", "GRADE", "SLATE", "TRACE"]
    );
    s.apply(b"slAtE", b"");
    assert_eq!(strs(s.current()), vec!["BRACE", "BRAKE", "CRANE", "GRADE"]);
}

#[test]
fn clues_only_tighten() {
    let mut s = solver(&["BRAEK", "CRANE", "GRADE", "TRACE"]);
    s.apply(b"tRAce", b"e");
    let after_first = strs(s.current());
    s.apply(b"bRAek", b"");
    for w in strs(s.current()) {
        assert!(after_first.contains(&w));
    }
    assert!(s.current().is_empty());
}
