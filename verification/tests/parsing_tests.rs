use lib::command::{dict_path, parse_command, parse_length_arg, Command, DictSource};
use lib::letters::{counts_of, idx, to_upper};
use lib::order::{compare_words, sort_unique};
use lib::text::{is_whitespace, split_tokens, trim_bounds};

#[test]
fn blank_lines() {
    assert_eq!(parse_command(""), Command::Blank);
    assert_eq!(parse_command("  \t \n"), Command::Blank);
}

#[test]
fn quit() {
    assert_eq!(parse_command("q"), Command::Quit);
    assert_eq!(parse_command("  q \n"), Command::Quit);
}

#[test]
fn q_with_more_is_a_guess() {
    assert_eq!(
        parse_command("q x"),
        Command::Guess { guess: b"q".to_vec(), wrongs: b"x".to_vec() }
    );
}

#[test]
fn reset_commands() {
    assert_eq!(parse_command("n"), Command::Reset);
    assert_eq!(parse_command("n 6"), Command::ResetTo { len: 6 });
    assert_eq!(parse_command("n +6"), Command::ResetTo { len: 6 });
    assert_eq!(parse_command("n 006 extra"), Command::ResetTo { len: 6 });
    assert_eq!(parse_command("n 16"), Command::BadLength);
    assert_eq!(parse_command("n 1"), Command::BadLength);
    assert_eq!(parse_command("n abc"), Command::BadLength);
    assert_eq!(parse_command("n -5"), Command::BadLength);
    assert_eq!(parse_command("n +"), Command::BadLength);
    assert_eq!(parse_command("n 99999999999999999999999999"), Command::BadLength);
}

#[test]
fn guess_lines() {
    assert_eq!(
        parse_command("tRAce e\n"),
        Command::Guess { guess: b"tRAce".to_vec(), wrongs: b"e".to_vec() }
    );
    assert_eq!(
        parse_command("eerie e e"),
        Command::Guess { guess: b"eerie".to_vec(), wrongs: b"ee".to_vec() }
    );
    assert_eq!(
        parse_command("crane"),
        Command::Guess { guess: b"crane".to_vec(), wrongs: Vec::new() }
    );
}

#[test]
fn guess_bytes_are_utf8() {
    assert_eq!(
        parse_command("cr\u{e4}nk \u{20ac}"),
        Command::Guess { guess: "cr\u{e4}nk".as_bytes().to_vec(), wrongs: "\u{20ac}".as_bytes().to_vec() }
    );
    assert_eq!(
        parse_command("a\u{3000}b\u{1f600}"),
        Command::Guess { guess: b"a".to_vec(), wrongs: "b\u{1f600}".as_bytes().to_vec() }
    );
}

#[test]
fn length_argument() {
    assert_eq!(parse_length_arg(None), Some(5));
    assert_eq!(parse_length_arg(Some("5")), Some(5));
    assert_eq!(parse_length_arg(Some("15")), Some(15));
    assert_eq!(parse_length_arg(Some("2")), Some(2));
    assert_eq!(parse_length_arg(Some("+7")), Some(7));
    assert_eq!(parse_length_arg(Some("16")), None);
    assert_eq!(parse_length_arg(Some("1")), None);
    assert_eq!(parse_length_arg(Some(" 5")), None);
    assert_eq!(parse_length_arg(Some("")), None);
    assert_eq!(parse_length_arg(Some("five")), None);
}

#[test]
fn dictionary_location() {
    assert_eq!(dict_path(true), DictSource::Absolute);
    assert_eq!(dict_path(false), DictSource::Search);
}

#[test]
fn letter_index_and_counts() {
    assert_eq!(idx(b'A'), 0);
    assert_eq!(idx(b'z'), 25);
    assert_eq!(to_upper(b'q'), b'Q');
    assert_eq!(to_upper(b'!'), b'!');
    let c = counts_of(b"eErie");
    assert_eq!(c[4], 3);
    assert_eq!(c[17], 1);
    assert_eq!(c[8], 1);
    assert_eq!(c.iter().sum::<usize>(), 5);
}

#[test]
fn byte_order() {
    assert!(compare_words(b"ABC", b"ABD") < 0);
    assert!(compare_words(b"AB", b"ABC") < 0);
    assert!(compare_words(b"B", b"ABC") > 0);
    assert_eq!(compare_words(b"ABC", b"ABC"), 0);
}

#[test]
fn sorting_removes_repeats() {
    let v: Vec<Vec<u8>> = vec![b"PEAR".to_vec(), b"APPLE".to_vec(), b"PEAR".to_vec(), b"FIG".to_vec(), b"APPLE".to_vec()];
    assert_eq!(sort_unique(&v), vec![b"APPLE".to_vec(), b"FIG".to_vec(), b"PEAR".to_vec()]);
    assert!(sort_unique(&Vec::new()).is_empty());
}

#[test]
fn whitespace_and_tokens() {
    assert!(is_whitespace('\u{85}'));
    assert!(is_whitespace('\u{2009}'));
    assert!(!is_whitespace('\u{200b}'));
    let toks = split_tokens(" ab\u{a0}c  d ");
    let toks: Vec<String> = toks.iter().map(|t| t.iter().collect()).collect();
    assert_eq!(toks, vec!["ab", "c", "d"]);
    let line: Vec<char> = "\t  word \r".chars().collect();
    assert_eq!(trim_bounds(&line), (3, 7));
}
