//! ASCII letters, their alphabet index, and per-letter counts of a word.
use vstd::prelude::*;

verus! {

/// An ASCII letter, either case.
pub open spec fn letter(b: u8) -> bool {
    (65 <= b <= 90) || (97 <= b <= 122)
}

/// An ASCII capital letter.
pub open spec fn upper(b: u8) -> bool {
    65 <= b <= 90
}

/// An ASCII small letter.
pub open spec fn lower(b: u8) -> bool {
    97 <= b <= 122
}

/// The ASCII uppercase form of a byte: small letters move up by 32, every other
/// byte stays as it is.
pub open spec fn uppercase(b: u8) -> u8 {
    if lower(b) {
        (b - 32) as u8
    } else {
        b
    }
}

/// Where a byte's uppercase form stands relative to `A`; 0..=25 for a letter.
pub open spec fn letter_index(b: u8) -> int {
    uppercase(b) - 65
}

/// Every byte of `s` is an ASCII letter.
pub open spec fn all_letters(s: Seq<u8>) -> bool {
    forall|i: int| 0 <= i < s.len() ==> letter(#[trigger] s[i])
}

/// How many bytes of `s` are the letter with index `k`, in either case.
pub open spec fn letter_count(s: Seq<u8>, k: int) -> nat
    decreases s.len(),
{
    if s.len() == 0 {
        0
    } else {
        letter_count(s.drop_last(), k) + if letter_index(s.last()) == k {
            1nat
        } else {
            0nat
        }
    }
}

/// How many bytes of `s` are the capital letter with index `k`.
pub open spec fn upper_count(s: Seq<u8>, k: int) -> nat
    decreases s.len(),
{
    if s.len() == 0 {
        0
    } else {
        upper_count(s.drop_last(), k) + if upper(s.last()) && letter_index(s.last()) == k {
            1nat
        } else {
            0nat
        }
    }
}

/// How many bytes of `s` are the small letter with index `k`.
pub open spec fn lower_count(s: Seq<u8>, k: int) -> nat
    decreases s.len(),
{
    if s.len() == 0 {
        0
    } else {
        lower_count(s.drop_last(), k) + if lower(s.last()) && letter_index(s.last()) == k {
            1nat
        } else {
            0nat
        }
    }
}

/// `u8::is_ascii_alphabetic`.
pub fn is_ascii_letter(b: u8) -> (r: bool)
    ensures
        r == letter(b),
{
    (65 <= b && b <= 90) || (97 <= b && b <= 122)
}

/// `u8::is_ascii_uppercase`.
pub fn is_ascii_upper(b: u8) -> (r: bool)
    ensures
        r == upper(b),
{
    65 <= b && b <= 90
}

/// `u8::is_ascii_lowercase`.
pub fn is_ascii_lower(b: u8) -> (r: bool)
    ensures
        r == lower(b),
{
    97 <= b && b <= 122
}

/// `u8::to_ascii_uppercase`.
pub fn to_upper(b: u8) -> (r: u8)
    ensures
        r == uppercase(b),
{
    if 97 <= b && b <= 122 {
        b - 32
    } else {
        b
    }
}

/// Index 0..=25 for an ASCII letter (either case).
pub fn idx(c: u8) -> (r: usize)
    requires
        uppercase(c) >= 65,
    ensures
        r == letter_index(c),
{
    (to_upper(c) - 65) as usize
}

/// Every byte of `s` is an ASCII letter.
pub fn all_ascii_letters(s: &[u8]) -> (r: bool)
    ensures
        r == all_letters(s@),
{
    let mut i: usize = 0;
    while i < s.len()
        invariant
            i <= s.len(),
            forall|j: int| 0 <= j < i ==> letter(#[trigger] s@[j]),
        decreases s.len() - i,
    {
        if !is_ascii_letter(s[i]) {
            return false;
        }
        i = i + 1;
    }
    true
}

/// Per-letter occurrence counts for a word of ASCII letters.
pub fn counts_of(word: &[u8]) -> (c: [usize; 26])
    requires
        all_letters(word@),
    ensures
        forall|k: int| 0 <= k < 26 ==> #[trigger] c@[k] == letter_count(word@, k),
        forall|k: int| 0 <= k < 26 ==> #[trigger] c@[k] <= word@.len(),
{
    let mut c: [usize; 26] = [0usize; 26];
    let mut i: usize = 0;
    while i < word.len()
        invariant
            i <= word.len(),
            all_letters(word@),
            forall|k: int| 0 <= k < 26 ==> #[trigger] c@[k] == letter_count(word@.take(i as int), k),
            forall|k: int| 0 <= k < 26 ==> #[trigger] c@[k] <= i,
        decreases word.len() - i,
    {
        assert(letter(word@[i as int]));
        let k = idx(word[i]);
        proof {
            assert(word@.take(i + 1).drop_last() =~= word@.take(i as int));
        }
        c[k] = c[k] + 1;
        i = i + 1;
    }
    assert(word@.take(word@.len() as int) =~= word@);
    c
}

} // verus!
