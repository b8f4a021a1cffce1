//! The word list: from the text of a dictionary file to the alphabetized,
//! uppercase words of one length.
use vstd::prelude::*;
use crate::letters::{upper, uppercase};
use crate::order::{sort_unique, strictly_sorted, words};
use crate::text::{lines, line_pieces, trim, trim_bounds, lemma_line_pieces_len};

verus! {

broadcast use vstd::string::group_string_axioms;

/// An ASCII letter, as a character.
pub open spec fn letter_char(c: char) -> bool {
    (65 <= c as u32 <= 90) || (97 <= c as u32 <= 122)
}

/// A line, once trimmed, counts as a word of length `len`: exactly `len`
/// characters, all of them ASCII letters (so also exactly `len` bytes).
pub open spec fn word_line(t: Seq<char>, len: nat) -> bool {
    &&& t.len() == len
    &&& forall|i: int| 0 <= i < t.len() ==> letter_char(#[trigger] t[i])
}

/// The uppercase bytes of a line of ASCII letters.
pub open spec fn upper_bytes(t: Seq<char>) -> Seq<u8> {
    t.map_values(|c: char| uppercase((c as u32) as u8))
}

/// The words of length `len` that the given lines hold, in line order: each
/// line trimmed, kept when it is a word, and uppercased.
pub open spec fn line_words(ls: Seq<Seq<char>>, len: nat) -> Seq<Seq<u8>>
    decreases ls.len(),
{
    if ls.len() == 0 {
        Seq::empty()
    } else {
        let rest = line_words(ls.drop_last(), len);
        if word_line(trim(ls.last()), len) {
            rest.push(upper_bytes(trim(ls.last())))
        } else {
            rest
        }
    }
}

/// The words of length `len` in the text of a word list.
pub open spec fn dictionary_words(text: Seq<char>, len: nat) -> Seq<Seq<u8>> {
    line_words(lines(text), len)
}

/// A word of the list: exactly `len` bytes, all ASCII capitals.
pub open spec fn capital_word(w: Seq<u8>, len: nat) -> bool {
    w.len() == len && forall|i: int| 0 <= i < w.len() ==> upper(#[trigger] w[i])
}

/// Every word the lines give is `len` capitals.
proof fn lemma_line_words_capital(ls: Seq<Seq<char>>, len: nat)
    ensures
        forall|i: int|
            0 <= i < line_words(ls, len).len() ==> capital_word(
                #[trigger] line_words(ls, len)[i],
                len,
            ),
    decreases ls.len(),
{
    if ls.len() > 0 {
        lemma_line_words_capital(ls.drop_last(), len);
        let t = trim(ls.last());
        if word_line(t, len) {
            let u = upper_bytes(t);
            assert forall|i: int| 0 <= i < u.len() implies upper(#[trigger] u[i]) by {
                assert(letter_char(t[i]));

            }
            let rest = line_words(ls.drop_last(), len);
            assert forall|i: int| 0 <= i < rest.push(u).len() implies capital_word(
                #[trigger] rest.push(u)[i],
                len,
            ) by {
                if i < rest.len() {
                    assert(rest.push(u)[i] == rest[i]);
                }
            }
        }
    }
}

/// The word a line holds, if it holds one of length `len`.
fn line_word(line: &Vec<char>, len: usize) -> (r: Option<Vec<u8>>)
    ensures
        r is Some <==> word_line(trim(line@), len as nat),
        r matches Some(w) ==> w@ == upper_bytes(trim(line@)),
{
    let (a, b) = trim_bounds(line);
    let ghost t = trim(line@);
    if b - a != len {
        return None;
    }
    let mut w: Vec<u8> = Vec::new();
    let mut i: usize = a;
    while i < b
        invariant
            a <= i <= b <= line@.len(),
            t == line@.subrange(a as int, b as int),
            t == trim(line@),
            b - a == len,
            forall|j: int| 0 <= j < i - a ==> letter_char(#[trigger] t[j]),
            w@ == upper_bytes(t).take(i - a),
        decreases b - i,
    {
        let c = line[i];
        let u = c as u32;
        if !((65 <= u && u <= 90) || (97 <= u && u <= 122)) {
            assert(t[i - a] == c);
            assert(!letter_char(t[i - a]));
            assert(!word_line(t, len as nat));
            return None;
        }
        let byte = u as u8;
        let up = if 97 <= byte && byte <= 122 {
            byte - 32
        } else {
            byte
        };
        proof {
            assert(t[i - a] == c);
            assert(upper_bytes(t)[i - a] == up);
            assert(upper_bytes(t).take(i - a + 1) =~= upper_bytes(t).take(i - a).push(up));
        }
        w.push(up);
        i = i + 1;
    }
    assert(w@ =~= upper_bytes(t));
    Some(w)
}

/// The alphabetized, uppercase words of length `len` in the text of a word
/// list: each line is trimmed, lines of exactly `len` ASCII letters are kept
/// and uppercased, and the result is sorted with repeats removed.
pub fn load_master(raw: &str, len: usize) -> (r: Vec<Vec<u8>>)
    ensures
        strictly_sorted(words(r@)),
        forall|w: Seq<u8>|
            #![trigger words(r@).contains(w)]
            words(r@).contains(w) <==> dictionary_words(raw@, len as nat).contains(w),
        forall|i: int| 0 <= i < r@.len() ==> capital_word(#[trigger] words(r@)[i], len as nat),
        forall|w: Seq<u8>|
            #![trigger words(r@).contains(w)]
            words(r@).contains(w) <==> exists|i: int|
                0 <= i < lines(raw@).len() && spells(trim(#[trigger] lines(raw@)[i]), len as nat, w),
{
    let ghost s = raw@;
    let mut found: Vec<Vec<u8>> = Vec::new();
    let mut cur: Vec<char> = Vec::new();
    assert(s.take(0) =~= Seq::<char>::empty());
    for c in it: raw.chars()
        invariant
            it.seq() == s,
            line_pieces(s.take(it.index() as int)).last() == cur@,
            words(found@) == line_words(
                line_pieces(s.take(it.index() as int)).drop_last(),
                len as nat,
            ),
    {
        let ghost i = it.index() as int;
        let ghost p = line_pieces(s.take(i));
        proof {
            lemma_line_pieces_len(s.take(i));
            assert(s.take(i + 1).drop_last() =~= s.take(i));
            assert(s.take(i + 1).last() == c);
        }
        if c == '\n' {
            let w = line_word(&cur, len);
            match w {
                Some(word) => {
                    found.push(word);
                },
                None => {},
            }
            cur = Vec::new();
            proof {
                let np = p.push(Seq::<char>::empty());
                assert(np.drop_last() =~= p);
                assert(p =~= p.drop_last().push(p.last()));
                assert(words(found@) =~= line_words(p, len as nat));
                assert(cur@ =~= np.last());
            }
        } else {
            cur.push(c);
            proof {
                let np = p.update(p.len() - 1, p.last().push(c));
                assert(np.drop_last() =~= p.drop_last());
                assert(cur@ =~= np.last());
            }
        }
    }
    proof {
        assert(s.take(s.len() as int) =~= s);
        lemma_line_pieces_len(s);
    }
    let ghost p = line_pieces(s);
    if cur.len() > 0 {
        let w = line_word(&cur, len);
        match w {
            Some(word) => {
                found.push(word);
            },
            None => {},
        }
        proof {
            assert(p =~= p.drop_last().push(p.last()));
            assert(words(found@) =~= line_words(p, len as nat));
        }
    } else {
        assert(cur@ =~= Seq::<char>::empty());
    }
    let r = sort_unique(&found);
    proof {
        lemma_dictionary_words_exactly(s, len as nat);
        lemma_line_words_capital(lines(s), len as nat);
        let dw = dictionary_words(s, len as nat);
        assert forall|i: int| 0 <= i < r@.len() implies capital_word(
            #[trigger] words(r@)[i],
            len as nat,
        ) by {
            let w = words(r@)[i];
            assert(words(r@).contains(w));
            let j = choose|j: int| 0 <= j < dw.len() && dw[j] == w;
        }
    }
    r
}

/// `t` is `len` ASCII letters (A..Z or a..z), and `w` is its uppercase
/// spelling: each small letter moved up by 32, each capital kept.
pub open spec fn spells(t: Seq<char>, len: nat, w: Seq<u8>) -> bool {
    &&& t.len() == len
    &&& w.len() == len
    &&& forall|j: int|
        0 <= j < len ==> {
            let c = (#[trigger] t[j]) as u32;
            &&& (65 <= c <= 90 || 97 <= c <= 122)
            &&& w[j] as u32 == if c >= 97 {
                (c - 32) as u32
            } else {
                c
            }
        }
}

proof fn lemma_word_line_spells(t: Seq<char>, len: nat, w: Seq<u8>)
    ensures
        (word_line(t, len) && w == upper_bytes(t)) <==> spells(t, len, w),
{
    if word_line(t, len) && w == upper_bytes(t) {
        assert forall|j: int| 0 <= j < len implies {
            let c = (#[trigger] t[j]) as u32;
            &&& (65 <= c <= 90 || 97 <= c <= 122)
            &&& w[j] as u32 == if c >= 97 {
                (c - 32) as u32
            } else {
                c
            }
        } by {
            assert(letter_char(t[j]));
        }
    }
    if spells(t, len, w) {
        assert forall|j: int| 0 <= j < t.len() implies letter_char(#[trigger] t[j]) by {}
        assert forall|j: int| 0 <= j < w.len() implies w[j] == upper_bytes(t)[j] by {
            let c = t[j] as u32;
            assert(65 <= c <= 90 || 97 <= c <= 122);
        }
        assert(w =~= upper_bytes(t));
    }
}

proof fn lemma_line_words_exactly(ls: Seq<Seq<char>>, len: nat, w: Seq<u8>)
    ensures
        line_words(ls, len).contains(w) <==> exists|i: int|
            0 <= i < ls.len() && spells(trim(#[trigger] ls[i]), len, w),
    decreases ls.len(),
{
    if ls.len() == 0 {
    } else {
        let d = ls.drop_last();
        lemma_line_words_exactly(d, len, w);
        let t = trim(ls.last());
        lemma_word_line_spells(t, len, w);
        let rest = line_words(d, len);
        if word_line(t, len) {
            crate::order::lemma_push_contains(rest, upper_bytes(t), w);
        }
        if exists|i: int| 0 <= i < ls.len() && spells(trim(#[trigger] ls[i]), len, w) {
            let i = choose|i: int| 0 <= i < ls.len() && spells(trim(#[trigger] ls[i]), len, w);
            if i < ls.len() - 1 {
                assert(d[i] == ls[i]);
            }
        }
        if exists|i: int| 0 <= i < d.len() && spells(trim(#[trigger] d[i]), len, w) {
            let i = choose|i: int| 0 <= i < d.len() && spells(trim(#[trigger] d[i]), len, w);
            assert(ls[i] == d[i]);
        }
        if spells(t, len, w) {
            assert(ls[ls.len() - 1] == ls.last());
        }
    }
}

/// The words of length `len` in a word list are exactly the uppercase
/// spellings of its lines that, once trimmed, are `len` ASCII letters
/// (A..Z or a..z): each such line gives its word, and nothing else is a word.
pub proof fn lemma_dictionary_words_exactly(text: Seq<char>, len: nat)
    ensures
        forall|w: Seq<u8>|
            #![trigger dictionary_words(text, len).contains(w)]
            dictionary_words(text, len).contains(w) <==> exists|i: int|
                0 <= i < lines(text).len() && spells(trim(#[trigger] lines(text)[i]), len, w),
{
    assert forall|w: Seq<u8>|
        #![trigger dictionary_words(text, len).contains(w)]
        dictionary_words(text, len).contains(w) <==> exists|i: int|
            0 <= i < lines(text).len() && spells(trim(#[trigger] lines(text)[i]), len, w) by {
        lemma_line_words_exactly(lines(text), len, w);
    }
}

} // verus!
