//! What a line typed at the prompt asks for, and the word-length argument.
use vstd::prelude::*;
use vstd::utf8::{encode_scalar, encode_utf8, char_is_scalar, has_width_1_encoding,
    has_width_2_encoding, has_width_3_encoding, has_width_4_encoding};
use crate::text::{chars_of, split_tokens, tokens};

verus! {

broadcast use char_is_scalar;

/// What a line typed at the prompt asks for.
#[derive(PartialEq, Eq, Debug)]
pub enum Command {
    /// Nothing but whitespace: ask again.
    Blank,
    /// `q`: quit.
    Quit,
    /// `n`: forget all clues, restore the full candidate list.
    Reset,
    /// `n <k>` with `k` in 2..=15: reset and switch to `k`-letter words.
    ResetTo { len: usize },
    /// `n <x>` where `x` is not a number in 2..=15.
    BadLength,
    /// `word [letters]`: a guess, as the bytes of its first token, and the
    /// wrong-position letters, as the bytes of all further tokens run together.
    Guess { guess: Vec<u8>, wrongs: Vec<u8> },
}

/// Where the word list is to be found.
#[derive(PartialEq, Eq, Structural, Debug, Clone, Copy)]
pub enum DictSource {
    /// The fixed absolute path.
    Absolute,
    /// A search near the working directory and the executable.
    Search,
}

/// An ASCII decimal digit.
pub open spec fn digit(c: char) -> bool {
    48 <= c as u32 <= 57
}

/// The value of a string of ASCII decimal digits.
pub open spec fn decimal(d: Seq<char>) -> nat
    decreases d.len(),
{
    if d.len() == 0 {
        0
    } else {
        decimal(d.drop_last()) * 10 + (d.last() as u32 - 48) as nat
    }
}

/// `t` without a leading `+`.
pub open spec fn unsigned_part(t: Seq<char>) -> Seq<char> {
    if t.len() > 0 && t[0] == '+' {
        t.drop_first()
    } else {
        t
    }
}

/// Every character of `d` is an ASCII digit.
pub open spec fn all_digits(d: Seq<char>) -> bool {
    forall|i: int| 0 <= i < d.len() ==> digit(#[trigger] d[i])
}

/// The number `str::parse::<usize>` reads from `t`, when it reads one: an
/// optional `+`, then one or more ASCII digits. (`parse` also fails when the
/// value exceeds `usize::MAX`; every use here asks for a value of at most 15,
/// so that case needs no separate statement.)
pub open spec fn decimal_number(t: Seq<char>) -> Option<nat> {
    let d = unsigned_part(t);
    if d.len() > 0 && all_digits(d) {
        Some(decimal(d))
    } else {
        None
    }
}

/// `t` is a number in 2..=15, the word lengths the solver offers.
pub open spec fn word_length(t: Seq<char>) -> Option<nat> {
    match decimal_number(t) {
        Some(v) => if 2 <= v <= 15 {
            Some(v)
        } else {
            None
        },
        None => None,
    }
}

/// The UTF-8 bytes of the tokens after the first, run together.
pub open spec fn joined_bytes(ts: Seq<Seq<char>>) -> Seq<u8>
    decreases ts.len(),
{
    if ts.len() == 0 {
        Seq::empty()
    } else {
        joined_bytes(ts.drop_last()) + encode_utf8(ts.last())
    }
}

proof fn lemma_encode_push(s: Seq<char>, c: char)
    ensures
        encode_utf8(s.push(c)) == encode_utf8(s) + encode_scalar(c as u32),
    decreases s.len(),
{
    if s.len() == 0 {
        assert(s.push(c).drop_first() =~= Seq::<char>::empty());
        assert(encode_utf8(Seq::<char>::empty()) =~= Seq::<u8>::empty());
        assert(encode_utf8(s.push(c)) =~= encode_scalar(c as u32));
        assert(encode_utf8(s) =~= Seq::<u8>::empty());
        assert(encode_utf8(s) + encode_scalar(c as u32) =~= encode_scalar(c as u32));
    } else {
        lemma_encode_push(s.drop_first(), c);
        assert(s.push(c).drop_first() =~= s.drop_first().push(c));
        assert(encode_utf8(s.push(c)) =~= encode_scalar(s[0] as u32) + encode_utf8(
            s.drop_first().push(c),
        ));
    }
}

/// Appends the UTF-8 encoding of `c`.
fn push_char_utf8(out: &mut Vec<u8>, c: char)
    ensures
        final(out)@ == old(out)@ + encode_scalar(c as u32),
{
    let u = c as u32;
    let ghost o = out@;
    if u <= 0x7F {
        assert(has_width_1_encoding(u));
        out.push((u & 0x7F) as u8);
        assert(out@ =~= o + encode_scalar(u));
    } else if u <= 0x7FF {
        assert(has_width_2_encoding(u));
        out.push(0xC0 | ((u >> 6) & 0x1F) as u8);
        out.push(0x80 | (u & 0x3F) as u8);
        assert(out@ =~= o + encode_scalar(u));
    } else if u <= 0xFFFF {
        assert(has_width_3_encoding(u));
        out.push(0xE0 | ((u >> 12) & 0x0F) as u8);
        out.push(0x80 | ((u >> 6) & 0x3F) as u8);
        out.push(0x80 | (u & 0x3F) as u8);
        assert(out@ =~= o + encode_scalar(u));
    } else {
        assert(has_width_4_encoding(u));
        out.push(0xF0 | ((u >> 18) & 0x7) as u8);
        out.push(0x80 | ((u >> 12) & 0x3F) as u8);
        out.push(0x80 | ((u >> 6) & 0x3F) as u8);
        out.push(0x80 | (u & 0x3F) as u8);
        assert(out@ =~= o + encode_scalar(u));
    }
}

/// Appends the UTF-8 encoding of a run of characters.
fn push_utf8(out: &mut Vec<u8>, t: &Vec<char>)
    ensures
        final(out)@ == old(out)@ + encode_utf8(t@),
{
    let ghost o = out@;
    let mut i: usize = 0;
    assert(t@.take(0) =~= Seq::<char>::empty());
    assert(o + encode_utf8(Seq::<char>::empty()) =~= o);
    while i < t.len()
        invariant
            i <= t.len(),
            out@ == o + encode_utf8(t@.take(i as int)),
        decreases t.len() - i,
    {
        proof {
            lemma_encode_push(t@.take(i as int), t@[i as int]);
            assert(t@.take(i + 1) =~= t@.take(i as int).push(t@[i as int]));
        }
        push_char_utf8(out, t[i]);
        assert(out@ =~= o + encode_utf8(t@.take(i + 1)));
        i = i + 1;
    }
    assert(t@.take(t@.len() as int) =~= t@);
}

/// The word length that a token names, when it names one in 2..=15.
pub fn parse_word_length(t: &Vec<char>) -> (r: Option<usize>)
    ensures
        r matches Some(n) ==> word_length(t@) == Some(n as nat),
        r is None ==> word_length(t@) is None,
{
    let start: usize = if t.len() > 0 && t[0] == '+' {
        1
    } else {
        0
    };
    let ghost d = unsigned_part(t@);
    assert(d =~= t@.skip(start as int));
    if start >= t.len() {
        return None;
    }
    // The value so far, capped at 16: enough to tell 2..=15 from the rest.
    let mut v: usize = 0;
    let mut i: usize = start;
    assert(d.take(0) =~= Seq::<char>::empty());
    while i < t.len()
        invariant
            start <= i <= t.len(),
            d == t@.skip(start as int),
            d == unsigned_part(t@),
            forall|j: int| 0 <= j < i - start ==> digit(#[trigger] d[j]),
            v as nat == if decimal(d.take(i - start)) < 16 {
                decimal(d.take(i - start))
            } else {
                16
            },
        decreases t.len() - i,
    {
        let c = t[i];
        assert(d[i - start] == c);
        let u = c as u32;
        if u < 48 || u > 57 {
            assert(!digit(d[i - start]));
            return None;
        }
        proof {
            assert(d.take(i - start + 1).drop_last() =~= d.take(i - start));
            assert(d.take(i - start + 1).last() == c);
        }
        let nv = v * 10 + (u - 48) as usize;
        v = if nv < 16 {
            nv
        } else {
            16
        };
        i = i + 1;
    }
    assert(d.take(d.len() as int) =~= d);
    if 2 <= v && v <= 15 {
        Some(v)
    } else {
        None
    }
}

/// What a line typed at the prompt asks for. The line is split at
/// whitespace; `q` alone quits; a first token `n` resets, switching length
/// when a second token names one; anything else is a guess.
pub fn parse_command(line: &str) -> (r: Command)
    ensures
        ({
            let ts = tokens(line@);
            match r {
                Command::Blank => ts.len() == 0,
                Command::Quit => ts == seq![seq!['q']],
                Command::Reset => ts.len() == 1 && ts[0] == seq!['n'],
                Command::ResetTo { len } => ts.len() >= 2 && ts[0] == seq!['n'] && word_length(ts[1])
                    == Some(len as nat),
                Command::BadLength => ts.len() >= 2 && ts[0] == seq!['n'] && word_length(ts[1]) is None,
                Command::Guess { guess, wrongs } => {
                    &&& ts.len() >= 1
                    &&& ts != seq![seq!['q']]
                    &&& ts[0] != seq!['n']
                    &&& guess@ == encode_utf8(ts[0])
                    &&& wrongs@ == joined_bytes(ts.drop_first())
                },
            }
        }),
{
    let toks = split_tokens(line);
    let ghost ts = tokens(line@);
    assert(toks@.len() == ts.len());
    if toks.len() == 0 {
        return Command::Blank;
    }
    assert(toks@[0]@ == ts[0]);
    let first = &toks[0];
    if toks.len() == 1 && first.len() == 1 && first[0] == 'q' {
        assert(ts[0] =~= seq!['q']);
        assert(ts =~= seq![seq!['q']]);
        return Command::Quit;
    }
    assert(ts != seq![seq!['q']]) by {
        if ts == seq![seq!['q']] {
            assert(ts[0] == seq!['q']);
            assert(first@ == seq!['q']);
            assert(first@[0] == 'q');
        }
    }
    if first.len() == 1 && first[0] == 'n' {
        assert(ts[0] =~= seq!['n']);
        if toks.len() == 1 {
            return Command::Reset;
        }
        assert(toks@[1]@ == ts[1]);
        match parse_word_length(&toks[1]) {
            Some(k) => {
                return Command::ResetTo { len: k };
            },
            None => {
                return Command::BadLength;
            },
        }
    }
    assert(ts[0] != seq!['n']) by {
        if ts[0] == seq!['n'] {
            assert(first@ == seq!['n']);
            assert(first@[0] == 'n');
        }
    }
    let mut guess: Vec<u8> = Vec::new();
    push_utf8(&mut guess, first);
    assert(guess@ =~= encode_utf8(ts[0]));
    let mut wrongs: Vec<u8> = Vec::new();
    let ghost rest = ts.drop_first();
    let mut i: usize = 1;
    assert(rest.take(0) =~= Seq::<Seq<char>>::empty());
    while i < toks.len()
        invariant
            1 <= i <= toks.len(),
            toks@.map_values(|t: Vec<char>| t@) == ts,
            rest == ts.drop_first(),
            wrongs@ == joined_bytes(rest.take(i - 1)),
        decreases toks.len() - i,
    {
        assert(toks@[i as int]@ == rest[i - 1]);
        proof {
            assert(rest.take(i as int).drop_last() =~= rest.take(i - 1));
            assert(rest.take(i as int).last() == rest[i - 1]);
        }
        push_utf8(&mut wrongs, &toks[i]);
        i = i + 1;
    }
    assert(rest.take(rest.len() as int) =~= rest);
    Command::Guess { guess, wrongs }
}

/// The word length asked for on the command line: 5 when none is given,
/// the number when it is one in 2..=15, else nothing (a usage error).
pub fn parse_length_arg(arg: Option<&str>) -> (r: Option<usize>)
    ensures
        arg is None ==> r == Some(5usize),
        arg matches Some(a) ==> (r matches Some(n) ==> word_length(a@) == Some(n as nat)),
        arg matches Some(a) ==> (r is None <==> word_length(a@) is None),
{
    match arg {
        None => Some(5),
        Some(a) => {
            let t = chars_of(a);
            parse_word_length(&t)
        },
    }
}

/// Where to look for the word list: the absolute path when it names a file,
/// else a search.
pub fn dict_path(abs_is_file: bool) -> (r: DictSource)
    ensures
        r == (if abs_is_file {
            DictSource::Absolute
        } else {
            DictSource::Search
        }),
{
    if abs_is_file {
        DictSource::Absolute
    } else {
        DictSource::Search
    }
}

/// A token names a word length exactly when, after an optional `+`, it is
/// one or more characters '0'..='9' whose decimal value lies in 2..=15; the
/// length named is that value.
pub proof fn lemma_word_length_exactly(t: Seq<char>)
    ensures
        word_length(t) is Some <==> {
            let d = unsigned_part(t);
            &&& d.len() > 0
            &&& forall|i: int| 0 <= i < d.len() ==> 48 <= (#[trigger] d[i]) as u32 <= 57
            &&& 2 <= decimal(d) <= 15
        },
        word_length(t) is Some ==> word_length(t) == Some(decimal(unsigned_part(t))),
{
}

/// Every length 2..=15 written in decimal is read as that length: a single
/// digit '2'..='9', or '1' followed by '0'..='5'.
pub proof fn lemma_every_length_is_read(c1: char, c2: char, d: int)
    ensures
        2 <= d <= 9 && c1 as u32 == 48 + d ==> word_length(seq![c1]) == Some(d as nat),
        0 <= d <= 5 && c1 == '1' && c2 as u32 == 48 + d ==> word_length(seq![c1, c2]) == Some(
            (10 + d) as nat,
        ),
{
    if 2 <= d <= 9 && c1 as u32 == 48 + d {
        let t = seq![c1];
        assert(t[0] != '+');
        assert(unsigned_part(t) == t);
        assert(t.drop_last() =~= Seq::<char>::empty());
        assert(decimal(Seq::<char>::empty()) == 0);
        assert(t.last() == c1);
        assert(decimal(t) == d);
        assert(all_digits(t));
    }
    if 0 <= d <= 5 && c1 == '1' && c2 as u32 == 48 + d {
        let t = seq![c1, c2];
        assert(t[0] != '+');
        assert(unsigned_part(t) == t);
        assert(t.drop_last() =~= seq![c1]);
        assert(seq![c1].drop_last() =~= Seq::<char>::empty());
        assert(decimal(Seq::<char>::empty()) == 0);
        assert(seq![c1].last() == c1);
        assert(c1 as u32 == 49);
        assert(decimal(seq![c1]) == 1);
        assert(t.last() == c2);
        assert(decimal(t) == 10 + d);
        assert(all_digits(t));
    }
}

} // verus!
