//! Text as characters: Unicode whitespace, trimming, and splitting into lines
//! and into whitespace-separated tokens.
use vstd::prelude::*;

verus! {

/// The Unicode `White_Space` property, which `char::is_whitespace`,
/// `str::trim` and `str::split_whitespace` go by.
pub open spec fn whitespace(c: char) -> bool {
    let u = c as u32;
    ||| 9 <= u <= 13
    ||| u == 32
    ||| u == 0x85
    ||| u == 0xA0
    ||| u == 0x1680
    ||| 0x2000 <= u <= 0x200A
    ||| u == 0x2028
    ||| u == 0x2029
    ||| u == 0x202F
    ||| u == 0x205F
    ||| u == 0x3000
}

/// `char::is_whitespace`.
pub fn is_whitespace(c: char) -> (r: bool)
    ensures
        r == whitespace(c),
{
    let u = c as u32;
    (9 <= u && u <= 13) || u == 32 || u == 0x85 || u == 0xA0 || u == 0x1680 || (0x2000 <= u && u
        <= 0x200A) || u == 0x2028 || u == 0x2029 || u == 0x202F || u == 0x205F || u == 0x3000
}

/// `t` without its leading whitespace.
pub open spec fn trim_start(t: Seq<char>) -> Seq<char>
    decreases t.len(),
{
    if t.len() > 0 && whitespace(t[0]) {
        trim_start(t.drop_first())
    } else {
        t
    }
}

/// `t` without its trailing whitespace.
pub open spec fn trim_end(t: Seq<char>) -> Seq<char>
    decreases t.len(),
{
    if t.len() > 0 && whitespace(t.last()) {
        trim_end(t.drop_last())
    } else {
        t
    }
}

/// `str::trim`: `t` without leading and trailing whitespace.
pub open spec fn trim(t: Seq<char>) -> Seq<char> {
    trim_end(trim_start(t))
}

/// The pieces of `s` between newline characters, in order; there is always
/// one more piece than there are newlines.
pub open spec fn line_pieces(s: Seq<char>) -> Seq<Seq<char>>
    decreases s.len(),
{
    if s.len() == 0 {
        seq![Seq::<char>::empty()]
    } else {
        let p = line_pieces(s.drop_last());
        if s.last() == '\n' {
            p.push(Seq::<char>::empty())
        } else {
            p.update(p.len() - 1, p.last().push(s.last()))
        }
    }
}

/// `str::lines`: the newline-separated pieces of `s`, where a newline at the
/// very end does not start another, empty, line. (`str::lines` also drops a
/// carriage return before each newline; every use of a line here trims it,
/// and a carriage return is whitespace, so the two agree wherever it matters.)
pub open spec fn lines(s: Seq<char>) -> Seq<Seq<char>> {
    let p = line_pieces(s);
    if p.last().len() == 0 {
        p.drop_last()
    } else {
        p
    }
}

/// The pieces of `s` between whitespace characters, in order; runs of
/// whitespace give empty pieces.
pub open spec fn blank_pieces(s: Seq<char>) -> Seq<Seq<char>>
    decreases s.len(),
{
    if s.len() == 0 {
        seq![Seq::<char>::empty()]
    } else {
        let p = blank_pieces(s.drop_last());
        if whitespace(s.last()) {
            p.push(Seq::<char>::empty())
        } else {
            p.update(p.len() - 1, p.last().push(s.last()))
        }
    }
}

/// `str::split_whitespace`: the nonempty runs of non-whitespace in `s`.
pub open spec fn tokens(s: Seq<char>) -> Seq<Seq<char>> {
    blank_pieces(s).filter(|t: Seq<char>| t.len() > 0)
}

pub proof fn lemma_line_pieces_len(s: Seq<char>)
    ensures
        line_pieces(s).len() >= 1,
    decreases s.len(),
{
    if s.len() > 0 {
        lemma_line_pieces_len(s.drop_last());
    }
}

pub proof fn lemma_blank_pieces_len(s: Seq<char>)
    ensures
        blank_pieces(s).len() >= 1,
    decreases s.len(),
{
    if s.len() > 0 {
        lemma_blank_pieces_len(s.drop_last());
    }
}

/// Trimming the front skips exactly the leading whitespace.
proof fn lemma_trim_start_skip(t: Seq<char>, a: int)
    requires
        0 <= a <= t.len(),
        forall|i: int| 0 <= i < a ==> whitespace(#[trigger] t[i]),
        a < t.len() ==> !whitespace(t[a]),
    ensures
        trim_start(t) == t.skip(a),
    decreases a,
{
    if a == 0 {
        assert(t.skip(0) =~= t);
    } else {
        let d = t.drop_first();
        assert forall|i: int| 0 <= i < a - 1 implies whitespace(#[trigger] d[i]) by {
            assert(d[i] == t[i + 1]);
        }
        if a - 1 < d.len() {
            assert(d[a - 1] == t[a]);
        }
        lemma_trim_start_skip(d, a - 1);
        assert(d.skip(a - 1) =~= t.skip(a));
    }
}

/// Trimming the back keeps exactly what comes before the trailing whitespace.
proof fn lemma_trim_end_take(t: Seq<char>, b: int)
    requires
        0 <= b <= t.len(),
        forall|i: int| b <= i < t.len() ==> whitespace(#[trigger] t[i]),
        b > 0 ==> !whitespace(t[b - 1]),
    ensures
        trim_end(t) == t.take(b),
    decreases t.len() - b,
{
    if b == t.len() {
        assert(t.take(b) =~= t);
    } else {
        let d = t.drop_last();
        assert forall|i: int| b <= i < d.len() implies whitespace(#[trigger] d[i]) by {
            assert(d[i] == t[i]);
        }
        if b > 0 {
            assert(d[b - 1] == t[b - 1]);
        }
        lemma_trim_end_take(d, b);
        assert(d.take(b) =~= t.take(b));
    }
}

/// Where the trimmed part of `t` starts and ends: `trim(t) == t[a..b]`.
pub fn trim_bounds(t: &Vec<char>) -> (r: (usize, usize))
    ensures
        r.0 <= r.1 <= t@.len(),
        trim(t@) == t@.subrange(r.0 as int, r.1 as int),
{
    let mut a: usize = 0;
    while a < t.len() && is_whitespace(t[a])
        invariant
            a <= t.len(),
            forall|i: int| 0 <= i < a ==> whitespace(#[trigger] t@[i]),
        decreases t.len() - a,
    {
        a = a + 1;
    }
    proof {
        lemma_trim_start_skip(t@, a as int);
    }
    let ghost s = t@.skip(a as int);
    let mut b: usize = t.len();
    while b > a && is_whitespace(t[b - 1])
        invariant
            a <= b <= t.len(),
            forall|i: int| b <= i < t@.len() ==> whitespace(#[trigger] t@[i]),
        decreases b,
    {
        b = b - 1;
    }
    proof {
        assert forall|i: int| b - a <= i < s.len() implies whitespace(#[trigger] s[i]) by {
            assert(s[i] == t@[i + a]);
        }
        if b > a {
            assert(s[b - a - 1] == t@[b - 1]);
        }
        lemma_trim_end_take(s, b - a);
        assert(s.take(b - a) =~= t@.subrange(a as int, b as int));
    }
    (a, b)
}

/// The characters of a string.
pub fn chars_of(s: &str) -> (r: Vec<char>)
    ensures
        r@ == s@,
{
    let mut r: Vec<char> = Vec::new();
    for c in it: s.chars()
        invariant
            it.seq() == s@,
            r@ == s@.take(it.index() as int),
    {
        proof {
            assert(s@.take(it.index() + 1) =~= r@.push(c));
        }
        r.push(c);
    }
    assert(s@.take(s@.len() as int) =~= s@);
    r
}

/// `str::split_whitespace`: the nonempty runs of non-whitespace characters.
pub fn split_tokens(s: &str) -> (r: Vec<Vec<char>>)
    ensures
        r@.map_values(|t: Vec<char>| t@) == tokens(s@),
{
    let ghost text = s@;
    let ghost nonempty = |t: Seq<char>| t.len() > 0;
    let mut r: Vec<Vec<char>> = Vec::new();
    let mut cur: Vec<char> = Vec::new();
    assert(text.take(0) =~= Seq::<char>::empty());
    assert(seq![Seq::<char>::empty()].drop_last().filter(nonempty) =~= Seq::<Seq<char>>::empty()) by {
        reveal(Seq::filter);
    }
    for c in it: s.chars()
        invariant
            it.seq() == text,
            nonempty == (|t: Seq<char>| t.len() > 0),
            blank_pieces(text.take(it.index() as int)).last() == cur@,
            r@.map_values(|t: Vec<char>| t@) == blank_pieces(text.take(it.index() as int)).drop_last().filter(
                nonempty,
            ),
    {
        let ghost i = it.index() as int;
        let ghost p = blank_pieces(text.take(i));
        proof {
            lemma_blank_pieces_len(text.take(i));
            assert(text.take(i + 1).drop_last() =~= text.take(i));
            assert(text.take(i + 1).last() == c);
        }
        if is_whitespace(c) {
            let ghost old_r = r@.map_values(|t: Vec<char>| t@);
            if cur.len() > 0 {
                let t = cur;
                r.push(t);
            }
            cur = Vec::new();
            proof {
                let np = p.push(Seq::<char>::empty());
                assert(np.drop_last() =~= p);
                let q = p.drop_last().push(p.last());
                assert(q =~= p);
                reveal(Seq::filter);
                assert(q.drop_last() =~= p.drop_last());
                assert(q.filter(nonempty) == if nonempty(q.last()) {
                    q.drop_last().filter(nonempty).push(q.last())
                } else {
                    q.drop_last().filter(nonempty)
                });
                assert(r@.map_values(|t: Vec<char>| t@) =~= p.filter(nonempty));
                assert(cur@ =~= np.last());
            }
        } else {
            cur.push(c);
            proof {
                let np = p.update(p.len() - 1, p.last().push(c));
                assert(np.drop_last() =~= p.drop_last());
                assert(cur@ =~= np.last());
            }
        }
    }
    proof {
        assert(text.take(text.len() as int) =~= text);
        lemma_blank_pieces_len(text);
    }
    let ghost p = blank_pieces(text);
    if cur.len() > 0 {
        r.push(cur);
    }
    proof {
        let q = p.drop_last().push(p.last());
        assert(q =~= p);
        reveal(Seq::filter);
        assert(q.drop_last() =~= p.drop_last());
        assert(q.filter(nonempty) == if nonempty(q.last()) {
            q.drop_last().filter(nonempty).push(q.last())
        } else {
            q.drop_last().filter(nonempty)
        });
        assert(r@.map_values(|t: Vec<char>| t@) =~= p.filter(nonempty));
    }
    r
}

} // verus!
