//! Lexicographic byte order on words, and sorting a list of words into
//! strictly increasing order with duplicates removed.
use vstd::prelude::*;

verus! {

/// `a` comes strictly before `b` in lexicographic byte order (the order of
/// `String` and `[u8]`): at the first place where they differ `a` holds the
/// smaller byte, or `a` is a proper prefix of `b`.
pub open spec fn lex_lt(a: Seq<u8>, b: Seq<u8>) -> bool
    decreases a.len(),
{
    if a.len() == 0 {
        b.len() > 0
    } else if b.len() == 0 {
        false
    } else if a[0] != b[0] {
        a[0] < b[0]
    } else {
        lex_lt(a.drop_first(), b.drop_first())
    }
}

/// Each word comes strictly before every later one: sorted, no repeats.
pub open spec fn strictly_sorted(s: Seq<Seq<u8>>) -> bool {
    forall|i: int, j: int| 0 <= i < j < s.len() ==> lex_lt(#[trigger] s[i], #[trigger] s[j])
}

/// The contents of a list of words, each taken by its bytes.
pub open spec fn words(v: Seq<Vec<u8>>) -> Seq<Seq<u8>> {
    v.map_values(|w: Vec<u8>| w@)
}

/// No word comes strictly before itself.
pub proof fn lemma_lex_irreflexive(a: Seq<u8>)
    ensures
        !lex_lt(a, a),
    decreases a.len(),
{
    if a.len() > 0 {
        lemma_lex_irreflexive(a.drop_first());
    }
}

/// Strict precedence is asymmetric.
pub proof fn lemma_lex_asymmetric(a: Seq<u8>, b: Seq<u8>)
    ensures
        lex_lt(a, b) ==> !lex_lt(b, a),
    decreases a.len(),
{
    if a.len() > 0 && b.len() > 0 && a[0] == b[0] {
        lemma_lex_asymmetric(a.drop_first(), b.drop_first());
    }
}

/// Strict precedence is transitive.
pub proof fn lemma_lex_transitive(a: Seq<u8>, b: Seq<u8>, c: Seq<u8>)
    requires
        lex_lt(a, b),
        lex_lt(b, c),
    ensures
        lex_lt(a, c),
    decreases a.len(),
{
    if a.len() > 0 && b.len() > 0 && c.len() > 0 && a[0] == b[0] && b[0] == c[0] {
        lemma_lex_transitive(a.drop_first(), b.drop_first(), c.drop_first());
    }
}

/// A word is in a list with one more word pushed on its end exactly when it
/// was in the list or is the word pushed.
pub proof fn lemma_push_contains(s: Seq<Seq<u8>>, x: Seq<u8>, w: Seq<u8>)
    ensures
        s.push(x).contains(w) <==> s.contains(w) || w == x,
{
    if s.contains(w) {
        let p = choose|p: int| 0 <= p < s.len() && s[p] == w;
        assert(s.push(x)[p] == w);
    }
    if w == x {
        assert(s.push(x)[s.len() as int] == w);
    }
    if s.push(x).contains(w) {
        let p = choose|p: int| 0 <= p < s.push(x).len() && s.push(x)[p] == w;
        if p < s.len() {
            assert(s[p] == w);
        }
    }
}

/// Three-way comparison of two words in lexicographic byte order: negative,
/// zero or positive as `a` comes before, equals or comes after `b`.
pub fn compare_words(a: &[u8], b: &[u8]) -> (r: i8)
    ensures
        r < 0 <==> lex_lt(a@, b@),
        r > 0 <==> lex_lt(b@, a@),
        r == 0 <==> a@ == b@,
{
    let mut i: usize = 0;
    assert(a@.skip(0) =~= a@);
    assert(b@.skip(0) =~= b@);
    while i < a.len() && i < b.len()
        invariant
            i <= a.len(),
            i <= b.len(),
            a@.take(i as int) == b@.take(i as int),
            lex_lt(a@, b@) == lex_lt(a@.skip(i as int), b@.skip(i as int)),
            lex_lt(b@, a@) == lex_lt(b@.skip(i as int), a@.skip(i as int)),
        decreases a.len() - i,
    {
        if a[i] != b[i] {
            proof {
                lemma_lex_asymmetric(a@, b@);
            }
            if a[i] < b[i] {
                return -1;
            } else {
                return 1;
            }
        }
        proof {
            assert(a@.skip(i as int).drop_first() =~= a@.skip(i + 1));
            assert(b@.skip(i as int).drop_first() =~= b@.skip(i + 1));
            assert(a@.take(i + 1) =~= a@.take(i as int).push(a@[i as int]));
            assert(b@.take(i + 1) =~= b@.take(i as int).push(b@[i as int]));
        }
        i = i + 1;
    }
    if a.len() == b.len() {
        assert(a@ =~= a@.take(i as int));
        assert(b@ =~= b@.take(i as int));
        proof {
            lemma_lex_irreflexive(a@);
        }
        0
    } else if a.len() < b.len() {
        assert(a@ =~= a@.take(i as int));
        proof {
            if a@ == b@ {
            }
            lemma_lex_asymmetric(a@, b@);
        }
        -1
    } else {
        assert(b@ =~= b@.take(i as int));
        proof {
            lemma_lex_asymmetric(b@, a@);
        }
        1
    }
}

/// Merges two strictly sorted word lists into one strictly sorted list that
/// holds every word of either, each once.
fn merge_unique(a: Vec<Vec<u8>>, b: Vec<Vec<u8>>) -> (r: Vec<Vec<u8>>)
    requires
        strictly_sorted(words(a@)),
        strictly_sorted(words(b@)),
    ensures
        strictly_sorted(words(r@)),
        forall|w: Seq<u8>|
            #![trigger words(r@).contains(w)]
            words(r@).contains(w) <==> words(a@).contains(w) || words(b@).contains(w),
{
    let ghost wa = words(a@);
    let ghost wb = words(b@);
    let mut r: Vec<Vec<u8>> = Vec::new();
    let mut i: usize = 0;
    let mut j: usize = 0;
    while i < a.len() || j < b.len()
        invariant
            wa == words(a@),
            wb == words(b@),
            strictly_sorted(wa),
            strictly_sorted(wb),
            i <= a.len(),
            j <= b.len(),
            strictly_sorted(words(r@)),
            r@.len() > 0 && i < a.len() ==> lex_lt(words(r@).last(), wa[i as int]),
            r@.len() > 0 && j < b.len() ==> lex_lt(words(r@).last(), wb[j as int]),
            forall|w: Seq<u8>|
                #![trigger words(r@).contains(w)]
                words(r@).contains(w) <==> wa.take(i as int).contains(w) || wb.take(
                    j as int,
                ).contains(w),
        decreases a.len() + b.len() - i - j,
    {
        let ghost old_r = words(r@);
        let take_a: bool;
        let take_b: bool;
        if i < a.len() && j < b.len() {
            let c = compare_words(a[i].as_slice(), b[j].as_slice());
            take_a = c <= 0;
            take_b = c >= 0;
        } else {
            take_a = i < a.len();
            take_b = !take_a;
        }
        let x: Vec<u8>;
        if take_a {
            x = a[i].clone();
        } else {
            x = b[j].clone();
        }
        let ghost xs = x@;
        proof {
            if take_a {
                assert(xs == wa[i as int]);
            } else {
                assert(xs == wb[j as int]);
            }
            if old_r.len() > 0 {
                assert(lex_lt(old_r.last(), xs));
                assert forall|p: int| 0 <= p < old_r.len() implies lex_lt(#[trigger] old_r[p], xs) by {
                    if p < old_r.len() - 1 {
                        lemma_lex_transitive(old_r[p], old_r.last(), xs);
                    }
                }
            }
        }
        r.push(x);
        proof {
            assert(words(r@) =~= old_r.push(xs));
            let nr = words(r@);
            assert forall|p: int, q: int| 0 <= p < q < nr.len() implies lex_lt(
                #[trigger] nr[p],
                #[trigger] nr[q],
            ) by {
                if q < old_r.len() {
                    assert(nr[p] == old_r[p] && nr[q] == old_r[q]);
                }
            }
        }
        if take_a {
            i = i + 1;
        }
        if take_b {
            j = j + 1;
        }
        proof {
            let nr = words(r@);
            assert(nr.last() == xs);
            if i < a.len() {
                if take_a {
                    assert(lex_lt(wa[i - 1], wa[i as int]));
                }
            }
            if j < b.len() {
                if take_b {
                    assert(lex_lt(wb[j - 1], wb[j as int]));
                }
            }
            let oi: int = if take_a { i - 1 } else { i as int };
            let oj: int = if take_b { j - 1 } else { j as int };
            if take_a {
                assert(wa.take(i as int) =~= wa.take(oi).push(wa[oi]));
            }
            if take_b {
                assert(wb.take(j as int) =~= wb.take(oj).push(wb[oj]));
            }
            assert forall|w: Seq<u8>|
                #![trigger nr.contains(w)]
                nr.contains(w) <==> wa.take(i as int).contains(w) || wb.take(j as int).contains(
                    w,
                ) by {
                lemma_push_contains(old_r, xs, w);
                if take_a {
                    lemma_push_contains(wa.take(oi), wa[oi], w);
                }
                if take_b {
                    lemma_push_contains(wb.take(oj), wb[oj], w);
                }
                assert(old_r.contains(w) <==> wa.take(oi).contains(w) || wb.take(oj).contains(w));
            }
        }
    }
    proof {
        assert(wa.take(a@.len() as int) =~= wa);
        assert(wb.take(b@.len() as int) =~= wb);
    }
    r
}

/// The words of `v[lo..hi]`, sorted strictly increasing with repeats removed.
fn sort_unique_range(v: &Vec<Vec<u8>>, lo: usize, hi: usize) -> (r: Vec<Vec<u8>>)
    requires
        lo <= hi <= v.len(),
    ensures
        strictly_sorted(words(r@)),
        forall|w: Seq<u8>|
            #![trigger words(r@).contains(w)]
            words(r@).contains(w) <==> words(v@).subrange(lo as int, hi as int).contains(w),
    decreases hi - lo,
{
    let ghost all = words(v@);
    if hi - lo == 0 {
        let r: Vec<Vec<u8>> = Vec::new();
        assert(words(r@) =~= Seq::<Seq<u8>>::empty());
        assert forall|w: Seq<u8>|
            #![trigger words(r@).contains(w)]
            words(r@).contains(w) <==> all.subrange(lo as int, hi as int).contains(w) by {
            assert(all.subrange(lo as int, hi as int).len() == 0);
        }
        r
    } else if hi - lo == 1 {
        let mut r: Vec<Vec<u8>> = Vec::new();
        r.push(v[lo].clone());
        assert(words(r@) =~= all.subrange(lo as int, hi as int));
        r
    } else {
        let mid = lo + (hi - lo) / 2;
        let left = sort_unique_range(v, lo, mid);
        let right = sort_unique_range(v, mid, hi);
        let r = merge_unique(left, right);
        assert forall|w: Seq<u8>|
            #![trigger words(r@).contains(w)]
            words(r@).contains(w) <==> all.subrange(lo as int, hi as int).contains(w) by {
            let s = all.subrange(lo as int, hi as int);
            let sl = all.subrange(lo as int, mid as int);
            let sr = all.subrange(mid as int, hi as int);
            assert(s =~= sl + sr);
            if s.contains(w) {
                let p = choose|p: int| 0 <= p < s.len() && s[p] == w;
                if p < sl.len() {
                    assert(sl[p] == w);
                } else {
                    assert(sr[p - sl.len()] == w);
                }
            }
            if sl.contains(w) {
                let p = choose|p: int| 0 <= p < sl.len() && sl[p] == w;
                assert(s[p] == w);
            }
            if sr.contains(w) {
                let p = choose|p: int| 0 <= p < sr.len() && sr[p] == w;
                assert(s[p + sl.len()] == w);
            }
        }
        r
    }
}

/// The words of `v`, sorted strictly increasing in byte order with repeats
/// removed (what `sort` followed by `dedup` gives).
pub fn sort_unique(v: &Vec<Vec<u8>>) -> (r: Vec<Vec<u8>>)
    ensures
        strictly_sorted(words(r@)),
        forall|w: Seq<u8>|
            #![trigger words(r@).contains(w)]
            words(r@).contains(w) <==> words(v@).contains(w),
{
    let r = sort_unique_range(v, 0, v.len());
    assert(words(v@).subrange(0, v@.len() as int) =~= words(v@));
    r
}

/// A strictly sorted list is fixed by the words it holds: two strictly
/// sorted lists that hold the same words are the same list.
pub proof fn lemma_sorted_lists_equal(a: Seq<Seq<u8>>, b: Seq<Seq<u8>>)
    requires
        strictly_sorted(a),
        strictly_sorted(b),
        forall|w: Seq<u8>| a.contains(w) <==> b.contains(w),
    ensures
        a == b,
    decreases a.len(),
{
    if a.len() == 0 {
        if b.len() > 0 {
            assert(b.contains(b[0]));
        }
        assert(a =~= b);
    } else {
        assert(a.contains(a[a.len() - 1]));
        let x = a.last();
        assert(b.contains(x));
        assert(b.len() > 0);
        let y = b.last();
        assert(b.contains(y)) by {
            assert(b[b.len() - 1] == y);
        }
        assert(a.contains(y));
        if x != y {
            let j = choose|j: int| 0 <= j < b.len() && b[j] == x;
            let i = choose|i: int| 0 <= i < a.len() && a[i] == y;
            assert(j < b.len() - 1);
            assert(i < a.len() - 1);
            assert(lex_lt(x, y));
            assert(lex_lt(y, x));
            lemma_lex_asymmetric(x, y);
        }
        let da = a.drop_last();
        let db = b.drop_last();
        assert forall|w: Seq<u8>| da.contains(w) <==> db.contains(w) by {
            if da.contains(w) {
                let i = choose|i: int| 0 <= i < da.len() && da[i] == w;
                assert(a[i] == w);
                assert(lex_lt(w, x));
                lemma_lex_irreflexive(w);
                assert(b.contains(w));
                let j = choose|j: int| 0 <= j < b.len() && b[j] == w;
                assert(j != b.len() - 1);
                assert(db[j] == w);
            }
            if db.contains(w) {
                let j = choose|j: int| 0 <= j < db.len() && db[j] == w;
                assert(b[j] == w);
                assert(lex_lt(w, y));
                lemma_lex_irreflexive(w);
                assert(a.contains(w));
                let i = choose|i: int| 0 <= i < a.len() && a[i] == w;
                assert(i != a.len() - 1);
                assert(da[i] == w);
            }
        }
        assert(strictly_sorted(da)) by {
            assert forall|i: int, j: int| 0 <= i < j < da.len() implies lex_lt(
                #[trigger] da[i],
                #[trigger] da[j],
            ) by {
                assert(da[i] == a[i] && da[j] == a[j]);
            }
        }
        assert(strictly_sorted(db)) by {
            assert forall|i: int, j: int| 0 <= i < j < db.len() implies lex_lt(
                #[trigger] db[i],
                #[trigger] db[j],
            ) by {
                assert(db[i] == b[i] && db[j] == b[j]);
            }
        }
        lemma_sorted_lists_equal(da, db);
        assert(a =~= da.push(x));
        assert(b =~= db.push(y));
    }
}

} // verus!
