use vstd::prelude::*;

verus! {

/// Lexicographic order on letter sequences, letters compared by code point.
pub open spec fn lex_lt(a: Seq<char>, b: Seq<char>) -> bool
    decreases a.len(),
{
    if b.len() == 0 {
        false
    } else if a.len() == 0 {
        true
    } else if a[0] != b[0] {
        a[0] < b[0]
    } else {
        lex_lt(a.drop_first(), b.drop_first())
    }
}

/// The letter sequences that a list of vectors holds.
pub open spec fn texts(v: Seq<Vec<char>>) -> Seq<Seq<char>> {
    v.map_values(|s: Vec<char>| s@)
}

pub open spec fn strictly_sorted(s: Seq<Seq<char>>) -> bool {
    forall|i: int, j: int| 0 <= i < j < s.len() ==> lex_lt(#[trigger] s[i], #[trigger] s[j])
}

/// `r` holds the strings of `xs`, each once, in lexicographic order.
pub open spec fn is_normal_form(xs: Seq<Seq<char>>, r: Seq<Seq<char>>) -> bool {
    strictly_sorted(r) && r.to_set() == xs.to_set()
}

/// The deduplicated, sorted form of a candidate list.
pub open spec fn normal(xs: Seq<Seq<char>>) -> Seq<Seq<char>> {
    choose|r: Seq<Seq<char>>| is_normal_form(xs, r)
}

pub proof fn lemma_lex_irreflexive(a: Seq<char>)
    ensures
        !lex_lt(a, a),
    decreases a.len(),
{
    if a.len() > 0 {
        lemma_lex_irreflexive(a.drop_first());
    }
}

pub proof fn lemma_lex_total(a: Seq<char>, b: Seq<char>)
    ensures
        a == b || lex_lt(a, b) || lex_lt(b, a),
    decreases a.len(),
{
    if a.len() == 0 || b.len() == 0 {
        if a.len() == 0 && b.len() == 0 {
            assert(a =~= b);
        }
    } else if a[0] == b[0] {
        lemma_lex_total(a.drop_first(), b.drop_first());
        if a.drop_first() == b.drop_first() {
            assert(a =~= seq![a[0]] + a.drop_first());
            assert(b =~= seq![b[0]] + b.drop_first());
        }
    }
}

pub proof fn lemma_lex_transitive(a: Seq<char>, b: Seq<char>, c: Seq<char>)
    requires
        lex_lt(a, b),
        lex_lt(b, c),
    ensures
        lex_lt(a, c),
    decreases a.len(),
{
    if a.len() > 0 && a[0] == b[0] && b[0] == c[0] {
        lemma_lex_transitive(a.drop_first(), b.drop_first(), c.drop_first());
    }
}

pub proof fn lemma_lex_asymmetric(a: Seq<char>, b: Seq<char>)
    requires
        lex_lt(a, b),
    ensures
        !lex_lt(b, a),
{
    if lex_lt(b, a) {
        lemma_lex_transitive(a, b, a);
        lemma_lex_irreflexive(a);
    }
}

/// Whether `a` comes before `b` lexicographically.
pub fn lex_less(a: &Vec<char>, b: &Vec<char>) -> (r: bool)
    ensures
        r == lex_lt(a@, b@),
{
    let mut i: usize = 0;
    assert(a@.skip(0) =~= a@);
    assert(b@.skip(0) =~= b@);
    while i < a.len() && i < b.len() && a[i] == b[i]
        invariant
            i <= a@.len(),
            i <= b@.len(),
            lex_lt(a@, b@) == lex_lt(a@.skip(i as int), b@.skip(i as int)),
        decreases a.len() - i,
    {
        assert(a@.skip(i as int).drop_first() =~= a@.skip(i + 1));
        assert(b@.skip(i as int).drop_first() =~= b@.skip(i + 1));
        i += 1;
    }
    if i == b.len() {
        false
    } else if i == a.len() {
        true
    } else {
        a[i] < b[i]
    }
}

/// Removes duplicates from a candidate list and sorts it.
pub fn normalize(strings: Vec<Vec<char>>) -> (r: Vec<Vec<char>>)
    ensures
        is_normal_form(texts(strings@), texts(r@)),
{
    let ghost all = texts(strings@);
    let mut rest = strings;
    let mut out: Vec<Vec<char>> = Vec::new();
    while rest.len() > 0
        invariant
            strictly_sorted(texts(out@)),
            texts(out@).to_set() + texts(rest@).to_set() == all.to_set(),
        decreases rest.len(),
    {
        let ghost before = texts(rest@);
        let x = rest.pop().unwrap();
        assert(before =~= texts(rest@).push(x@));
        proof {
            texts(rest@).lemma_push_to_set_commute(x@);
        }
        let ghost old_out = texts(out@);
        let mut p: usize = 0;
        while p < out.len() && lex_less(&out[p], &x)
            invariant
                p <= out@.len(),
                texts(out@) == old_out,
                forall|q: int| 0 <= q < p ==> lex_lt(#[trigger] texts(out@)[q], x@),
            decreases out.len() - p,
        {
            p += 1;
        }
        if p < out.len() && !lex_less(&x, &out[p]) {
            proof {
                lemma_lex_total(texts(out@)[p as int], x@);
                assert(texts(out@).contains(x@));
            }
            assert(texts(out@).to_set() + texts(rest@).to_set() =~= all.to_set());
        } else {
            proof {
                if p < out@.len() {
                    assert forall|j: int| p < j < old_out.len() implies lex_lt(x@, #[trigger] old_out[j]) by {
                        lemma_lex_transitive(x@, old_out[p as int], old_out[j]);
                    }
                }
            }
            out.insert(p, x);
            let ghost new_out = texts(out@);
            assert(new_out =~= old_out.insert(p as int, x@));
            assert(new_out.to_set() =~= old_out.to_set().insert(x@)) by {
                assert(new_out[p as int] == x@);
                assert forall|y: Seq<char>| old_out.contains(y) implies new_out.contains(y) by {
                    let k = choose|k: int| 0 <= k < old_out.len() && old_out[k] == y;
                    if k < p {
                        assert(new_out[k] == y);
                    } else {
                        assert(new_out[k + 1] == y);
                    }
                }
                assert forall|y: Seq<char>| new_out.contains(y) implies y == x@ || old_out.contains(y) by {
                    let k = choose|k: int| 0 <= k < new_out.len() && new_out[k] == y;
                    if k < p {
                        assert(old_out[k] == y);
                    } else if k > p {
                        assert(old_out[k - 1] == y);
                    }
                }
            }
            assert forall|i: int, j: int| 0 <= i < j < new_out.len() implies lex_lt(#[trigger] new_out[i], #[trigger] new_out[j]) by {
                if j < p {
                } else if j == p {
                } else if i < p {
                    assert(lex_lt(old_out[i], old_out[j - 1]));
                } else if i == p {
                } else {
                    assert(lex_lt(old_out[i - 1], old_out[j - 1]));
                }
            }
            assert(texts(out@).to_set() + texts(rest@).to_set() =~= all.to_set());
        }
    }
    assert(texts(out@).to_set() =~= all.to_set());
    out
}

/// Two strictly sorted lists that hold the same strings are equal.
pub proof fn lemma_sorted_unique(a: Seq<Seq<char>>, b: Seq<Seq<char>>)
    requires
        strictly_sorted(a),
        strictly_sorted(b),
        a.to_set() == b.to_set(),
    ensures
        a == b,
    decreases a.len(),
{
    if a.len() == 0 {
        if b.len() > 0 {
            assert(b.to_set().contains(b[0]));
        }
        assert(a =~= b);
    } else {
        assert(a.to_set().contains(a[0]));
        assert(b.to_set().contains(a[0]));
        assert(b.len() > 0);
        assert(a.to_set().contains(b[0]));
        let j = choose|j: int| 0 <= j < b.len() && b[j] == a[0];
        let i = choose|i: int| 0 <= i < a.len() && a[i] == b[0];
        if j > 0 {
            assert(lex_lt(b[0], b[j]));
            if i > 0 {
                assert(lex_lt(a[0], a[i]));
                lemma_lex_asymmetric(a[0], a[i]);
            } else {
                lemma_lex_irreflexive(a[0]);
            }
        }
        let ta = a.drop_first();
        let tb = b.drop_first();
        assert forall|y: Seq<char>| ta.to_set().contains(y) implies tb.to_set().contains(y) by {
            let k = choose|k: int| 0 <= k < ta.len() && ta[k] == y;
            assert(a[k + 1] == y);
            assert(b.to_set().contains(y));
            let m = choose|m: int| 0 <= m < b.len() && b[m] == y;
            if m == 0 {
                assert(lex_lt(a[0], a[k + 1]));
                lemma_lex_irreflexive(a[0]);
            }
            assert(tb[m - 1] == y);
        }
        assert forall|y: Seq<char>| tb.to_set().contains(y) implies ta.to_set().contains(y) by {
            let k = choose|k: int| 0 <= k < tb.len() && tb[k] == y;
            assert(b[k + 1] == y);
            assert(a.to_set().contains(y));
            let m = choose|m: int| 0 <= m < a.len() && a[m] == y;
            if m == 0 {
                assert(lex_lt(b[0], b[k + 1]));
                lemma_lex_irreflexive(b[0]);
            }
            assert(ta[m - 1] == y);
        }
        assert(ta.to_set() =~= tb.to_set());
        lemma_sorted_unique(ta, tb);
        assert(a =~= seq![a[0]] + ta);
        assert(b =~= seq![b[0]] + tb);
    }
}

/// A list in normal form is the normal form of its input.
pub proof fn lemma_normal_is_chosen(xs: Seq<Seq<char>>, r: Seq<Seq<char>>)
    requires
        is_normal_form(xs, r),
    ensures
        normal(xs) == r,
{
    lemma_sorted_unique(normal(xs), r);
}

/// Normalizing an already normalized list changes nothing: deduplicating and
/// sorting twice gives what doing it once gives.
pub proof fn lemma_normalize_idempotent(xs: Seq<Seq<char>>, once: Seq<Seq<char>>, twice: Seq<Seq<char>>)
    requires
        is_normal_form(xs, once),
        is_normal_form(once, twice),
    ensures
        twice == once,
{
    assert(is_normal_form(once, once));
    lemma_sorted_unique(twice, once);
}

} // verus!
