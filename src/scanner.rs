use vstd::arithmetic::div_mod::lemma_fundamental_div_mod_converse;
use vstd::arithmetic::mul::{lemma_mul_is_commutative, lemma_mul_is_distributive_add};
use vstd::prelude::*;
use vstd::std_specs::iter::IteratorSpec;

use crate::error::{FResult, FactoringError};
use crate::order::{lemma_normal_is_chosen, normal, normalize, strictly_sorted, texts};
use crate::solver::{
    is_plain_start, lemma_expansion_member, lemma_other_base, lemma_start_needs_plain_aug, table_of,
    AmbiguousBases, PossibilityTable, letter_code, letters_expansion, possible_chains, Chain,
};

verus! {

/// The letters before the first '3' terminator.
pub open spec fn until_terminator(t: Seq<char>) -> Seq<char>
    decreases t.len(),
{
    if t.len() == 0 || t[0] == '3' {
        seq![]
    } else {
        seq![t[0]] + until_terminator(t.drop_first())
    }
}

/// The letters that are read: a leading '5' marker is dropped, and reading
/// stops at the first '3' marker.
pub open spec fn body_of(input: Seq<char>) -> Seq<char> {
    if input.len() > 0 && input[0] == '5' {
        until_terminator(input.drop_first())
    } else {
        until_terminator(input)
    }
}

/// The letter at `i`, or the fully ambiguous 'N' past the end.
pub open spec fn letter_at(body: Seq<char>, i: int) -> char {
    if 0 <= i < body.len() {
        body[i]
    } else {
        'N'
    }
}

/// The concrete codons of the triplet that starts at `i`.
pub open spec fn codon_at(body: Seq<char>, i: int) -> FResult<Seq<Chain>> {
    letters_expansion(body[i], letter_at(body, i + 1), letter_at(body, i + 2))
}

/// A start codon: there is a codon, and every codon translates to 'M'.
pub open spec fn is_start(chains: Seq<Chain>) -> bool {
    chains.len() > 0 && forall|k: int| 0 <= k < chains.len() ==> (#[trigger] chains[k]).translation() == Some('M')
}

pub open spec fn has_stop(chains: Seq<Chain>) -> bool {
    exists|k: int| 0 <= k < chains.len() && (#[trigger] chains[k]).translation().is_none()
}

pub open spec fn amino_of(c: Chain) -> char {
    match c.translation() {
        Some(l) => l,
        None => 'N',
    }
}

pub open spec fn amino_letters(chains: Seq<Chain>) -> Seq<char> {
    chains.map_values(|c: Chain| amino_of(c))
}

/// Every candidate extended by every letter: letters outer-most, candidates
/// inner-most; one single-letter candidate per letter when there are none yet.
pub open spec fn grow(strings: Seq<Seq<char>>, letters: Seq<char>) -> Seq<Seq<char>> {
    if strings.len() == 0 {
        letters.map_values(|l: char| seq![l])
    } else {
        Seq::new(
            strings.len() * letters.len(),
            |k: int| strings[k % (strings.len() as int)].push(letters[k / (strings.len() as int)]),
        )
    }
}

/// The segments once an unterminated reading frame has been reported.
pub open spec fn close(strings: Seq<Seq<char>>, segs: Seq<Seq<Seq<char>>>) -> Seq<Seq<Seq<char>>> {
    if strings.len() > 0 {
        segs.push(normal(strings))
    } else {
        segs
    }
}

/// The state after the triplet at `i`: next position, seeking flag,
/// candidates and finished segments.
pub open spec fn step(
    i: int,
    seeking: bool,
    chains: Seq<Chain>,
    strings: Seq<Seq<char>>,
    segs: Seq<Seq<Seq<char>>>,
) -> (int, bool, Seq<Seq<char>>, Seq<Seq<Seq<char>>>) {
    if seeking {
        if is_start(chains) {
            (i + 3, false, strings, segs)
        } else {
            (i + 1, true, strings, segs)
        }
    } else if has_stop(chains) {
        (i + 3, true, seq![], segs.push(normal(strings)))
    } else {
        (i + 3, false, grow(strings, amino_letters(chains)), segs)
    }
}

/// The segments that scanning `body` from position `i` in the given state yields.
pub open spec fn scan(
    body: Seq<char>,
    i: int,
    seeking: bool,
    strings: Seq<Seq<char>>,
    segs: Seq<Seq<Seq<char>>>,
) -> FResult<Seq<Seq<Seq<char>>>>
    decreases body.len() - i,
{
    if i < 0 || i >= body.len() {
        Ok(close(strings, segs))
    } else {
        match codon_at(body, i) {
            Err(e) => Err(e),
            Ok(chains) => {
                let (ni, ns, nstr, nsegs) = step(i, seeking, chains, strings, segs);
                if i + 2 >= body.len() {
                    Ok(close(nstr, nsegs))
                } else {
                    scan(body, ni, ns, nstr, nsegs)
                }
            },
        }
    }
}

/// The segments of a whole body, scanned from its start.
pub open spec fn segments_of(body: Seq<char>) -> FResult<Seq<Seq<Seq<char>>>> {
    scan(body, 0, true, Seq::empty(), Seq::empty())
}

pub open spec fn seg_texts(v: Seq<Vec<Vec<char>>>) -> Seq<Seq<Seq<char>>> {
    v.map_values(|s: Vec<Vec<char>>| texts(s@))
}

/// `a` and `b` joined by a single space.
pub open spec fn joined(a: Seq<char>, b: Seq<char>) -> Seq<char> {
    a + seq![' '] + b
}

/// Every accumulated string joined with every item: accumulated strings
/// outer-most, items inner-most. An empty side leaves the other as it is.
pub open spec fn cross(acc: Seq<Seq<char>>, items: Seq<Seq<char>>) -> Seq<Seq<char>> {
    if items.len() == 0 {
        acc
    } else if acc.len() == 0 {
        items
    } else {
        Seq::new(
            acc.len() * items.len(),
            |k: int| joined(acc[k / (items.len() as int)], items[k % (items.len() as int)]),
        )
    }
}

/// The cross-product of all segments, left to right.
pub open spec fn combined(segs: Seq<Seq<Seq<char>>>) -> Seq<Seq<char>>
    decreases segs.len(),
{
    if segs.len() == 0 {
        seq![]
    } else {
        cross(combined(segs.drop_last()), segs.last())
    }
}

/// Every protein string that `input` can translate to, or the first error.
pub open spec fn decode(input: Seq<char>) -> FResult<Seq<Seq<char>>> {
    match segments_of(body_of(input)) {
        Ok(segs) => Ok(combined(segs)),
        Err(e) => Err(e),
    }
}

/// Appends the letters of `s` to `out`.
fn push_all(out: &mut Vec<char>, s: &Vec<char>)
    ensures
        final(out)@ == old(out)@ + s@,
{
    let mut i: usize = 0;
    while i < s.len()
        invariant
            i <= s@.len(),
            out@ == old(out)@ + s@.take(i as int),
        decreases s.len() - i,
    {
        out.push(s[i]);
        assert(out@ =~= old(out)@ + s@.take(i + 1));
        i += 1;
    }
    assert(s@.take(s@.len() as int) =~= s@);
}

fn copy_text(s: &Vec<char>) -> (r: Vec<char>)
    ensures
        r@ == s@,
{
    let mut r: Vec<char> = Vec::new();
    push_all(&mut r, s);
    assert(r@ =~= s@);
    r
}

/// The letters of `input` that are read; see `body_of`.
pub fn body_chars(input: &Vec<char>) -> (r: Vec<char>)
    ensures
        r@ == body_of(input@),
{
    let mut i: usize = if input.len() > 0 && input[0] == '5' { 1 } else { 0 };
    let ghost t = if input@.len() > 0 && input@[0] == '5' { input@.drop_first() } else { input@ };
    assert(input@.skip(i as int) =~= t);
    let mut out: Vec<char> = Vec::new();
    while i < input.len() && input[i] != '3'
        invariant
            i <= input@.len(),
            out@ + until_terminator(input@.skip(i as int)) == until_terminator(t),
        decreases input.len() - i,
    {
        assert(input@.skip(i as int).drop_first() =~= input@.skip(i + 1));
        out.push(input[i]);
        assert(out@ + until_terminator(input@.skip(i + 1)) =~= until_terminator(t));
        i += 1;
    }
    assert(out@ =~= until_terminator(t));
    out
}

fn appended(s: &Vec<char>, l: char) -> (r: Vec<char>)
    ensures
        r@ == s@.push(l),
{
    let mut r = copy_text(s);
    r.push(l);
    r
}

/// Extends every candidate by every letter; see `grow`.
pub fn grow_candidates(strings: &Vec<Vec<char>>, letters: &Vec<char>) -> (r: Vec<Vec<char>>)
    ensures
        texts(r@) == grow(texts(strings@), letters@),
{
    let n = strings.len();
    let mut out: Vec<Vec<char>> = Vec::new();
    if n == 0 {
        let mut j: usize = 0;
        while j < letters.len()
            invariant
                j <= letters@.len(),
                texts(out@) == letters@.take(j as int).map_values(|l: char| seq![l]),
            decreases letters.len() - j,
        {
            let mut one: Vec<char> = Vec::new();
            one.push(letters[j]);
            assert(one@ =~= seq![letters@[j as int]]);
            let ghost before = texts(out@);
            out.push(one);
            assert(texts(out@) =~= before.push(seq![letters@[j as int]]));
            assert(texts(out@) =~= letters@.take(j + 1).map_values(|l: char| seq![l]));
            j += 1;
        }
        assert(letters@.take(letters@.len() as int) =~= letters@);
        return out;
    }
    let ghost st = texts(strings@);
    let mut j: usize = 0;
    while j < letters.len()
        invariant
            j <= letters@.len(),
            n == strings@.len(),
            n > 0,
            st == texts(strings@),
            out@.len() == j * n,
            forall|k: int| 0 <= k < out@.len() ==> #[trigger] texts(out@)[k] == st[k % (n as int)].push(letters@[k / (n as int)]),
        decreases letters.len() - j,
    {
        let mut i: usize = 0;
        while i < n
            invariant
                j < letters@.len(),
                i <= n,
                n == strings@.len(),
                st == texts(strings@),
                out@.len() == j * n + i,
                forall|k: int| 0 <= k < out@.len() ==> #[trigger] texts(out@)[k] == st[k % (n as int)].push(letters@[k / (n as int)]),
            decreases n - i,
        {
            let item = appended(&strings[i], letters[j]);
            proof {
                lemma_fundamental_div_mod_converse(out@.len() as int, n as int, j as int, i as int);
            }
            let ghost before = texts(out@);
            assert(st[i as int] == strings@[i as int]@);
            out.push(item);
            assert(texts(out@) =~= before.push(st[i as int].push(letters@[j as int])));
            i += 1;
        }
        proof {
            lemma_mul_is_distributive_add(n as int, j as int, 1);
            lemma_mul_is_commutative(n as int, j as int);
            lemma_mul_is_commutative(n as int, j + 1);
        }
        j += 1;
    }
    proof {
        lemma_mul_is_commutative(n as int, letters@.len() as int);
    }
    assert(texts(out@) =~= grow(st, letters@));
    out
}

/// The amino-acid letter of each codon, or `None` when one of them is a stop codon.
fn translations(chains: &Vec<Chain>) -> (r: Option<Vec<char>>)
    requires
        forall|k: int| 0 <= k < chains@.len() ==> (#[trigger] chains@[k]).is_complete(),
    ensures
        match r {
            None => has_stop(chains@),
            Some(v) => !has_stop(chains@) && v@ == amino_letters(chains@),
        },
{
    let mut out: Vec<char> = Vec::new();
    let mut i: usize = 0;
    while i < chains.len()
        invariant
            i <= chains@.len(),
            forall|k: int| 0 <= k < chains@.len() ==> (#[trigger] chains@[k]).is_complete(),
            out@ == amino_letters(chains@.take(i as int)),
            forall|k: int| 0 <= k < i ==> (#[trigger] chains@[k]).translation().is_some(),
        decreases chains.len() - i,
    {
        match chains[i].finalise() {
            Ok(Some(l)) => {
                out.push(l);
                assert(out@ =~= amino_letters(chains@.take(i + 1)));
            },
            _ => {
                return None;
            },
        }
        i += 1;
    }
    assert(chains@.take(i as int) =~= chains@);
    Some(out)
}

/// Whether every codon translates to methionine, the start codon's amino acid.
fn all_start(chains: &Vec<Chain>) -> (r: bool)
    requires
        forall|k: int| 0 <= k < chains@.len() ==> (#[trigger] chains@[k]).is_complete(),
    ensures
        r == is_start(chains@),
{
    if chains.len() == 0 {
        return false;
    }
    let mut i: usize = 0;
    while i < chains.len()
        invariant
            i <= chains@.len(),
            forall|k: int| 0 <= k < chains@.len() ==> (#[trigger] chains@[k]).is_complete(),
            forall|k: int| 0 <= k < i ==> (#[trigger] chains@[k]).translation() == Some('M'),
        decreases chains.len() - i,
    {
        match chains[i].finalise() {
            Ok(Some(l)) => {
                if l != 'M' {
                    return false;
                }
            },
            _ => {
                return false;
            },
        }
        i += 1;
    }
    true
}

fn normalized(strings: Vec<Vec<char>>) -> (r: Vec<Vec<char>>)
    ensures
        texts(r@) == normal(texts(strings@)),
        strictly_sorted(texts(r@)),
{
    let ghost xs = texts(strings@);
    let r = normalize(strings);
    proof {
        lemma_normal_is_chosen(xs, texts(r@));
    }
    r
}

/// Scans the letters of `body` into segments of candidate protein strings.
pub fn scan_segments(body: &Vec<char>) -> (r: FResult<Vec<Vec<Vec<char>>>>)
    ensures
        match r {
            Ok(v) => segments_of(body@) == Ok::<Seq<Seq<Seq<char>>>, FactoringError>(seg_texts(v@)),
            Err(e) => segments_of(body@) == Err::<Seq<Seq<Seq<char>>>, FactoringError>(e),
        },
        r matches Ok(v) ==> forall|k: int| 0 <= k < v@.len() ==> strictly_sorted(#[trigger] seg_texts(v@)[k]),
{
    let ghost whole = segments_of(body@);
    let n = body.len();
    let mut segs: Vec<Vec<Vec<char>>> = Vec::new();
    let mut strings: Vec<Vec<char>> = Vec::new();
    let mut seeking = true;
    let mut i: usize = 0;
    assert(seg_texts(segs@) =~= seq![]);
    assert(texts(strings@) =~= seq![]);
    loop
        invariant
            n == body@.len(),
            i <= n,
            whole == segments_of(body@),
            forall|k: int| 0 <= k < segs@.len() ==> strictly_sorted(#[trigger] seg_texts(segs@)[k]),
            scan(body@, i as int, seeking, texts(strings@), seg_texts(segs@)) == whole,
        decreases n - i,
    {
        if i >= n {
            if strings.len() > 0 {
                let ghost before = seg_texts(segs@);
                let last = normalized(strings);
                segs.push(last);
                assert(seg_texts(segs@) =~= before.push(texts(last@)));
            }
            return Ok(segs);
        }
        let done = n - i <= 2;
        let second = if i + 1 < n { body[i + 1] } else { 'N' };
        let third = if n - i > 2 { body[i + 2] } else { 'N' };
        assert(second == letter_at(body@, i + 1));
        assert(third == letter_at(body@, i + 2));
        let chains = match possible_chains(body[i], second, third) {
            Ok(v) => v,
            Err(e) => {
                assert(codon_at(body@, i as int) == Err::<Seq<Chain>, FactoringError>(e));
                return Err(e);
            },
        };
        assert(codon_at(body@, i as int) == Ok::<Seq<Chain>, FactoringError>(chains@));
        let ghost old_strings = texts(strings@);
        let ghost old_segs = seg_texts(segs@);
        let ghost next = step(i as int, seeking, chains@, old_strings, old_segs);
        let mut advance: usize = 3;
        if seeking {
            if !all_start(&chains) {
                advance = 1;
            } else {
                seeking = false;
            }
        } else {
            match translations(&chains) {
                None => {
                    let finished = normalized(strings);
                    segs.push(finished);
                    assert(seg_texts(segs@) =~= old_segs.push(texts(finished@)));
                    strings = Vec::new();
                    assert(texts(strings@) =~= seq![]);
                    seeking = true;
                },
                Some(letters) => {
                    strings = grow_candidates(&strings, &letters);
                },
            }
        }
        assert(next == (i + advance, seeking, texts(strings@), seg_texts(segs@)));
        if done {
            if strings.len() > 0 {
                let ghost before = seg_texts(segs@);
                let last = normalized(strings);
                segs.push(last);
                assert(seg_texts(segs@) =~= before.push(texts(last@)));
            }
            return Ok(segs);
        }
        i = i + advance;
    }
}

fn joined_text(a: &Vec<char>, b: &Vec<char>) -> (r: Vec<char>)
    ensures
        r@ == joined(a@, b@),
{
    let mut r = copy_text(a);
    r.push(' ');
    push_all(&mut r, b);
    r
}

/// Every accumulated string joined with every item; see `cross`.
fn cross_texts(acc: &Vec<Vec<char>>, items: &Vec<Vec<char>>) -> (r: Vec<Vec<char>>)
    ensures
        texts(r@) == cross(texts(acc@), texts(items@)),
{
    let m = items.len();
    let mut out: Vec<Vec<char>> = Vec::new();
    if m == 0 {
        let mut j: usize = 0;
        while j < acc.len()
            invariant
                j <= acc@.len(),
                texts(out@) == texts(acc@).take(j as int),
            decreases acc.len() - j,
        {
            let ghost before = texts(out@);
            let c = copy_text(&acc[j]);
            out.push(c);
            assert(texts(out@) =~= before.push(c@));
            assert(texts(out@) =~= texts(acc@).take(j + 1));
            j += 1;
        }
        assert(texts(acc@).take(acc@.len() as int) =~= texts(acc@));
        return out;
    }
    if acc.len() == 0 {
        let mut j: usize = 0;
        while j < m
            invariant
                j <= items@.len(),
                m == items@.len(),
                texts(out@) == texts(items@).take(j as int),
            decreases m - j,
        {
            let ghost before = texts(out@);
            let c = copy_text(&items[j]);
            out.push(c);
            assert(texts(out@) =~= before.push(c@));
            assert(texts(out@) =~= texts(items@).take(j + 1));
            j += 1;
        }
        assert(texts(items@).take(m as int) =~= texts(items@));
        return out;
    }
    let ghost ta = texts(acc@);
    let ghost ti = texts(items@);
    let mut j: usize = 0;
    while j < acc.len()
        invariant
            j <= acc@.len(),
            m == items@.len(),
            m > 0,
            ta == texts(acc@),
            ti == texts(items@),
            out@.len() == j * m,
            forall|k: int| 0 <= k < out@.len() ==> #[trigger] texts(out@)[k] == joined(ta[k / (m as int)], ti[k % (m as int)]),
        decreases acc.len() - j,
    {
        let mut i: usize = 0;
        while i < m
            invariant
                j < acc@.len(),
                i <= m,
                m == items@.len(),
                ta == texts(acc@),
                ti == texts(items@),
                out@.len() == j * m + i,
                forall|k: int| 0 <= k < out@.len() ==> #[trigger] texts(out@)[k] == joined(ta[k / (m as int)], ti[k % (m as int)]),
            decreases m - i,
        {
            let item = joined_text(&acc[j], &items[i]);
            proof {
                lemma_fundamental_div_mod_converse(out@.len() as int, m as int, j as int, i as int);
            }
            let ghost before = texts(out@);
            out.push(item);
            assert(texts(out@) =~= before.push(joined(ta[j as int], ti[i as int])));
            i += 1;
        }
        proof {
            lemma_mul_is_distributive_add(m as int, j as int, 1);
            lemma_mul_is_commutative(m as int, j as int);
            lemma_mul_is_commutative(m as int, j + 1);
        }
        j += 1;
    }
    proof {
        lemma_mul_is_commutative(m as int, acc@.len() as int);
    }
    assert(texts(out@) =~= cross(ta, ti));
    out
}

/// The cross-product of the segments' candidate lists, joined by single spaces.
pub fn combine(segments: &Vec<Vec<Vec<char>>>) -> (r: Vec<Vec<char>>)
    ensures
        texts(r@) == combined(seg_texts(segments@)),
{
    let mut out: Vec<Vec<char>> = Vec::new();
    let mut s: usize = 0;
    assert(texts(out@) =~= seq![]);
    while s < segments.len()
        invariant
            s <= segments@.len(),
            texts(out@) == combined(seg_texts(segments@).take(s as int)),
        decreases segments.len() - s,
    {
        out = cross_texts(&out, &segments[s]);
        assert(seg_texts(segments@).take(s + 1).drop_last() =~= seg_texts(segments@).take(s as int));
        s += 1;
    }
    assert(seg_texts(segments@).take(s as int) =~= seg_texts(segments@));
    out
}

/// The characters of `s`, in order.
fn chars_of(s: &str) -> (r: Vec<char>)
    ensures
        r@ == s@,
{
    broadcast use vstd::string::axiom_spec_iter;
    let mut it = s.chars();
    let mut out: Vec<char> = Vec::new();
    loop
        invariant
            out@ + it.remaining() == s@,
        decreases s@.len() - out@.len(),
    {
        match it.next() {
            Some(c) => {
                out.push(c);
                assert(out@ + it.remaining() =~= s@);
            },
            None => {
                assert(out@ =~= s@);
                return out;
            },
        }
    }
}

/// Relies on `String`'s `FromIterator<char>`: a string of exactly these characters.
#[verifier::external_body]
fn string_of(v: &Vec<char>) -> (r: String)
    ensures
        r@ == v@,
{
    v.iter().collect()
}

/// Every protein string that `input` can translate to, in the order of `combined`.
pub fn possibilities(input: &str) -> (r: FResult<Vec<String>>)
    ensures
        match r {
            Ok(v) => decode(input@) == Ok::<Seq<Seq<char>>, FactoringError>(v@.map_values(|s: String| s@)),
            Err(e) => decode(input@) == Err::<Seq<Seq<char>>, FactoringError>(e),
        },
{
    let chars = chars_of(input);
    let body = body_chars(&chars);
    let segs = match scan_segments(&body) {
        Ok(v) => v,
        Err(e) => return Err(e),
    };
    let texts_out = combine(&segs);
    let mut out: Vec<String> = Vec::new();
    let mut i: usize = 0;
    while i < texts_out.len()
        invariant
            i <= texts_out@.len(),
            out@.map_values(|s: String| s@) == texts(texts_out@).take(i as int),
        decreases texts_out.len() - i,
    {
        let ghost before = out@.map_values(|s: String| s@);
        let s = string_of(&texts_out[i]);
        out.push(s);
        assert(out@.map_values(|s: String| s@) =~= before.push(texts_out@[i as int]@));
        assert(out@.map_values(|s: String| s@) =~= texts(texts_out@).take(i + 1));
        i += 1;
    }
    assert(texts(texts_out@).take(i as int) =~= texts(texts_out@));
    Ok(out)
}

proof fn lemma_seeking_without_start(body: Seq<char>, i: int)
    requires
        0 <= i,
        forall|j: int| i <= j < body.len() ==> (#[trigger] codon_at(body, j) matches Ok(c) && !is_start(c)),
    ensures
        scan(body, i, true, Seq::empty(), Seq::empty()) == Ok::<Seq<Seq<Seq<char>>>, FactoringError>(Seq::empty()),
    decreases body.len() - i,
{
    if i < body.len() {
        assert(codon_at(body, i) matches Ok(c) && !is_start(c));
        if i + 2 < body.len() {
            lemma_seeking_without_start(body, i + 1);
        }
    }
}

/// A sequence of known letters in which A, then T or U, then G never occur
/// in a row yields no protein string at all: it holds no start codon.
pub proof fn lemma_no_start_no_output(input: Seq<char>)
    requires
        all_letters_known(body_of(input)),
        forall|j: int|
            0 <= j < body_of(input).len() ==> !is_plain_start(
                #[trigger] body_of(input)[j],
                letter_at(body_of(input), j + 1),
                letter_at(body_of(input), j + 2),
            ),
    ensures
        decode(input) == Ok::<Seq<Seq<char>>, FactoringError>(Seq::empty()),
{
    let body = body_of(input);
    assert forall|j: int| 0 <= j < body.len() implies (#[trigger] codon_at(body, j) matches Ok(c) && !is_start(c)) by {
        assert(letter_code('N') is Some);
        assert(letter_code(body[j]) is Some);
        if j + 1 < body.len() {
            assert(letter_code(body[j + 1]) is Some);
        }
        if j + 2 < body.len() {
            assert(letter_code(body[j + 2]) is Some);
        }
        assert(!is_plain_start(body[j], letter_at(body, j + 1), letter_at(body, j + 2)));
        if is_start(codon_at(body, j)->Ok_0) {
            lemma_start_needs_plain_aug(body[j], letter_at(body, j + 1), letter_at(body, j + 2));
        }
    }
    lemma_seeking_without_start(body, 0);
}

/// Two segments combine into every pairing of their strings, each pair
/// joined by a single space, the first segment's strings outer-most.
pub proof fn lemma_two_segments(a: Seq<Seq<char>>, b: Seq<Seq<char>>)
    requires
        a.len() > 0,
        b.len() > 0,
    ensures
        combined(seq![a, b]) == Seq::new(
            a.len() * b.len(),
            |k: int| joined(a[k / (b.len() as int)], b[k % (b.len() as int)]),
        ),
{
    let two = seq![a, b];
    assert(two.drop_last() =~= seq![a]);
    assert(seq![a].drop_last() =~= Seq::<Seq<Seq<char>>>::empty());
    assert(combined(Seq::<Seq<Seq<char>>>::empty()) == Seq::<Seq<char>>::empty());
    assert(seq![a].last() == a);
    assert(combined(seq![a]) == cross(Seq::<Seq<char>>::empty(), a));
    assert(combined(seq![a]) == a);
    assert(two.last() == b);
}

/// Whether every letter of `body` is a nucleotide or ambiguity code.
pub open spec fn all_letters_known(body: Seq<char>) -> bool {
    forall|k: int| 0 <= k < body.len() ==> (#[trigger] letter_code(body[k])) is Some
}

proof fn lemma_first_bad_letter_is_reported(
    body: Seq<char>,
    i: int,
    seeking: bool,
    strings: Seq<Seq<char>>,
    segs: Seq<Seq<Seq<char>>>,
    j: int,
)
    requires
        0 <= i <= j < body.len(),
        letter_code(body[j]) is None,
        forall|k: int| 0 <= k < j ==> (#[trigger] letter_code(body[k])) is Some,
    ensures
        scan(body, i, seeking, strings, segs) == Err::<Seq<Seq<Seq<char>>>, FactoringError>(
            FactoringError::LetterNotAmbiguousBase(body[j]),
        ),
    decreases body.len() - i,
{
    assert(letter_code('N') is Some);
    if j > i + 2 {
        assert(letter_code(body[i]) is Some);
        assert(letter_code(body[i + 1]) is Some);
        assert(letter_code(body[i + 2]) is Some);
        let chains = codon_at(body, i)->Ok_0;
        let (ni, ns, nstr, nsegs) = step(i, seeking, chains, strings, segs);
        lemma_first_bad_letter_is_reported(body, ni, ns, nstr, nsegs, j);
    } else {
        assert(letter_at(body, j) == body[j]);
        if i < j {
            assert(letter_code(body[i]) is Some);
        }
        if i + 1 < j {
            assert(letter_code(body[i + 1]) is Some);
        }
    }
}

proof fn lemma_known_letters_scan(
    body: Seq<char>,
    i: int,
    seeking: bool,
    strings: Seq<Seq<char>>,
    segs: Seq<Seq<Seq<char>>>,
)
    requires
        0 <= i,
        all_letters_known(body),
    ensures
        scan(body, i, seeking, strings, segs) is Ok,
    decreases body.len() - i,
{
    if i < body.len() {
        assert(letter_code('N') is Some);
        assert(letter_code(body[i]) is Some);
        if i + 1 < body.len() {
            assert(letter_code(body[i + 1]) is Some);
        }
        if i + 2 < body.len() {
            assert(letter_code(body[i + 2]) is Some);
            let chains = codon_at(body, i)->Ok_0;
            let (ni, ns, nstr, nsegs) = step(i, seeking, chains, strings, segs);
            lemma_known_letters_scan(body, ni, ns, nstr, nsegs);
        }
    }
}

/// Among the letters that are read, the first one that is no nucleotide or
/// ambiguity code makes the whole translation fail with
/// `LetterNotAmbiguousBase` of that letter, whatever segments came before
/// it; when every letter is known, translation succeeds.
pub proof fn lemma_unknown_letter_fails(input: Seq<char>, j: int)
    requires
        0 <= j < body_of(input).len(),
        letter_code(body_of(input)[j]) is None,
        forall|k: int| 0 <= k < j ==> (#[trigger] letter_code(body_of(input)[k])) is Some,
    ensures
        decode(input) == Err::<Seq<Seq<char>>, FactoringError>(
            FactoringError::LetterNotAmbiguousBase(body_of(input)[j]),
        ),
{
    lemma_first_bad_letter_is_reported(body_of(input), 0, true, Seq::empty(), Seq::empty(), j);
}

/// A sequence whose letters that are read are all known always translates.
pub proof fn lemma_known_letters_succeed(input: Seq<char>)
    requires
        all_letters_known(body_of(input)),
    ensures
        decode(input) is Ok,
{
    lemma_known_letters_scan(body_of(input), 0, true, Seq::empty(), Seq::empty());
}

proof fn lemma_codon_nonempty(body: Seq<char>, i: int)
    requires
        codon_at(body, i) is Ok,
    ensures
        codon_at(body, i)->Ok_0.len() > 0,
{
    let c1 = letter_code(body[i])->Some_0;
    let c2 = letter_code(letter_at(body, i + 1))->Some_0;
    let c3 = letter_code(letter_at(body, i + 2))->Some_0;
    lemma_other_base(c1, crate::solver::Base::A);
    lemma_other_base(c2, crate::solver::Base::A);
    lemma_other_base(c3, crate::solver::Base::A);
    lemma_expansion_member(c1, c2, c3, 0, 0, 0);
}

proof fn lemma_no_terminator(t: Seq<char>)
    requires
        forall|k: int| 0 <= k < t.len() ==> #[trigger] t[k] != '3',
    ensures
        until_terminator(t) == t,
    decreases t.len(),
{
    if t.len() > 0 {
        lemma_no_terminator(t.drop_first());
        assert(t =~= seq![t[0]] + t.drop_first());
    }
}

/// The stop codon TAA.
pub open spec fn stop_taa() -> Seq<char> {
    seq!['T', 'A', 'A']
}

proof fn lemma_trailing_stop(x: Seq<char>, i: int, strings: Seq<Seq<char>>, segs: Seq<Seq<Seq<char>>>)
    requires
        0 <= i,
        i + 3 <= x.len(),
        i % 3 == 0,
        x.len() % 3 == 0,
        forall|j: int| i <= j < x.len() && j % 3 == 0 ==> (#[trigger] codon_at(x, j) matches Ok(c) && !has_stop(c)),
    ensures
        scan(x, i, false, strings, segs) == scan(x + stop_taa(), i, false, strings, segs),
    decreases x.len() - i,
{
    let y = x + stop_taa();
    assert(codon_at(x, i) matches Ok(c) && !has_stop(c));
    assert(y[i] == x[i] && letter_at(y, i + 1) == letter_at(x, i + 1) && letter_at(y, i + 2) == letter_at(x, i + 2));
    assert(codon_at(y, i) == codon_at(x, i));
    let c = codon_at(x, i)->Ok_0;
    lemma_codon_nonempty(x, i);
    let letters = amino_letters(c);
    let next = grow(strings, letters);
    assert(next.len() > 0) by {
        if strings.len() > 0 {
            assert(strings.len() * letters.len() > 0) by (nonlinear_arith)
                requires
                    strings.len() > 0,
                    letters.len() > 0,
            ;
        }
    }
    if i + 3 == x.len() {
        let k = i + 3;
        assert(y[k] == 'T' && letter_at(y, k + 1) == 'A' && letter_at(y, k + 2) == 'A');
        reveal_with_fuel(PossibilityTable::bases_from, 5);
        assert(y.len() == k + 3);
        assert(codon_at(y, k) is Ok);
        let stops = codon_at(y, k)->Ok_0;
        assert(letter_code('T') == Some(AmbiguousBases::U));
        assert(letter_code('A') == Some(AmbiguousBases::A));
        assert(table_of(AmbiguousBases::U).bases() =~= seq![crate::solver::Base::U]);
        assert(table_of(AmbiguousBases::A).bases() =~= seq![crate::solver::Base::A]);
        let b_u = table_of(AmbiguousBases::U).bases();
        let b_a = table_of(AmbiguousBases::A).bases();
        assert(stops == crate::solver::expansion(AmbiguousBases::U, AmbiguousBases::A, AmbiguousBases::A));
        let one = crate::solver::starts(b_u);
        let two = crate::solver::extend(one, b_a);
        assert(one.len() == 1);
        assert(two.len() == 1);
        assert(stops.len() == 1);
        assert(two[0] == crate::solver::with_next(one[0], b_a[0]));
        assert(stops[0] == crate::solver::with_next(two[0], b_a[0]));
        assert(stops[0].translation().is_none());
        assert(has_stop(stops));
        assert(codon_at(y, k) == Ok::<Seq<Chain>, FactoringError>(stops));
        assert(step(k, false, stops, next, segs) == (k + 3, true, Seq::<Seq<char>>::empty(), segs.push(normal(next))));
        assert(close(Seq::<Seq<char>>::empty(), segs.push(normal(next))) == segs.push(normal(next)));
        reveal_with_fuel(scan, 2);
        assert(scan(y, k, false, next, segs) == Ok::<Seq<Seq<Seq<char>>>, FactoringError>(segs.push(normal(next))));
    } else {
        lemma_trailing_stop(x, i + 3, next, segs);
    }
}

/// A reading frame that the letters end before any stop codon is reported
/// just as it would be with a stop codon TAA after it: for "ATG" followed by
/// whole codons, none of which can be a stop, appending TAA changes nothing.
pub proof fn lemma_unterminated_frame_reported(input: Seq<char>)
    requires
        input.len() >= 6,
        input.len() % 3 == 0,
        input[0] == 'A' && input[1] == 'T' && input[2] == 'G',
        all_letters_known(input),
        forall|j: int| 3 <= j < input.len() && j % 3 == 0 ==> (#[trigger] codon_at(input, j) matches Ok(c) && !has_stop(c)),
    ensures
        decode(input) is Ok,
        decode(input) == decode(input + stop_taa()),
{
    let y = input + stop_taa();
    assert(letter_code('3') is None && letter_code('5') is None);
    assert forall|k: int| 0 <= k < input.len() implies #[trigger] input[k] != '3' by {
        assert(letter_code(input[k]) is Some);
    }
    assert forall|k: int| 0 <= k < y.len() implies #[trigger] y[k] != '3' by {
        if k < input.len() {
            assert(y[k] == input[k]);
        }
    }
    lemma_no_terminator(input);
    lemma_no_terminator(y);
    assert(body_of(input) == input);
    assert(body_of(y) == y);
    lemma_atg_start(input);
    lemma_atg_start(y);
    assert(codon_at(input, 0) == codon_at(y, 0));
    lemma_trailing_stop(input, 3, Seq::empty(), Seq::empty());
    lemma_known_letters_succeed(input);
}

proof fn lemma_atg_start(body: Seq<char>)
    requires
        body.len() >= 3,
        body[0] == 'A' && body[1] == 'T' && body[2] == 'G',
    ensures
        codon_at(body, 0) is Ok,
        is_start(codon_at(body, 0)->Ok_0),
{
    reveal_with_fuel(PossibilityTable::bases_from, 5);
    assert(letter_code('A') == Some(AmbiguousBases::A));
    assert(letter_code('T') == Some(AmbiguousBases::U));
    assert(letter_code('G') == Some(AmbiguousBases::G));
    assert(table_of(AmbiguousBases::A).bases() =~= seq![crate::solver::Base::A]);
    assert(table_of(AmbiguousBases::U).bases() =~= seq![crate::solver::Base::U]);
    assert(table_of(AmbiguousBases::G).bases() =~= seq![crate::solver::Base::G]);
    let c = codon_at(body, 0)->Ok_0;
    let b_a = table_of(AmbiguousBases::A).bases();
    let b_u = table_of(AmbiguousBases::U).bases();
    let b_g = table_of(AmbiguousBases::G).bases();
    assert(letter_at(body, 1) == 'T' && letter_at(body, 2) == 'G');
    assert(c == crate::solver::expansion(AmbiguousBases::A, AmbiguousBases::U, AmbiguousBases::G));
    assert(b_a.len() == 1 && b_u.len() == 1 && b_g.len() == 1);
    assert(crate::solver::starts(b_a).len() == 1);
    assert(crate::solver::extend(crate::solver::starts(b_a), b_u).len() == 1 * 1);
    assert(c.len() == 1 * 1);
    let one = crate::solver::starts(b_a);
    let two = crate::solver::extend(one, b_u);
    assert(two[0] == crate::solver::with_next(one[0], b_u[0]));
    assert(c[0] == crate::solver::with_next(two[0], b_g[0]));
    assert(c[0].translation() == Some('M'));
    assert(is_start(c));
}

proof fn lemma_body_of_known(t: Seq<char>)
    requires
        all_letters_known(t),
    ensures
        body_of(t) == t,
{
    assert(letter_code('3') is None && letter_code('5') is None);
    assert forall|k: int| 0 <= k < t.len() implies #[trigger] t[k] != '3' by {
        assert(letter_code(t[k]) is Some);
    }
    if t.len() > 0 {
        assert(letter_code(t[0]) is Some);
    }
    lemma_no_terminator(t);
}

proof fn lemma_shift(
    p: Seq<char>,
    rest: Seq<char>,
    i: int,
    seeking: bool,
    strings: Seq<Seq<char>>,
    segs: Seq<Seq<Seq<char>>>,
)
    requires
        0 <= i,
    ensures
        scan(p + rest, p.len() + i, seeking, strings, segs) == scan(rest, i, seeking, strings, segs),
    decreases rest.len() - i,
{
    let y = p + rest;
    let k = p.len() + i;
    if i < rest.len() {
        assert(y[k] == rest[i]);
        assert(letter_at(y, k + 1) == letter_at(rest, i + 1));
        assert(letter_at(y, k + 2) == letter_at(rest, i + 2));
        assert(codon_at(y, k) == codon_at(rest, i));
        if codon_at(rest, i) is Ok {
            let c = codon_at(rest, i)->Ok_0;
            let (ni, ns, nstr, nsegs) = step(i, seeking, c, strings, segs);
            assert(step(k, seeking, c, strings, segs) == (p.len() + ni, ns, nstr, nsegs));
            if i + 2 < rest.len() {
                lemma_shift(p, rest, ni, ns, nstr, nsegs);
            }
        }
    }
}

proof fn lemma_segs_prefix(
    body: Seq<char>,
    i: int,
    seeking: bool,
    strings: Seq<Seq<char>>,
    pre: Seq<Seq<Seq<char>>>,
    segs: Seq<Seq<Seq<char>>>,
)
    ensures
        match scan(body, i, seeking, strings, segs) {
            Ok(r) => scan(body, i, seeking, strings, pre + segs) == Ok::<Seq<Seq<Seq<char>>>, FactoringError>(pre + r),
            Err(e) => scan(body, i, seeking, strings, pre + segs) == Err::<Seq<Seq<Seq<char>>>, FactoringError>(e),
        },
    decreases body.len() - i,
{
    if i < 0 || i >= body.len() {
        if strings.len() > 0 {
            assert((pre + segs).push(normal(strings)) =~= pre + segs.push(normal(strings)));
        }
    } else if codon_at(body, i) is Ok {
        let c = codon_at(body, i)->Ok_0;
        let (ni, ns, nstr, nsegs) = step(i, seeking, c, strings, segs);
        let (ni2, ns2, nstr2, nsegs2) = step(i, seeking, c, strings, pre + segs);
        if !seeking && has_stop(c) {
            assert((pre + segs).push(normal(strings)) =~= pre + segs.push(normal(strings)));
        }
        assert(ni2 == ni && ns2 == ns && nstr2 == nstr && nsegs2 == pre + nsegs);
        if i + 2 >= body.len() {
            if nstr.len() > 0 {
                assert((pre + nsegs).push(normal(nstr)) =~= pre + nsegs.push(normal(nstr)));
            }
        } else {
            lemma_segs_prefix(body, ni, ns, nstr, pre, nsegs);
        }
    }
}

proof fn lemma_frame_then_rest(
    x: Seq<char>,
    rest: Seq<char>,
    i: int,
    strings: Seq<Seq<char>>,
    segs: Seq<Seq<Seq<char>>>,
)
    requires
        0 <= i,
        i + 3 <= x.len(),
        i % 3 == 0,
        x.len() % 3 == 0,
        forall|j: int| i <= j < x.len() - 3 && j % 3 == 0 ==> (#[trigger] codon_at(x, j) matches Ok(c) && !has_stop(c)),
        codon_at(x, x.len() - 3) matches Ok(c) && has_stop(c),
    ensures
        scan(x, i, false, strings, segs) matches Ok(r) && r.len() == segs.len() + 1 && r.drop_last() == segs,
        scan(x + rest, i, false, strings, segs) == scan(rest, 0, true, Seq::empty(), scan(x, i, false, strings, segs)->Ok_0),
    decreases x.len() - i,
{
    let y = x + rest;
    assert(y[i] == x[i] && letter_at(y, i + 1) == letter_at(x, i + 1) && letter_at(y, i + 2) == letter_at(x, i + 2));
    assert(codon_at(y, i) == codon_at(x, i));
    let c = codon_at(x, i)->Ok_0;
    if i + 3 == x.len() {
        let r = segs.push(normal(strings));
        assert(codon_at(x, i) == Ok::<Seq<Chain>, FactoringError>(c));
        assert(has_stop(c));
        assert(step(i, false, c, strings, segs) == (i + 3, true, Seq::<Seq<char>>::empty(), r));
        assert(close(Seq::<Seq<char>>::empty(), r) == r);
        reveal_with_fuel(scan, 2);
        assert(scan(x, i, false, strings, segs) == Ok::<Seq<Seq<Seq<char>>>, FactoringError>(r));
        assert(r.drop_last() =~= segs);
        if rest.len() == 0 {
            assert(y =~= x);
        } else {
            lemma_shift(x, rest, 0, true, Seq::empty(), r);
        }
    } else {
        assert(codon_at(x, i) matches Ok(c) && !has_stop(c));
        let (ni, ns, nstr, nsegs) = step(i, false, c, strings, segs);
        lemma_frame_then_rest(x, rest, i + 3, nstr, nsegs);
    }
}

/// A closed reading frame: ATG, whole codons none of which can be a stop,
/// then a codon that can be one.
pub open spec fn is_closed_frame(s: Seq<char>) -> bool {
    &&& s.len() >= 6
    &&& s.len() % 3 == 0
    &&& s[0] == 'A' && s[1] == 'T' && s[2] == 'G'
    &&& all_letters_known(s)
    &&& forall|j: int| 3 <= j < s.len() - 3 && j % 3 == 0 ==> (#[trigger] codon_at(s, j) matches Ok(c) && !has_stop(c))
    &&& codon_at(s, s.len() - 3) matches Ok(c) && has_stop(c)
}

proof fn lemma_closed_frame_scan(s: Seq<char>, rest: Seq<char>)
    requires
        is_closed_frame(s),
    ensures
        scan(s, 0, true, Seq::empty(), Seq::empty()) matches Ok(r) && r.len() == 1,
        scan(s + rest, 0, true, Seq::empty(), Seq::empty()) == scan(
            rest,
            0,
            true,
            Seq::empty(),
            scan(s, 0, true, Seq::empty(), Seq::empty())->Ok_0,
        ),
{
    let y = s + rest;
    lemma_atg_start(s);
    lemma_atg_start(y);
    assert(codon_at(y, 0) == codon_at(s, 0));
    lemma_frame_then_rest(s, rest, 3, Seq::empty(), Seq::empty());
}

proof fn lemma_combined_single(a: Seq<Seq<char>>)
    ensures
        combined(seq![a]) == a,
{
    assert(seq![a].drop_last() =~= Seq::<Seq<Seq<char>>>::empty());
    assert(combined(Seq::<Seq<Seq<char>>>::empty()) == Seq::<Seq<char>>::empty());
    assert(seq![a].last() == a);
}

/// Two closed reading frames one after the other translate to the
/// cross-product of what each translates to alone: every string of the first
/// joined by a single space to every string of the second, the first outer-most.
pub proof fn lemma_two_frames(s1: Seq<char>, s2: Seq<char>)
    requires
        is_closed_frame(s1),
        is_closed_frame(s2),
    ensures
        decode(s1) is Ok,
        decode(s2) is Ok,
        decode(s1 + s2) == Ok::<Seq<Seq<char>>, FactoringError>(cross(decode(s1)->Ok_0, decode(s2)->Ok_0)),
{
    let y = s1 + s2;
    assert(all_letters_known(y)) by {
        assert forall|k: int| 0 <= k < y.len() implies (#[trigger] letter_code(y[k])) is Some by {
            if k < s1.len() {
                assert(y[k] == s1[k]);
                assert(letter_code(s1[k]) is Some);
            } else {
                assert(y[k] == s2[k - s1.len()]);
                assert(letter_code(s2[k - s1.len()]) is Some);
            }
        }
    }
    lemma_body_of_known(s1);
    lemma_body_of_known(s2);
    lemma_body_of_known(y);
    lemma_closed_frame_scan(s1, s2);
    lemma_closed_frame_scan(s2, Seq::empty());
    let r1 = scan(s1, 0, true, Seq::empty(), Seq::empty())->Ok_0;
    let r2 = scan(s2, 0, true, Seq::empty(), Seq::empty())->Ok_0;
    lemma_segs_prefix(s2, 0, true, Seq::empty(), r1, Seq::empty());
    assert(r1 + Seq::<Seq<Seq<char>>>::empty() =~= r1);
    assert(r1 =~= seq![r1[0]]);
    assert(r2 =~= seq![r2[0]]);
    lemma_combined_single(r1[0]);
    lemma_combined_single(r2[0]);
    let both = r1 + r2;
    assert(both.drop_last() =~= seq![r1[0]]);
    assert(both.last() == r2[0]);
}

} // verus!
