//! Window statistics over a normalized token sequence: what each statistic
//! counts is given as the sequence of keys it emits, position by position.
use crate::counts::{keys_view, CoocKey, WordPair};
use crate::order::{lemma_lex_antisymmetric, lemma_lex_total, lex_le, string_le};
use crate::text::strings_view;
use vstd::multiset::Multiset;
use vstd::prelude::*;
use vstd::string::StringExecFns;

verus! {

/// Words joined by single spaces.
pub open spec fn join_words(ws: Seq<Seq<char>>) -> Seq<char>
    decreases ws.len(),
{
    if ws.len() == 0 {
        Seq::empty()
    } else if ws.len() == 1 {
        ws[0]
    } else {
        join_words(ws.drop_last()).push(' ') + ws.last()
    }
}

/// The n-grams of size `k`: each run of `k` consecutive tokens, joined, by start position.
pub open spec fn ngram_emits(t: Seq<Seq<char>>, k: nat) -> Seq<Seq<char>> {
    if k == 0 || t.len() < k {
        Seq::empty()
    } else {
        Seq::new((t.len() - k + 1) as nat, |i: int| join_words(t.subrange(i, i + k)))
    }
}

pub open spec fn window_lo(i: int, w: int) -> int {
    if i - w > 0 {
        i - w
    } else {
        0
    }
}

pub open spec fn window_hi(i: int, w: int, n: int) -> int {
    if i + w + 1 < n {
        i + w + 1
    } else {
        n
    }
}

/// The positions within `w` of `i` in a sequence of length `n`, `i` left out, in order.
pub open spec fn window_positions(i: int, w: int, n: int) -> Seq<int> {
    let lo = window_lo(i, w);
    let hi = window_hi(i, w, n);
    Seq::new((i - lo) as nat, |m: int| lo + m) + Seq::new((hi - i - 1) as nat, |m: int| i + 1 + m)
}

/// Context pairs (center, neighbour) emitted at position `i`.
pub open spec fn context_row(t: Seq<Seq<char>>, w: nat, i: int) -> Seq<(Seq<char>, Seq<char>)> {
    window_positions(i, w as int, t.len() as int).map_values(|j: int| (t[i], t[j]))
}

pub open spec fn context_upto(t: Seq<Seq<char>>, w: nat, i: nat) -> Seq<(Seq<char>, Seq<char>)>
    decreases i,
{
    if i == 0 {
        Seq::empty()
    } else {
        context_upto(t, w, (i - 1) as nat) + context_row(t, w, i - 1)
    }
}

/// Every (center, neighbour) pair within the window, by center position.
pub open spec fn context_emits(t: Seq<Seq<char>>, w: nat) -> Seq<(Seq<char>, Seq<char>)> {
    context_upto(t, w, t.len())
}

/// The co-occurrence key of two words at distance `d`: the words in lexical order.
pub open spec fn canonical(a: Seq<char>, b: Seq<char>, d: usize) -> (Seq<char>, Seq<char>, usize) {
    if lex_le(a, b) {
        (a, b, d)
    } else {
        (b, a, d)
    }
}

pub open spec fn distance(i: int, j: int) -> usize {
    if i >= j {
        (i - j) as usize
    } else {
        (j - i) as usize
    }
}

pub open spec fn cooc_row(t: Seq<Seq<char>>, w: nat, i: int) -> Seq<(Seq<char>, Seq<char>, usize)> {
    window_positions(i, w as int, t.len() as int).map_values(|j: int| canonical(t[i], t[j], distance(i, j)))
}

pub open spec fn cooc_upto(t: Seq<Seq<char>>, w: nat, i: nat) -> Seq<(Seq<char>, Seq<char>, usize)>
    decreases i,
{
    if i == 0 {
        Seq::empty()
    } else {
        cooc_upto(t, w, (i - 1) as nat) + cooc_row(t, w, i - 1)
    }
}

/// Every ordered pair of positions within the window, as its canonical co-occurrence key.
pub open spec fn cooc_emits(t: Seq<Seq<char>>, w: nat) -> Seq<(Seq<char>, Seq<char>, usize)> {
    cooc_upto(t, w, t.len())
}

/// Direct neighbours emitted at position `i`: the token before, then the token after.
pub open spec fn neighbor_row(t: Seq<Seq<char>>, i: int) -> Seq<(Seq<char>, Seq<char>)> {
    let before: Seq<(Seq<char>, Seq<char>)> = if i > 0 {
        seq![(t[i], t[i - 1])]
    } else {
        Seq::empty()
    };
    let after: Seq<(Seq<char>, Seq<char>)> = if i + 1 < t.len() {
        seq![(t[i], t[i + 1])]
    } else {
        Seq::empty()
    };
    before + after
}

pub open spec fn neighbor_upto(t: Seq<Seq<char>>, i: nat) -> Seq<(Seq<char>, Seq<char>)>
    decreases i,
{
    if i == 0 {
        Seq::empty()
    } else {
        neighbor_upto(t, (i - 1) as nat) + neighbor_row(t, i - 1)
    }
}

/// Every (center, adjacent) pair at offset one, by center position.
pub open spec fn neighbor_emits(t: Seq<Seq<char>>) -> Seq<(Seq<char>, Seq<char>)> {
    neighbor_upto(t, t.len())
}

/// The n-grams of size `k` of `tokens`, by start position.
pub fn ngram_keys(tokens: &Vec<String>, k: usize) -> (r: Vec<String>)
    ensures
        strings_view(r@) == ngram_emits(strings_view(tokens@), k as nat),
{
    let ghost t = strings_view(tokens@);
    let n = tokens.len();
    let mut out: Vec<String> = Vec::new();
    if k == 0 || n < k {
        assert(strings_view(out@) =~= ngram_emits(t, k as nat));
        return out;
    }
    let mut i: usize = 0;
    while i <= n - k
        invariant
            n == tokens@.len(),
            t == strings_view(tokens@),
            0 < k <= n,
            i <= n - k + 1,
            strings_view(out@) =~= ngram_emits(t, k as nat).take(i as int),
        decreases n - k + 1 - i,
    {
        let mut buf = String::new();
        let mut m: usize = 0;
        assert(t.subrange(i as int, i as int) =~= Seq::<Seq<char>>::empty());
        while m < k
            invariant
                n == tokens@.len(),
                t == strings_view(tokens@),
                0 < k <= n,
                i + k <= n,
                m <= k,
                buf@ == join_words(t.subrange(i as int, i as int + m)),
            decreases k - m,
        {
            let ghost ws = t.subrange(i as int, i as int + m + 1);
            assert(ws.drop_last() =~= t.subrange(i as int, i as int + m));
            if m > 0 {
                buf.append(" ");
                proof {
                    reveal_strlit(" ");
                }
            }
            buf.append(tokens[i + m].as_str());
            proof {
                if m == 0 {
                    assert(ws =~= seq![t[i as int]]);
                } else {
                    assert(" "@ =~= seq![' ']);
                }
            }
            m = m + 1;
        }
        let ghost before = strings_view(out@);
        out.push(buf);
        assert(strings_view(out@) =~= before.push(join_words(t.subrange(i as int, i as int + k))));
        i = i + 1;
    }
    out
}

/// Upper end (exclusive) of the window around `i`, without overflow.
fn hi_of(i: usize, w: usize, n: usize) -> (r: usize)
    requires
        i < n,
    ensures
        r == window_hi(i as int, w as int, n as int),
{
    if w < n - 1 - i {
        i + w + 1
    } else {
        n
    }
}

fn lo_of(i: usize, w: usize) -> (r: usize)
    ensures
        r == window_lo(i as int, w as int),
{
    if i > w {
        i - w
    } else {
        0
    }
}

/// The (center, neighbour) pairs of every position within window `w`, by center position.
pub fn context_keys(tokens: &Vec<String>, w: usize) -> (r: Vec<WordPair>)
    ensures
        keys_view(r@) == context_emits(strings_view(tokens@), w as nat),
{
    let ghost t = strings_view(tokens@);
    let n = tokens.len();
    let mut out: Vec<WordPair> = Vec::new();
    let mut i: usize = 0;
    while i < n
        invariant
            n == tokens@.len(),
            t == strings_view(tokens@),
            i <= n,
            keys_view(out@) =~= context_upto(t, w as nat, i as nat),
        decreases n - i,
    {
        let lo = lo_of(i, w);
        let hi = hi_of(i, w, n);
        let ghost base = keys_view(out@);
        let ghost row = context_row(t, w as nat, i as int);
        let ghost left_len = (i - lo) as int;
        let mut j: usize = lo;
        while j < i
            invariant
                n == tokens@.len(),
                t == strings_view(tokens@),
                lo <= j <= i < n,
                lo == window_lo(i as int, w as int),
                hi == window_hi(i as int, w as int, n as int),
                row == context_row(t, w as nat, i as int),
                left_len == i - lo,
                keys_view(out@) =~= base + row.take(j - lo),
            decreases i - j,
        {
            let ghost prev = keys_view(out@);
            out.push(WordPair { first: tokens[i].clone(), second: tokens[j].clone() });
            assert(row[j - lo] == (t[i as int], t[j as int]));
            assert(keys_view(out@) =~= prev.push(row[j - lo]));
            assert(row.take(j - lo + 1) =~= row.take(j - lo).push(row[j - lo]));
            j = j + 1;
        }
        j = i + 1;
        while j < hi
            invariant
                n == tokens@.len(),
                t == strings_view(tokens@),
                lo <= i < j <= hi,
                i < n,
                lo == window_lo(i as int, w as int),
                hi == window_hi(i as int, w as int, n as int),
                hi <= n,
                row == context_row(t, w as nat, i as int),
                left_len == i - lo,
                keys_view(out@) =~= base + row.take(left_len + (j - i - 1)),
            decreases hi - j,
        {
            let ghost prev = keys_view(out@);
            let ghost m = left_len + (j - i - 1);
            out.push(WordPair { first: tokens[i].clone(), second: tokens[j].clone() });
            assert(row[m] == (t[i as int], t[j as int]));
            assert(keys_view(out@) =~= prev.push(row[m]));
            assert(row.take(m + 1) =~= row.take(m).push(row[m]));
            j = j + 1;
        }
        assert(row.take(left_len + (hi - i - 1)) =~= row);
        i = i + 1;
    }
    out
}

/// The canonical co-occurrence keys of every position within window `w`, by position.
pub fn cooc_keys(tokens: &Vec<String>, w: usize) -> (r: Vec<CoocKey>)
    ensures
        keys_view(r@) == cooc_emits(strings_view(tokens@), w as nat),
{
    let ghost t = strings_view(tokens@);
    let n = tokens.len();
    let mut out: Vec<CoocKey> = Vec::new();
    let mut i: usize = 0;
    while i < n
        invariant
            n == tokens@.len(),
            t == strings_view(tokens@),
            i <= n,
            keys_view(out@) =~= cooc_upto(t, w as nat, i as nat),
        decreases n - i,
    {
        let lo = lo_of(i, w);
        let hi = hi_of(i, w, n);
        let ghost base = keys_view(out@);
        let ghost row = cooc_row(t, w as nat, i as int);
        let ghost left_len = (i - lo) as int;
        let mut j: usize = lo;
        while j < i
            invariant
                n == tokens@.len(),
                t == strings_view(tokens@),
                lo <= j <= i < n,
                lo == window_lo(i as int, w as int),
                hi == window_hi(i as int, w as int, n as int),
                row == cooc_row(t, w as nat, i as int),
                left_len == i - lo,
                keys_view(out@) =~= base + row.take(j - lo),
            decreases i - j,
        {
            let ghost prev = keys_view(out@);
            out.push(canonical_key(&tokens[i], &tokens[j], i - j));
            assert(row[j - lo] == canonical(t[i as int], t[j as int], distance(i as int, j as int)));
            assert(keys_view(out@) =~= prev.push(row[j - lo]));
            assert(row.take(j - lo + 1) =~= row.take(j - lo).push(row[j - lo]));
            j = j + 1;
        }
        j = i + 1;
        while j < hi
            invariant
                n == tokens@.len(),
                t == strings_view(tokens@),
                lo <= i < j <= hi,
                i < n,
                lo == window_lo(i as int, w as int),
                hi == window_hi(i as int, w as int, n as int),
                hi <= n,
                row == cooc_row(t, w as nat, i as int),
                left_len == i - lo,
                keys_view(out@) =~= base + row.take(left_len + (j - i - 1)),
            decreases hi - j,
        {
            let ghost prev = keys_view(out@);
            let ghost m = left_len + (j - i - 1);
            out.push(canonical_key(&tokens[i], &tokens[j], j - i));
            assert(row[m] == canonical(t[i as int], t[j as int], distance(i as int, j as int)));
            assert(keys_view(out@) =~= prev.push(row[m]));
            assert(row.take(m + 1) =~= row.take(m).push(row[m]));
            j = j + 1;
        }
        assert(row.take(left_len + (hi - i - 1)) =~= row);
        i = i + 1;
    }
    out
}

/// The co-occurrence key of `a` and `b` at distance `d`, words in lexical order.
pub fn canonical_key(a: &String, b: &String, d: usize) -> (r: CoocKey)
    ensures
        r@ == canonical(a@, b@, d),
{
    if string_le(a, b) {
        CoocKey { word1: a.clone(), word2: b.clone(), distance: d }
    } else {
        CoocKey { word1: b.clone(), word2: a.clone(), distance: d }
    }
}

/// The (center, adjacent) pairs of every position, by center position.
pub fn neighbor_keys(tokens: &Vec<String>) -> (r: Vec<WordPair>)
    ensures
        keys_view(r@) == neighbor_emits(strings_view(tokens@)),
{
    let ghost t = strings_view(tokens@);
    let n = tokens.len();
    let mut out: Vec<WordPair> = Vec::new();
    let mut i: usize = 0;
    while i < n
        invariant
            n == tokens@.len(),
            t == strings_view(tokens@),
            i <= n,
            keys_view(out@) =~= neighbor_upto(t, i as nat),
        decreases n - i,
    {
        let ghost base = keys_view(out@);
        if i > 0 {
            out.push(WordPair { first: tokens[i].clone(), second: tokens[i - 1].clone() });
        }
        let ghost mid = keys_view(out@);
        if i + 1 < n {
            out.push(WordPair { first: tokens[i].clone(), second: tokens[i + 1].clone() });
        }
        proof {
            if i > 0 {
                assert(mid =~= base.push((t[i as int], t[i - 1])));
            } else {
                assert(mid =~= base);
            }
            if i + 1 < n {
                assert(keys_view(out@) =~= mid.push((t[i as int], t[i + 1])));
            } else {
                assert(keys_view(out@) =~= mid);
            }
            assert(keys_view(out@) =~= base + neighbor_row(t, i as int));
        }
        i = i + 1;
    }
    out
}

proof fn lemma_window_zero_upto(t: Seq<Seq<char>>, i: nat)
    requires
        i <= t.len(),
    ensures
        context_upto(t, 0, i).len() == 0,
        cooc_upto(t, 0, i).len() == 0,
    decreases i,
{
    if i > 0 {
        lemma_window_zero_upto(t, (i - 1) as nat);
        assert(window_positions(i - 1, 0, t.len() as int).len() == 0);
    }
}

/// With a window of 0 no context pair and no co-occurrence is emitted, for any tokens.
pub proof fn lemma_window_zero(t: Seq<Seq<char>>)
    ensures
        context_emits(t, 0) == Seq::<(Seq<char>, Seq<char>)>::empty(),
        cooc_emits(t, 0) == Seq::<(Seq<char>, Seq<char>, usize)>::empty(),
{
    lemma_window_zero_upto(t, t.len());
    assert(context_emits(t, 0) =~= Seq::<(Seq<char>, Seq<char>)>::empty());
    assert(cooc_emits(t, 0) =~= Seq::<(Seq<char>, Seq<char>, usize)>::empty());
}

/// Every co-occurrence key in `m` has its words in lexical order.
pub open spec fn cooc_canonical(m: Multiset<(Seq<char>, Seq<char>, usize)>) -> bool {
    forall|k: (Seq<char>, Seq<char>, usize)| m.count(k) > 0 ==> #[trigger] lex_le(k.0, k.1)
}

proof fn lemma_cooc_upto_ordered(t: Seq<Seq<char>>, w: nat, i: nat)
    requires
        i <= t.len(),
    ensures
        forall|m: int| 0 <= m < cooc_upto(t, w, i).len() ==> lex_le(
            #[trigger] cooc_upto(t, w, i)[m].0,
            cooc_upto(t, w, i)[m].1,
        ),
    decreases i,
{
    if i > 0 {
        lemma_cooc_upto_ordered(t, w, (i - 1) as nat);
        let prev = cooc_upto(t, w, (i - 1) as nat);
        let row = cooc_row(t, w, i - 1);
        assert forall|m: int| 0 <= m < cooc_upto(t, w, i).len() implies lex_le(
            #[trigger] cooc_upto(t, w, i)[m].0,
            cooc_upto(t, w, i)[m].1,
        ) by {
            if m >= prev.len() {
                let j = window_positions(i - 1, w as int, t.len() as int)[m - prev.len()];
                lemma_lex_total(t[i - 1], t[j]);
                assert(cooc_upto(t, w, i)[m] == row[m - prev.len()]);
            } else {
                assert(cooc_upto(t, w, i)[m] == prev[m]);
            }
        }
    }
}

/// Every co-occurrence key of a token sequence is canonical: `word1 <= word2`.
pub proof fn lemma_cooc_emits_canonical(t: Seq<Seq<char>>, w: nat)
    ensures
        cooc_canonical(cooc_emits(t, w).to_multiset()),
{
    broadcast use vstd::seq_lib::group_to_multiset_ensures;

    lemma_cooc_upto_ordered(t, w, t.len());
    let e = cooc_emits(t, w);
    assert forall|k: (Seq<char>, Seq<char>, usize)| e.to_multiset().count(k) > 0 implies #[trigger] lex_le(
        k.0,
        k.1,
    ) by {
        assert(e.contains(k));
        let m = choose|m: int| 0 <= m < e.len() && e[m] == k;
        assert(lex_le(e[m].0, e[m].1));
    }
}

/// Merging keeps co-occurrence keys canonical.
pub proof fn lemma_cooc_canonical_merge(
    a: Multiset<(Seq<char>, Seq<char>, usize)>,
    b: Multiset<(Seq<char>, Seq<char>, usize)>,
)
    requires
        cooc_canonical(a),
        cooc_canonical(b),
    ensures
        cooc_canonical(a.add(b)),
{
    assert forall|k: (Seq<char>, Seq<char>, usize)| a.add(b).count(k) > 0 implies #[trigger] lex_le(
        k.0,
        k.1,
    ) by {
        if a.count(k) > 0 {
            assert(lex_le(k.0, k.1));
        } else {
            assert(b.count(k) > 0);
        }
    }
}

/// Among canonical keys, no pair of words appears twice with its members swapped.
pub proof fn lemma_cooc_no_swapped_pairs(
    m: Multiset<(Seq<char>, Seq<char>, usize)>,
    a: Seq<char>,
    b: Seq<char>,
    d: usize,
)
    requires
        cooc_canonical(m),
        m.count((a, b, d)) > 0,
        m.count((b, a, d)) > 0,
    ensures
        a == b,
{
    assert(lex_le((a, b, d).0, (a, b, d).1));
    assert(lex_le((b, a, d).0, (b, a, d).1));
    lemma_lex_antisymmetric(a, b);
}

proof fn lemma_short_upto(t: Seq<Seq<char>>, w: nat, i: nat)
    requires
        t.len() < 2,
        i <= t.len(),
    ensures
        context_upto(t, w, i).len() == 0,
        cooc_upto(t, w, i).len() == 0,
    decreases i,
{
    if i > 0 {
        lemma_short_upto(t, w, (i - 1) as nat);
        assert(window_positions(i - 1, w as int, t.len() as int).len() == 0);
    }
}

/// A sequence of fewer than two tokens emits no context pair and no
/// co-occurrence, whatever the window.
pub proof fn lemma_short_sequence(t: Seq<Seq<char>>, w: nat)
    requires
        t.len() < 2,
    ensures
        context_emits(t, w) == Seq::<(Seq<char>, Seq<char>)>::empty(),
        cooc_emits(t, w) == Seq::<(Seq<char>, Seq<char>, usize)>::empty(),
{
    lemma_short_upto(t, w, t.len());
    assert(context_emits(t, w) =~= Seq::<(Seq<char>, Seq<char>)>::empty());
    assert(cooc_emits(t, w) =~= Seq::<(Seq<char>, Seq<char>, usize)>::empty());
}

proof fn lemma_cooc_upto_distance(t: Seq<Seq<char>>, w: nat, i: nat)
    requires
        i <= t.len(),
        t.len() <= usize::MAX,
    ensures
        forall|m: int| 0 <= m < cooc_upto(t, w, i).len() ==> 1 <= (#[trigger] cooc_upto(t, w, i)[m]).2 <= w,
    decreases i,
{
    if i > 0 {
        lemma_cooc_upto_distance(t, w, (i - 1) as nat);
        let prev = cooc_upto(t, w, (i - 1) as nat);
        let row = cooc_row(t, w, i - 1);
        let c = i - 1;
        let lo = window_lo(c, w as int);
        let hi = window_hi(c, w as int, t.len() as int);
        assert forall|m: int| 0 <= m < cooc_upto(t, w, i).len() implies 1 <= (#[trigger] cooc_upto(
            t,
            w,
            i,
        )[m]).2 <= w by {
            if m >= prev.len() {
                let k = m - prev.len();
                let j = window_positions(c, w as int, t.len() as int)[k];
                assert(cooc_upto(t, w, i)[m] == row[k]);
                if k < c - lo {
                    assert(j == lo + k);
                    assert(row[k] == canonical(t[c], t[j], distance(c, j)));
                } else {
                    assert(row[k] == canonical(t[c], t[j], distance(c, j)));
                    assert(j == c + 1 + (k - (c - lo)));
                    assert(j < hi);
                }
            } else {
                assert(cooc_upto(t, w, i)[m] == prev[m]);
            }
        }
    }
}

/// Every co-occurrence distance lies between 1 and the window.
pub proof fn lemma_cooc_distance(t: Seq<Seq<char>>, w: nat)
    requires
        t.len() <= usize::MAX,
    ensures
        forall|k: (Seq<char>, Seq<char>, usize)| #[trigger] cooc_emits(t, w).to_multiset().count(k) > 0 ==> 1
            <= k.2 <= w,
{
    broadcast use vstd::seq_lib::group_to_multiset_ensures;

    lemma_cooc_upto_distance(t, w, t.len());
    let e = cooc_emits(t, w);
    assert forall|k: (Seq<char>, Seq<char>, usize)| #[trigger] e.to_multiset().count(k) > 0 implies 1 <= k.2
        <= w by {
        assert(e.contains(k));
        let m = choose|m: int| 0 <= m < e.len() && e[m] == k;
        assert(1 <= e[m].2 <= w);
    }
}

} // verus!
