//! Deterministic export tables: every table fully ordered by a total order,
//! and text cells guarded against spreadsheet formula injection.
use crate::analysis::{ExportFormat, PmiEntry, AnalysisOptions};
use crate::counts::{keys_view, pairs_view, CountKey, CountTable, WordPair};
use crate::order::{
    cross_cmp, fraction_cmp, lemma_cross_transitive, lemma_lex_antisymmetric, lemma_lex_reflexive,
    lemma_lex_total, lemma_lex_transitive, lex_le, string_le,
};
use crate::corpus::{decimal, decimal_string};
use crate::text::{chars_of, owned, push_char, strings_view};
use core::cmp::Ordering;
use vstd::prelude::*;
use vstd::relations::{sorted_by, total_ordering};
use vstd::string::StringExecFns;

verus! {

/// A first char that spreadsheets read as the start of a formula.
pub open spec fn is_formula_trigger(c: char) -> bool {
    c == '=' || c == '+' || c == '-' || c == '@'
}

/// A text cell made safe: a single quote in front of a leading `= + - @`.
pub open spec fn sanitized(s: Seq<char>) -> Seq<char> {
    if s.len() > 0 && is_formula_trigger(s[0]) {
        seq!['\''] + s
    } else {
        s
    }
}

/// Prefixes a single quote to a cell that starts with `=`, `+`, `-` or `@`;
/// any other cell is returned unchanged.
pub fn csv_safe_cell(s: String) -> (r: String)
    ensures
        r@ == sanitized(s@),
{
    let cs = chars_of(s.as_str());
    if cs.len() > 0 && (cs[0] == '=' || cs[0] == '+' || cs[0] == '-' || cs[0] == '@') {
        let mut r = String::new();
        push_char(&mut r, '\'');
        r.append(s.as_str());
        r
    } else {
        s
    }
}

/// Sanitizing twice is sanitizing once, and a cell that does not start with
/// `= + - @` is left as it is.
pub proof fn lemma_sanitize_idempotent(x: Seq<char>)
    ensures
        sanitized(sanitized(x)) == sanitized(x),
        !(x.len() > 0 && is_formula_trigger(x[0])) ==> sanitized(x) == x,
{
    if x.len() > 0 && is_formula_trigger(x[0]) {
        assert((seq!['\''] + x)[0] == '\'');
    }
}

/// A row type with a total order on its view, and an exact comparison.
pub trait RowOrder: View + Sized {
    spec fn row_le(a: Self::V, b: Self::V) -> bool;

    proof fn lemma_row_order()
        ensures
            total_ordering(|a: Self::V, b: Self::V| Self::row_le(a, b)),
    ;

    fn compare(&self, other: &Self) -> (r: Ordering)
        ensures
            (r == Ordering::Less) <==> (Self::row_le(self@, other@) && self@ != other@),
            (r == Ordering::Equal) <==> (self@ == other@),
            (r == Ordering::Greater) <==> (Self::row_le(other@, self@) && self@ != other@),
    ;
}

/// Relies on `slice::sort_by`: given a comparator that is a total order
/// (`lemma_row_order`), the result is a permutation of the input, sorted.
#[verifier::external_body]
pub(crate) fn sort_rows<T: RowOrder>(v: &mut Vec<T>)
    ensures
        keys_view(final(v)@).to_multiset() == keys_view(old(v)@).to_multiset(),
        sorted_by(keys_view(final(v)@), |a: T::V, b: T::V| T::row_le(a, b)),
{
    v.sort_by(|a, b| a.compare(b))
}

/// A row of a count table: a key and its count.
pub struct CountRow<K> {
    pub key: K,
    pub count: usize,
}

impl<K: View> View for CountRow<K> {
    type V = (K::V, usize);

    open spec fn view(&self) -> (K::V, usize) {
        (self.key@, self.count)
    }
}

/// Flat tables: count descending, then item ascending.
pub open spec fn flat_le(a: (Seq<char>, usize), b: (Seq<char>, usize)) -> bool {
    a.1 > b.1 || (a.1 == b.1 && lex_le(a.0, b.0))
}

/// Pair tables: count descending, then first item, then second item ascending.
pub open spec fn pair_le(a: ((Seq<char>, Seq<char>), usize), b: ((Seq<char>, Seq<char>), usize)) -> bool {
    ||| a.1 > b.1
    ||| (a.1 == b.1 && a.0.0 != b.0.0 && lex_le(a.0.0, b.0.0))
    ||| (a.1 == b.1 && a.0.0 == b.0.0 && lex_le(a.0.1, b.0.1))
}

impl RowOrder for CountRow<String> {
    open spec fn row_le(a: (Seq<char>, usize), b: (Seq<char>, usize)) -> bool {
        flat_le(a, b)
    }

    proof fn lemma_row_order() {
        let le = |a: (Seq<char>, usize), b: (Seq<char>, usize)| Self::row_le(a, b);
        assert forall|a: (Seq<char>, usize)| #[trigger] le(a, a) by {
            lemma_lex_reflexive(a.0);
        }
        assert forall|a: (Seq<char>, usize), b: (Seq<char>, usize)|
            #[trigger] le(a, b) && #[trigger] le(b, a) implies a == b by {
            if a.1 == b.1 {
                lemma_lex_antisymmetric(a.0, b.0);
            }
        }
        assert forall|a: (Seq<char>, usize), b: (Seq<char>, usize), c: (Seq<char>, usize)|
            #[trigger] le(a, b) && #[trigger] le(b, c) implies le(a, c) by {
            if a.1 == b.1 && b.1 == c.1 {
                lemma_lex_transitive(a.0, b.0, c.0);
            }
        }
        assert forall|a: (Seq<char>, usize), b: (Seq<char>, usize)| #[trigger]
            le(a, b) || #[trigger] le(b, a) by {
            lemma_lex_total(a.0, b.0);
        }
    }

    fn compare(&self, other: &Self) -> (r: Ordering) {
        if self.count > other.count {
            return Ordering::Less;
        }
        if self.count < other.count {
            return Ordering::Greater;
        }
        match string_cmp(&self.key, &other.key) {
            Ordering::Less => Ordering::Less,
            Ordering::Greater => Ordering::Greater,
            Ordering::Equal => Ordering::Equal,
        }
    }
}

/// Lexical comparison of two strings.
pub fn string_cmp(a: &String, b: &String) -> (r: Ordering)
    ensures
        (r == Ordering::Less) <==> (lex_le(a@, b@) && a@ != b@),
        (r == Ordering::Equal) <==> (a@ == b@),
        (r == Ordering::Greater) <==> (lex_le(b@, a@) && a@ != b@),
{
    let le = string_le(a, b);
    let ge = string_le(b, a);
    proof {
        if le && ge {
            lemma_lex_antisymmetric(a@, b@);
        }
        lemma_lex_total(a@, b@);
        if a@ == b@ {
            lemma_lex_reflexive(a@);
        }
    }
    if le && ge {
        Ordering::Equal
    } else if le {
        Ordering::Less
    } else {
        Ordering::Greater
    }
}

impl RowOrder for CountRow<WordPair> {
    open spec fn row_le(a: ((Seq<char>, Seq<char>), usize), b: ((Seq<char>, Seq<char>), usize)) -> bool {
        pair_le(a, b)
    }

    proof fn lemma_row_order() {
        let le = |a: ((Seq<char>, Seq<char>), usize), b: ((Seq<char>, Seq<char>), usize)|
            Self::row_le(a, b);
        assert forall|a: ((Seq<char>, Seq<char>), usize)| #[trigger] le(a, a) by {
            lemma_lex_reflexive(a.0.1);
        }
        assert forall|a: ((Seq<char>, Seq<char>), usize), b: ((Seq<char>, Seq<char>), usize)|
            #[trigger] le(a, b) && #[trigger] le(b, a) implies a == b by {
            if a.1 == b.1 && a.0.0 != b.0.0 {
                lemma_lex_antisymmetric(a.0.0, b.0.0);
            }
            if a.1 == b.1 && a.0.0 == b.0.0 {
                lemma_lex_antisymmetric(a.0.1, b.0.1);
            }
        }
        assert forall|
            a: ((Seq<char>, Seq<char>), usize),
            b: ((Seq<char>, Seq<char>), usize),
            c: ((Seq<char>, Seq<char>), usize),
        | #[trigger] le(a, b) && #[trigger] le(b, c) implies le(a, c) by {
            if a.1 == b.1 && b.1 == c.1 {
                if a.0.0 != b.0.0 && b.0.0 != c.0.0 {
                    lemma_lex_transitive(a.0.0, b.0.0, c.0.0);
                    if a.0.0 == c.0.0 {
                        lemma_lex_antisymmetric(a.0.0, b.0.0);
                    }
                } else if a.0.0 == b.0.0 && b.0.0 == c.0.0 {
                    lemma_lex_transitive(a.0.1, b.0.1, c.0.1);
                }
            }
        }
        assert forall|a: ((Seq<char>, Seq<char>), usize), b: ((Seq<char>, Seq<char>), usize)| #[trigger]
            le(a, b) || #[trigger] le(b, a) by {
            lemma_lex_total(a.0.0, b.0.0);
            lemma_lex_total(a.0.1, b.0.1);
        }
    }

    fn compare(&self, other: &Self) -> (r: Ordering) {
        if self.count > other.count {
            return Ordering::Less;
        }
        if self.count < other.count {
            return Ordering::Greater;
        }
        match string_cmp(&self.key.first, &other.key.first) {
            Ordering::Less => Ordering::Less,
            Ordering::Greater => Ordering::Greater,
            Ordering::Equal => string_cmp(&self.key.second, &other.key.second),
        }
    }
}

/// The rows of a table, before ordering: one per entry.
pub open spec fn rows_unordered<V>(entries: Seq<(V, nat)>) -> Seq<(V, usize)> {
    entries.map_values(|e: (V, nat)| (e.0, e.1 as usize))
}

/// The exported rows of a table: one per counted key, fully ordered.
pub open spec fn table_rows_spec<K: CountKey>(t: CountTable<K>) -> Seq<(K::V, usize)> where
    CountRow<K>: RowOrder<V = (K::V, usize)>,
 {
    rows_unordered(t.entry_seq()).sort_by(|a: (K::V, usize), b: (K::V, usize)| CountRow::<K>::row_le(a, b))
}

/// The rows of a table, ordered by count descending, then key ascending.
pub fn table_rows<K: CountKey>(t: &CountTable<K>) -> (r: Vec<CountRow<K>>) where
    CountRow<K>: RowOrder<V = (K::V, usize)>,

    requires
        t.wf(),
    ensures
        keys_view(r@) == table_rows_spec(*t),
        forall|i: int| 0 <= i < r@.len() ==> #[trigger] r@[i].count == t.view().count(r@[i].key@),
{
    let entries = t.entry_list();
    let mut rows: Vec<CountRow<K>> = Vec::new();
    let mut i: usize = 0;
    while i < entries.len()
        invariant
            i <= entries@.len(),
            pairs_view(entries@) == t.entry_seq(),
            keys_view(rows@) =~= rows_unordered(t.entry_seq()).take(i as int),
        decreases entries@.len() - i,
    {
        let ghost before = keys_view(rows@);
        rows.push(CountRow { key: entries[i].0.copy_key(), count: entries[i].1 });
        assert(pairs_view(entries@)[i as int] == (entries@[i as int].0@, entries@[i as int].1 as nat));
        assert(keys_view(rows@) =~= before.push(rows_unordered(t.entry_seq())[i as int]));
        i = i + 1;
    }
    let ghost unordered = keys_view(rows@);
    assert(unordered =~= rows_unordered(t.entry_seq()));
    sort_rows(&mut rows);
    proof {
        CountRow::<K>::lemma_row_order();
        let le = |a: (K::V, usize), b: (K::V, usize)| CountRow::<K>::row_le(a, b);
        unordered.lemma_sort_by_ensures(le);
        vstd::seq_lib::lemma_sorted_unique(keys_view(rows@), unordered.sort_by(le), le);
        assert forall|i: int| 0 <= i < rows@.len() implies #[trigger] rows@[i].count == t.view().count(
            rows@[i].key@,
        ) by {
            lemma_row_counts(*t, keys_view(rows@), i);
        }
    }
    rows
}

/// Every row of a permutation of a table's rows carries that key's count.
proof fn lemma_row_counts<K: CountKey>(t: CountTable<K>, rows: Seq<(K::V, usize)>, i: int)
    requires
        t.wf(),
        rows.to_multiset() == rows_unordered(t.entry_seq()).to_multiset(),
        0 <= i < rows.len(),
    ensures
        rows[i].1 == t.view().count(rows[i].0),
{
    broadcast use vstd::seq_lib::group_to_multiset_ensures;

    let u = rows_unordered(t.entry_seq());
    assert(rows.to_multiset().count(rows[i]) > 0);
    assert(u.contains(rows[i]));
    let j = choose|j: int| 0 <= j < u.len() && u[j] == rows[i];
    t.lemma_shape();
    crate::counts::lemma_entry_count(t.entry_seq(), j);
}

/// The unordered rows of a table are exactly its (key, count) pairs, each once.
proof fn lemma_rows_elements<K: CountKey>(t: CountTable<K>)
    requires
        t.wf(),
    ensures
        rows_unordered(t.entry_seq()).no_duplicates(),
        forall|x: (K::V, usize)| #[trigger] rows_unordered(t.entry_seq()).contains(x) <==> (t.view().count(x.0)
            > 0 && x.1 == t.view().count(x.0)),
{
    let s = t.entry_seq();
    let u = rows_unordered(s);
    t.lemma_shape();
    assert forall|x: (K::V, usize)| #[trigger] u.contains(x) <==> (t.view().count(x.0) > 0 && x.1
        == t.view().count(x.0)) by {
        if u.contains(x) {
            let j = choose|j: int| 0 <= j < u.len() && u[j] == x;
            crate::counts::lemma_entry_count(s, j);
        }
        if t.view().count(x.0) > 0 && x.1 == t.view().count(x.0) {
            crate::counts::lemma_entries_count(s, x.0);
            let j = choose|j: int| 0 <= j < s.len() && s[j].0 == x.0;
            crate::counts::lemma_entry_count(s, j);
            assert(u[j] == x);
        }
    }
    assert forall|a: int, b: int| 0 <= a < u.len() && 0 <= b < u.len() && a != b implies u[a] != u[b] by {
        if a < b {
            assert(s[a].0 != s[b].0);
        } else {
            assert(s[b].0 != s[a].0);
        }
    }
}

/// Two sequences without duplicates that hold the same elements are permutations.
proof fn lemma_same_elements<A>(x: Seq<A>, y: Seq<A>)
    requires
        x.no_duplicates(),
        y.no_duplicates(),
        forall|v: A| x.contains(v) <==> y.contains(v),
    ensures
        x.to_multiset() == y.to_multiset(),
{
    broadcast use vstd::seq_lib::group_to_multiset_ensures;

    x.lemma_multiset_has_no_duplicates();
    y.lemma_multiset_has_no_duplicates();
    assert forall|v: A| x.to_multiset().count(v) == y.to_multiset().count(v) by {
        if x.contains(v) {
            assert(x.to_multiset().contains(v));
            assert(y.to_multiset().contains(v));
        }
    }
    assert(x.to_multiset() =~= y.to_multiset());
}

/// Export order does not depend on how a table stores its entries: two
/// tables with the same counts give the same rows, in the same order.
pub proof fn lemma_export_deterministic<K: CountKey>(t1: CountTable<K>, t2: CountTable<K>) where
    CountRow<K>: RowOrder<V = (K::V, usize)>,

    requires
        t1.wf(),
        t2.wf(),
        t1.view() == t2.view(),
    ensures
        table_rows_spec(t1) == table_rows_spec(t2),
{
    lemma_rows_elements(t1);
    lemma_rows_elements(t2);
    let u1 = rows_unordered(t1.entry_seq());
    let u2 = rows_unordered(t2.entry_seq());
    assert forall|v: (K::V, usize)| u1.contains(v) <==> u2.contains(v) by {
        assert(u1.contains(v) <==> (t1.view().count(v.0) > 0 && v.1 == t1.view().count(v.0)));
        assert(u2.contains(v) <==> (t2.view().count(v.0) > 0 && v.1 == t2.view().count(v.0)));
    }
    lemma_same_elements(u1, u2);
    CountRow::<K>::lemma_row_order();
    let le = |a: (K::V, usize), b: (K::V, usize)| CountRow::<K>::row_le(a, b);
    u1.lemma_sort_by_ensures(le);
    u2.lemma_sort_by_ensures(le);
    vstd::seq_lib::lemma_sorted_unique(u1.sort_by(le), u2.sort_by(le), le);
}

/// The view of a PMI row: words, distance, count, word frequencies, token total.
pub type PmiView = (Seq<char>, Seq<char>, usize, usize, usize, usize, usize);

/// Numerator of a row's PMI ratio: `count * n_tokens`.
pub open spec fn pmi_num(e: PmiView) -> int {
    e.3 * e.6
}

/// Denominator of a row's PMI ratio: `freq1 * freq2` (1 where that is 0).
pub open spec fn pmi_den(e: PmiView) -> int {
    if e.4 * e.5 == 0 {
        1
    } else {
        e.4 * e.5
    }
}

/// How the PMI of `a` compares with the PMI of `b` (the logarithm keeps the order).
pub open spec fn pmi_cmp(a: PmiView, b: PmiView) -> int {
    cross_cmp(pmi_num(a), pmi_den(a), pmi_num(b), pmi_den(b))
}

/// PMI table: count descending, PMI descending, word1 ascending, word2
/// ascending, then distance, frequencies and total ascending.
pub open spec fn pmi_le(a: PmiView, b: PmiView) -> bool {
    if a.3 != b.3 {
        a.3 > b.3
    } else if pmi_cmp(a, b) != 0 {
        pmi_cmp(a, b) > 0
    } else if a.0 != b.0 {
        lex_le(a.0, b.0)
    } else if a.1 != b.1 {
        lex_le(a.1, b.1)
    } else if a.2 != b.2 {
        a.2 < b.2
    } else if a.4 != b.4 {
        a.4 < b.4
    } else if a.5 != b.5 {
        a.5 < b.5
    } else {
        a.6 <= b.6
    }
}

proof fn lemma_pmi_den_positive(e: PmiView)
    ensures
        pmi_den(e) > 0,
{
    assert(e.4 * e.5 >= 0) by (nonlinear_arith);
}

proof fn lemma_pmi_le_transitive(a: PmiView, b: PmiView, c: PmiView)
    requires
        pmi_le(a, b),
        pmi_le(b, c),
    ensures
        pmi_le(a, c),
{
    lemma_pmi_den_positive(a);
    lemma_pmi_den_positive(b);
    lemma_pmi_den_positive(c);
    lemma_cross_transitive(pmi_num(a), pmi_den(a), pmi_num(b), pmi_den(b), pmi_num(c), pmi_den(c));
    lemma_cross_transitive(pmi_num(b), pmi_den(b), pmi_num(c), pmi_den(c), pmi_num(a), pmi_den(a));
    lemma_cross_transitive(pmi_num(a), pmi_den(a), pmi_num(c), pmi_den(c), pmi_num(b), pmi_den(b));
    if a.3 == b.3 && b.3 == c.3 && pmi_cmp(a, b) == 0 && pmi_cmp(b, c) == 0 {
        if a.0 != b.0 && b.0 != c.0 {
            lemma_lex_transitive(a.0, b.0, c.0);
            if a.0 == c.0 {
                lemma_lex_antisymmetric(a.0, b.0);
            }
        } else if a.0 == b.0 && b.0 == c.0 {
            if a.1 != b.1 && b.1 != c.1 {
                lemma_lex_transitive(a.1, b.1, c.1);
                if a.1 == c.1 {
                    lemma_lex_antisymmetric(a.1, b.1);
                }
            }
        }
    }
}

impl RowOrder for PmiEntry {
    open spec fn row_le(a: PmiView, b: PmiView) -> bool {
        pmi_le(a, b)
    }

    proof fn lemma_row_order() {
        let le = |a: PmiView, b: PmiView| Self::row_le(a, b);
        assert forall|a: PmiView| #[trigger] le(a, a) by {
            lemma_pmi_den_positive(a);
        }
        assert forall|a: PmiView, b: PmiView| #[trigger] le(a, b) && #[trigger] le(b, a) implies a == b by {
            lemma_pmi_den_positive(a);
            lemma_pmi_den_positive(b);
            lemma_cross_transitive(pmi_num(a), pmi_den(a), pmi_num(b), pmi_den(b), pmi_num(a), pmi_den(a));
            if a.0 != b.0 {
                lemma_lex_antisymmetric(a.0, b.0);
            }
            if a.1 != b.1 {
                lemma_lex_antisymmetric(a.1, b.1);
            }
        }
        assert forall|a: PmiView, b: PmiView, c: PmiView| #[trigger] le(a, b) && #[trigger] le(b, c) implies le(
            a,
            c,
        ) by {
            lemma_pmi_le_transitive(a, b, c);
        }
        assert forall|a: PmiView, b: PmiView| #[trigger] le(a, b) || #[trigger] le(b, a) by {
            lemma_pmi_den_positive(a);
            lemma_pmi_den_positive(b);
            lemma_cross_transitive(pmi_num(a), pmi_den(a), pmi_num(b), pmi_den(b), pmi_num(a), pmi_den(a));
            lemma_lex_total(a.0, b.0);
            lemma_lex_total(a.1, b.1);
        }
    }

    fn compare(&self, other: &Self) -> (r: Ordering) {
        if self.count > other.count {
            return Ordering::Less;
        }
        if self.count < other.count {
            return Ordering::Greater;
        }
        let ghost a = self@;
        let ghost b = other@;
        proof {
            lemma_pmi_den_positive(a);
            lemma_pmi_den_positive(b);
            lemma_cross_transitive(pmi_num(a), pmi_den(a), pmi_num(b), pmi_den(b), pmi_num(a), pmi_den(a));
        }
        let (pa, qa) = pmi_ratio(self);
        let (pb, qb) = pmi_ratio(other);
        match fraction_cmp(pa, qa, pb, qb) {
            Ordering::Greater => {
                return Ordering::Less;
            },
            Ordering::Less => {
                return Ordering::Greater;
            },
            Ordering::Equal => {},
        }
        match string_cmp(&self.word1, &other.word1) {
            Ordering::Less => {
                return Ordering::Less;
            },
            Ordering::Greater => {
                return Ordering::Greater;
            },
            Ordering::Equal => {},
        }
        match string_cmp(&self.word2, &other.word2) {
            Ordering::Less => {
                return Ordering::Less;
            },
            Ordering::Greater => {
                return Ordering::Greater;
            },
            Ordering::Equal => {},
        }
        if self.distance != other.distance {
            return if self.distance < other.distance {
                Ordering::Less
            } else {
                Ordering::Greater
            };
        }
        if self.freq1 != other.freq1 {
            return if self.freq1 < other.freq1 {
                Ordering::Less
            } else {
                Ordering::Greater
            };
        }
        if self.freq2 != other.freq2 {
            return if self.freq2 < other.freq2 {
                Ordering::Less
            } else {
                Ordering::Greater
            };
        }
        if self.n_tokens < other.n_tokens {
            Ordering::Less
        } else if self.n_tokens > other.n_tokens {
            Ordering::Greater
        } else {
            Ordering::Equal
        }
    }
}

/// The PMI ratio of a row as a fraction `(count * n_tokens, freq1 * freq2)`.
pub fn pmi_ratio(e: &PmiEntry) -> (r: (u128, u128))
    ensures
        r.0 == pmi_num(e@),
        r.1 == pmi_den(e@),
{
    proof {
        lemma_product_fits(e.count, e.n_tokens);
        lemma_product_fits(e.freq1, e.freq2);
    }
    let num = (e.count as u128) * (e.n_tokens as u128);
    let den = (e.freq1 as u128) * (e.freq2 as u128);
    if den == 0 {
        (num, 1)
    } else {
        (num, den)
    }
}

proof fn lemma_product_fits(a: usize, b: usize)
    ensures
        (a as int) * (b as int) <= u128::MAX,
{
    assert(usize::MAX <= 0xffff_ffff_ffff_ffff);
    assert((a as int) * (b as int) <= 0xffff_ffff_ffff_ffff * 0xffff_ffff_ffff_ffff) by (nonlinear_arith)
        requires
            0 <= a <= 0xffff_ffff_ffff_ffff,
            0 <= b <= 0xffff_ffff_ffff_ffff,
    ;
}

/// The exported PMI rows: the given rows, fully ordered.
pub open spec fn pmi_table_spec(rows: Seq<PmiView>) -> Seq<PmiView> {
    rows.sort_by(|a: PmiView, b: PmiView| PmiEntry::row_le(a, b))
}

/// The PMI rows ordered by count descending, PMI descending, then words.
pub fn pmi_table(rows: &Vec<PmiEntry>) -> (r: Vec<PmiEntry>)
    ensures
        keys_view(r@) == pmi_table_spec(keys_view(rows@)),
{
    let mut out: Vec<PmiEntry> = Vec::new();
    let mut i: usize = 0;
    while i < rows.len()
        invariant
            i <= rows@.len(),
            keys_view(out@) =~= keys_view(rows@).take(i as int),
        decreases rows@.len() - i,
    {
        let e = &rows[i];
        let ghost before = keys_view(out@);
        out.push(
            PmiEntry {
                word1: e.word1.clone(),
                word2: e.word2.clone(),
                distance: e.distance,
                count: e.count,
                freq1: e.freq1,
                freq2: e.freq2,
                n_tokens: e.n_tokens,
            },
        );
        assert(keys_view(out@) =~= before.push(rows@[i as int]@));
        i = i + 1;
    }
    let ghost unordered = keys_view(out@);
    assert(unordered =~= keys_view(rows@));
    sort_rows(&mut out);
    proof {
        PmiEntry::lemma_row_order();
        let le = |a: PmiView, b: PmiView| PmiEntry::row_le(a, b);
        unordered.lemma_sort_by_ensures(le);
        vstd::seq_lib::lemma_sorted_unique(keys_view(out@), unordered.sort_by(le), le);
    }
    out
}

/// Two PMI lists with the same rows export identically, whatever their order.
pub proof fn lemma_pmi_export_deterministic(x: Seq<PmiView>, y: Seq<PmiView>)
    requires
        x.to_multiset() == y.to_multiset(),
    ensures
        pmi_table_spec(x) == pmi_table_spec(y),
{
    PmiEntry::lemma_row_order();
    let le = |a: PmiView, b: PmiView| PmiEntry::row_le(a, b);
    x.lemma_sort_by_ensures(le);
    y.lemma_sort_by_ensures(le);
    vstd::seq_lib::lemma_sorted_unique(x.sort_by(le), y.sort_by(le), le);
}

/// What `csv::Writer` writes for `records`, one after another, with `delimiter`
/// (fields quoted where needed, quotes doubled, one record per line).
pub uninterp spec fn delimited(records: Seq<Seq<Seq<char>>>, delimiter: u8) -> Seq<u8>;

/// The views of a list of records.
pub open spec fn records_view(v: Seq<Vec<String>>) -> Seq<Seq<Seq<char>>> {
    v.map_values(|r: Vec<String>| strings_view(r@))
}

/// Relies on `csv::WriterBuilder` and `csv::Writer::write_record`: writing
/// `records` into a byte buffer; the bytes depend on the records and the
/// delimiter alone. With a byte buffer the only error is a record whose field
/// count differs from the first record's (the writer is not flexible).
#[verifier::external_body]
fn write_delimited(records: &Vec<Vec<String>>, delimiter: u8) -> (r: Result<Vec<u8>, String>)
    ensures
        r matches Ok(b) ==> b@ == delimited(records_view(records@), delimiter),
        (forall|i: int| 0 <= i < records@.len() ==> #[trigger] records@[i]@.len() == records@[0]@.len())
            ==> r is Ok,
{
    let mut w = csv::WriterBuilder::new().delimiter(delimiter).from_writer(Vec::new());
    for record in records {
        w.write_record(record).map_err(|e| e.to_string())?;
    }
    w.into_inner().map_err(|e| e.to_string())
}

/// A table as text cells: a header and the rows, in order.
pub struct CellTable {
    pub header: Vec<String>,
    pub rows: Vec<Vec<String>>,
}

/// Encodes a cell table as CSV (`delimiter` b',') or TSV (b'\t'). It
/// succeeds whenever every row has as many cells as the header.
pub fn encode_delimited(table: &CellTable, delimiter: u8) -> (r: Result<Vec<u8>, String>)
    ensures
        r matches Ok(b) ==> b@ == delimited(seq![strings_view(table.header@)] + records_view(table.rows@), delimiter),
        (forall|i: int| 0 <= i < table.rows@.len() ==> #[trigger] table.rows@[i]@.len() == table.header@.len())
            ==> r is Ok,
{
    let mut records: Vec<Vec<String>> = Vec::new();
    records.push(copy_strings(&table.header));
    let mut i: usize = 0;
    while i < table.rows.len()
        invariant
            i <= table.rows@.len(),
            records@.len() == i + 1,
            records@[0]@.len() == table.header@.len(),
            forall|j: int| 0 <= j < i ==> #[trigger] records@[j + 1]@.len() == table.rows@[j]@.len(),
            records_view(records@) =~= seq![strings_view(table.header@)] + records_view(table.rows@).take(i as int),
        decreases table.rows@.len() - i,
    {
        let ghost before = records_view(records@);
        records.push(copy_strings(&table.rows[i]));
        assert(records_view(records@) =~= before.push(strings_view(table.rows@[i as int]@)));
        i = i + 1;
    }
    assert(records_view(table.rows@).take(i as int) =~= records_view(table.rows@));
    proof {
        if forall|j: int| 0 <= j < table.rows@.len() ==> #[trigger] table.rows@[j]@.len() == table.header@.len() {
            assert forall|k: int| 0 <= k < records@.len() implies #[trigger] records@[k]@.len() == records@[0]@.len() by {
                if k > 0 {
                    assert(records@[(k - 1) + 1]@.len() == table.rows@[k - 1]@.len());
                }
            }
        }
    }
    write_delimited(&records, delimiter)
}

/// A copy of a list of strings.
pub fn copy_strings(v: &Vec<String>) -> (r: Vec<String>)
    ensures
        strings_view(r@) == strings_view(v@),
        r@.len() == v@.len(),
{
    let mut r: Vec<String> = Vec::new();
    let mut i: usize = 0;
    while i < v.len()
        invariant
            i <= v@.len(),
            strings_view(r@) =~= strings_view(v@).take(i as int),
        decreases v@.len() - i,
    {
        let ghost before = strings_view(r@);
        r.push(v[i].clone());
        assert(strings_view(r@) =~= before.push(v@[i as int]@));
        i = i + 1;
    }
    assert(strings_view(v@).take(i as int) =~= strings_view(v@));
    r
}

/// The cells of a flat table row: the item made safe, the count in decimal.
pub open spec fn flat_cells(row: (Seq<char>, usize)) -> Seq<Seq<char>> {
    seq![sanitized(row.0), decimal(row.1 as nat)]
}

/// The cells of a pair table row: both items made safe, the count in decimal.
pub open spec fn pair_cells(row: ((Seq<char>, Seq<char>), usize)) -> Seq<Seq<char>> {
    seq![sanitized(row.0.0), sanitized(row.0.1), decimal(row.1 as nat)]
}

/// The CSV/TSV cells of a flat table (`item`, `count`), rows in export order.
pub fn flat_cell_table(t: &CountTable<String>) -> (r: CellTable)
    requires
        t.wf(),
    ensures
        strings_view(r.header@) == seq!["item"@, "count"@],
        records_view(r.rows@) == table_rows_spec(*t).map_values(|row: (Seq<char>, usize)| flat_cells(row)),
{
    let rows = table_rows(t);
    let mut cells: Vec<Vec<String>> = Vec::new();
    let mut i: usize = 0;
    while i < rows.len()
        invariant
            i <= rows@.len(),
            keys_view(rows@) == table_rows_spec(*t),
            records_view(cells@) =~= keys_view(rows@).take(i as int).map_values(
                |row: (Seq<char>, usize)| flat_cells(row),
            ),
        decreases rows@.len() - i,
    {
        let ghost before = records_view(cells@);
        let row = vec![csv_safe_cell(rows[i].key.clone()), decimal_string(rows[i].count)];
        cells.push(row);
        assert(strings_view(row@) =~= flat_cells(rows@[i as int]@));
        assert(records_view(cells@) =~= before.push(flat_cells(rows@[i as int]@)));
        i = i + 1;
    }
    assert(keys_view(rows@).take(i as int) =~= keys_view(rows@));
    let header = vec![owned("item"), owned("count")];
    assert(strings_view(header@) =~= seq!["item"@, "count"@]);
    CellTable { header, rows: cells }
}

/// The CSV/TSV cells of a pair table (`item1`, `item2`, `count`), rows in export order.
pub fn pair_cell_table(t: &CountTable<WordPair>) -> (r: CellTable)
    requires
        t.wf(),
    ensures
        strings_view(r.header@) == seq!["item1"@, "item2"@, "count"@],
        records_view(r.rows@) == table_rows_spec(*t).map_values(
            |row: ((Seq<char>, Seq<char>), usize)| pair_cells(row),
        ),
{
    let rows = table_rows(t);
    let mut cells: Vec<Vec<String>> = Vec::new();
    let mut i: usize = 0;
    while i < rows.len()
        invariant
            i <= rows@.len(),
            keys_view(rows@) == table_rows_spec(*t),
            records_view(cells@) =~= keys_view(rows@).take(i as int).map_values(
                |row: ((Seq<char>, Seq<char>), usize)| pair_cells(row),
            ),
        decreases rows@.len() - i,
    {
        let ghost before = records_view(cells@);
        let row = vec![
            csv_safe_cell(rows[i].key.first.clone()),
            csv_safe_cell(rows[i].key.second.clone()),
            decimal_string(rows[i].count),
        ];
        cells.push(row);
        assert(strings_view(row@) =~= pair_cells(rows@[i as int]@));
        assert(records_view(cells@) =~= before.push(pair_cells(rows@[i as int]@)));
        i = i + 1;
    }
    assert(keys_view(rows@).take(i as int) =~= keys_view(rows@));
    let header = vec![owned("item1"), owned("item2"), owned("count")];
    assert(strings_view(header@) =~= seq!["item1"@, "item2"@, "count"@]);
    CellTable { header, rows: cells }
}

/// The text cells of a PMI row that need no floating point: both words made
/// safe, the distance and the count in decimal.
pub open spec fn pmi_cells(row: PmiView) -> Seq<Seq<char>> {
    seq![sanitized(row.0), sanitized(row.1), decimal(row.2 as nat), decimal(row.3 as nat)]
}

/// The PMI rows in export order, with the cells of each that need no floating point
/// (`word1`, `word2`, `distance`, `count`); the PMI value itself is appended by the caller.
pub fn pmi_cell_rows(pmi: &Vec<PmiEntry>) -> (r: (Vec<PmiEntry>, Vec<Vec<String>>))
    ensures
        keys_view(r.0@) == pmi_table_spec(keys_view(pmi@)),
        records_view(r.1@) == pmi_table_spec(keys_view(pmi@)).map_values(|row: PmiView| pmi_cells(row)),
{
    let rows = pmi_table(pmi);
    let mut cells: Vec<Vec<String>> = Vec::new();
    let mut i: usize = 0;
    while i < rows.len()
        invariant
            i <= rows@.len(),
            keys_view(rows@) == pmi_table_spec(keys_view(pmi@)),
            records_view(cells@) =~= keys_view(rows@).take(i as int).map_values(|row: PmiView| pmi_cells(row)),
        decreases rows@.len() - i,
    {
        let ghost before = records_view(cells@);
        let row = vec![
            csv_safe_cell(rows[i].word1.clone()),
            csv_safe_cell(rows[i].word2.clone()),
            decimal_string(rows[i].distance),
            decimal_string(rows[i].count),
        ];
        cells.push(row);
        assert(strings_view(row@) =~= pmi_cells(rows@[i as int]@));
        assert(records_view(cells@) =~= before.push(pmi_cells(rows@[i as int]@)));
        i = i + 1;
    }
    assert(keys_view(rows@).take(i as int) =~= keys_view(rows@));
    (rows, cells)
}

/// In-memory PMI order: PMI descending, count descending, then as the export order.
pub open spec fn pmi_value_le(a: PmiView, b: PmiView) -> bool {
    if pmi_cmp(a, b) != 0 {
        pmi_cmp(a, b) > 0
    } else if a.3 != b.3 {
        a.3 > b.3
    } else {
        pmi_le(a, b)
    }
}

/// A PMI row ordered by its PMI value first.
pub struct ByPmiValue(pub PmiEntry);

impl View for ByPmiValue {
    type V = PmiView;

    open spec fn view(&self) -> PmiView {
        self.0@
    }
}

impl RowOrder for ByPmiValue {
    open spec fn row_le(a: PmiView, b: PmiView) -> bool {
        pmi_value_le(a, b)
    }

    proof fn lemma_row_order() {
        PmiEntry::lemma_row_order();
        let base = |a: PmiView, b: PmiView| PmiEntry::row_le(a, b);
        let le = |a: PmiView, b: PmiView| Self::row_le(a, b);
        assert forall|a: PmiView| #[trigger] le(a, a) by {
            assert(base(a, a));
            lemma_pmi_den_positive(a);
        }
        assert forall|a: PmiView, b: PmiView| #[trigger] le(a, b) && #[trigger] le(b, a) implies a == b by {
            lemma_pmi_den_positive(a);
            lemma_pmi_den_positive(b);
            lemma_cross_transitive(pmi_num(a), pmi_den(a), pmi_num(b), pmi_den(b), pmi_num(a), pmi_den(a));
            assert(base(a, b) && base(b, a));
        }
        assert forall|a: PmiView, b: PmiView, c: PmiView| #[trigger] le(a, b) && #[trigger] le(b, c) implies le(
            a,
            c,
        ) by {
            lemma_pmi_den_positive(a);
            lemma_pmi_den_positive(b);
            lemma_pmi_den_positive(c);
            lemma_cross_transitive(pmi_num(a), pmi_den(a), pmi_num(b), pmi_den(b), pmi_num(c), pmi_den(c));
            lemma_cross_transitive(pmi_num(b), pmi_den(b), pmi_num(c), pmi_den(c), pmi_num(a), pmi_den(a));
            lemma_cross_transitive(pmi_num(a), pmi_den(a), pmi_num(c), pmi_den(c), pmi_num(b), pmi_den(b));
            if pmi_cmp(a, b) == 0 && pmi_cmp(b, c) == 0 && a.3 == b.3 && b.3 == c.3 {
                assert(base(a, b) && base(b, c));
                assert(base(a, c));
            }
        }
        assert forall|a: PmiView, b: PmiView| #[trigger] le(a, b) || #[trigger] le(b, a) by {
            lemma_pmi_den_positive(a);
            lemma_pmi_den_positive(b);
            lemma_cross_transitive(pmi_num(a), pmi_den(a), pmi_num(b), pmi_den(b), pmi_num(a), pmi_den(a));
            assert(base(a, b) || base(b, a));
        }
    }

    fn compare(&self, other: &Self) -> (r: Ordering) {
        let ghost a = self@;
        let ghost b = other@;
        proof {
            lemma_pmi_den_positive(a);
            lemma_pmi_den_positive(b);
            lemma_cross_transitive(pmi_num(a), pmi_den(a), pmi_num(b), pmi_den(b), pmi_num(a), pmi_den(a));
        }
        let (pa, qa) = pmi_ratio(&self.0);
        let (pb, qb) = pmi_ratio(&other.0);
        match fraction_cmp(pa, qa, pb, qb) {
            Ordering::Greater => Ordering::Less,
            Ordering::Less => Ordering::Greater,
            Ordering::Equal => self.0.compare(&other.0),
        }
    }
}

/// A copy of a PMI row.
pub fn copy_pmi_entry(e: &PmiEntry) -> (r: PmiEntry)
    ensures
        r@ == e@,
{
    PmiEntry {
        word1: e.word1.clone(),
        word2: e.word2.clone(),
        distance: e.distance,
        count: e.count,
        freq1: e.freq1,
        freq2: e.freq2,
        n_tokens: e.n_tokens,
    }
}

/// The rows ordered by PMI descending, then count descending, then words.
pub fn sort_by_pmi_value(rows: &Vec<PmiEntry>) -> (r: Vec<PmiEntry>)
    ensures
        keys_view(r@).to_multiset() == keys_view(rows@).to_multiset(),
        sorted_by(keys_view(r@), |a: PmiView, b: PmiView| ByPmiValue::row_le(a, b)),
{
    let mut wrapped: Vec<ByPmiValue> = Vec::new();
    let mut i: usize = 0;
    while i < rows.len()
        invariant
            i <= rows@.len(),
            keys_view(wrapped@) =~= keys_view(rows@).take(i as int),
        decreases rows@.len() - i,
    {
        let ghost before = keys_view(wrapped@);
        wrapped.push(ByPmiValue(copy_pmi_entry(&rows[i])));
        assert(keys_view(wrapped@) =~= before.push(rows@[i as int]@));
        i = i + 1;
    }
    assert(keys_view(rows@).take(i as int) =~= keys_view(rows@));
    sort_rows(&mut wrapped);
    let mut out: Vec<PmiEntry> = Vec::new();
    let mut j: usize = 0;
    while j < wrapped.len()
        invariant
            j <= wrapped@.len(),
            keys_view(out@) =~= keys_view(wrapped@).take(j as int),
        decreases wrapped@.len() - j,
    {
        let ghost before = keys_view(out@);
        out.push(copy_pmi_entry(&wrapped[j].0));
        assert(keys_view(out@) =~= before.push(wrapped@[j as int]@));
        j = j + 1;
    }
    assert(keys_view(wrapped@).take(j as int) =~= keys_view(wrapped@));
    out
}

/// One output file of a result.
#[derive(Copy, Clone, Debug, PartialEq, Eq, Structural)]
pub enum OutputFile {
    NGrams,
    WordFreq,
    Context,
    Neighbors,
    Pmi,
    NamedEntities,
    /// The named-entity table alone (entities-only export).
    Entities,
    /// The human-readable summary of all tables (text export).
    Summary,
}

/// The files written for one result: with entities only, the entity table;
/// as text, one summary; otherwise the six tables.
pub open spec fn planned_outputs(entities_only: bool, format: ExportFormat) -> Seq<OutputFile> {
    if entities_only {
        seq![OutputFile::Entities]
    } else if format == ExportFormat::Txt {
        seq![OutputFile::Summary]
    } else {
        seq![
            OutputFile::NGrams,
            OutputFile::WordFreq,
            OutputFile::Context,
            OutputFile::Neighbors,
            OutputFile::Pmi,
            OutputFile::NamedEntities,
        ]
    }
}

/// The files to write for one result under `opts`, in writing order.
pub fn output_files(opts: &AnalysisOptions) -> (r: Vec<OutputFile>)
    ensures
        r@ == planned_outputs(opts.entities_only, opts.export_format),
{
    let r = if opts.entities_only {
        vec![OutputFile::Entities]
    } else if opts.export_format == ExportFormat::Txt {
        vec![OutputFile::Summary]
    } else {
        vec![
            OutputFile::NGrams,
            OutputFile::WordFreq,
            OutputFile::Context,
            OutputFile::Neighbors,
            OutputFile::Pmi,
            OutputFile::NamedEntities,
        ]
    };
    assert(r@ =~= planned_outputs(opts.entities_only, opts.export_format));
    r
}

/// The table part of an output file's name.
pub open spec fn output_name(f: OutputFile) -> Seq<char> {
    match f {
        OutputFile::NGrams => "ngrams"@,
        OutputFile::WordFreq => "wordfreq"@,
        OutputFile::Context => "context"@,
        OutputFile::Neighbors => "neighbors"@,
        OutputFile::Pmi => "pmi"@,
        OutputFile::NamedEntities => "namedentities"@,
        OutputFile::Entities => "entities"@,
        OutputFile::Summary => "summary"@,
    }
}

/// The extension of a file in `format`.
pub open spec fn format_extension(format: ExportFormat) -> Seq<char> {
    match format {
        ExportFormat::Txt => "txt"@,
        ExportFormat::Csv => "csv"@,
        ExportFormat::Tsv => "tsv"@,
        ExportFormat::Json => "json"@,
    }
}

/// The name of an output file: `<subject>_<timestamp>_<table>.<extension>`;
/// the entities-only table and the summary of a text export are `.txt` files
/// in text format.
pub fn output_file_name(subject: &str, timestamp: &str, file: OutputFile, format: ExportFormat) -> (r: String)
    ensures
        r@ == subject@ + "_"@ + timestamp@ + "_"@ + output_name(file) + "."@ + format_extension(format),
{
    let mut r = owned(subject);
    r.append("_");
    r.append(timestamp);
    r.append("_");
    let name = match file {
        OutputFile::NGrams => "ngrams",
        OutputFile::WordFreq => "wordfreq",
        OutputFile::Context => "context",
        OutputFile::Neighbors => "neighbors",
        OutputFile::Pmi => "pmi",
        OutputFile::NamedEntities => "namedentities",
        OutputFile::Entities => "entities",
        OutputFile::Summary => "summary",
    };
    r.append(name);
    r.append(".");
    let ext = match format {
        ExportFormat::Txt => "txt",
        ExportFormat::Csv => "csv",
        ExportFormat::Tsv => "tsv",
        ExportFormat::Json => "json",
    };
    r.append(ext);
    r
}

/// The delimiter of a delimited export: `,` for CSV, a tab otherwise.
pub fn delimiter_of(format: ExportFormat) -> (r: u8)
    ensures
        r == (if format == ExportFormat::Csv { 44u8 } else { 9u8 }),
{
    if format == ExportFormat::Csv {
        44u8
    } else {
        9u8
    }
}

} // verus!
