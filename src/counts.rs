//! Count tables: a key-to-count map with unique keys, viewed as a multiset.
use vstd::multiset::Multiset;
use vstd::prelude::*;
use vstd::string::StringExecFns;

verus! {

/// A key that a count table can hold: equality and copying are exact on the view.
pub trait CountKey: View + Sized {
    fn same_key(&self, other: &Self) -> (r: bool)
        ensures
            r == (self@ == other@),
    ;

    fn copy_key(&self) -> (r: Self)
        ensures
            r@ == self@,
    ;
}

impl CountKey for String {
    fn same_key(&self, other: &Self) -> (r: bool) {
        self.eq(other)
    }

    fn copy_key(&self) -> (r: Self) {
        self.clone()
    }
}

/// An ordered pair of words: (center, neighbour) for context and adjacency counts.
pub struct WordPair {
    pub first: String,
    pub second: String,
}

impl View for WordPair {
    type V = (Seq<char>, Seq<char>);

    open spec fn view(&self) -> (Seq<char>, Seq<char>) {
        (self.first@, self.second@)
    }
}

impl CountKey for WordPair {
    fn same_key(&self, other: &Self) -> (r: bool) {
        self.first.eq(&other.first) && self.second.eq(&other.second)
    }

    fn copy_key(&self) -> (r: Self) {
        WordPair { first: self.first.clone(), second: self.second.clone() }
    }
}

/// A canonical co-occurrence key: two words with `word1 <= word2`, and their distance.
pub struct CoocKey {
    pub word1: String,
    pub word2: String,
    pub distance: usize,
}

impl View for CoocKey {
    type V = (Seq<char>, Seq<char>, usize);

    open spec fn view(&self) -> (Seq<char>, Seq<char>, usize) {
        (self.word1@, self.word2@, self.distance)
    }
}

impl CountKey for CoocKey {
    fn same_key(&self, other: &Self) -> (r: bool) {
        self.distance == other.distance && self.word1.eq(&other.word1) && self.word2.eq(&other.word2)
    }

    fn copy_key(&self) -> (r: Self) {
        CoocKey { word1: self.word1.clone(), word2: self.word2.clone(), distance: self.distance }
    }
}

/// A multiset holding `c` copies of `k`.
pub open spec fn copies<V>(k: V, c: nat) -> Multiset<V>
    decreases c,
{
    if c == 0 {
        Multiset::empty()
    } else {
        copies(k, (c - 1) as nat).insert(k)
    }
}

pub proof fn lemma_copies<V>(k: V, c: nat)
    ensures
        copies(k, c).count(k) == c,
        copies(k, c).len() == c,
        forall|j: V| j != k ==> #[trigger] copies(k, c).count(j) == 0,
    decreases c,
{
    if c > 0 {
        lemma_copies(k, (c - 1) as nat);
    }
}

/// The multiset of keys that a sequence of (key, count) entries stands for.
pub open spec fn entries_multiset<V>(s: Seq<(V, nat)>) -> Multiset<V>
    decreases s.len(),
{
    if s.len() == 0 {
        Multiset::empty()
    } else {
        entries_multiset(s.drop_last()).add(copies(s.last().0, s.last().1))
    }
}

pub open spec fn keys_unique<V>(s: Seq<(V, nat)>) -> bool {
    forall|i: int, j: int| 0 <= i < j < s.len() ==> s[i].0 != s[j].0
}

pub proof fn lemma_entries_count<V>(s: Seq<(V, nat)>, k: V)
    ensures
        (forall|i: int| 0 <= i < s.len() ==> s[i].0 != k) ==> entries_multiset(s).count(k) == 0,
        keys_unique(s) ==> forall|i: int|
            0 <= i < s.len() && s[i].0 == k ==> entries_multiset(s).count(k) == s[i].1,
    decreases s.len(),
{
    if s.len() > 0 {
        let p = s.drop_last();
        lemma_entries_count(p, k);
        lemma_copies(s.last().0, s.last().1);
        assert forall|i: int| 0 <= i < p.len() implies p[i] == s[i] by {}
    }
}

/// With unique keys, an entry's count is its key's count in the multiset.
pub proof fn lemma_entry_count<V>(s: Seq<(V, nat)>, j: int)
    requires
        keys_unique(s),
        0 <= j < s.len(),
    ensures
        entries_multiset(s).count(s[j].0) == s[j].1,
{
    lemma_entries_count(s, s[j].0);
}

proof fn lemma_entries_update<V>(s: Seq<(V, nat)>, i: int, c: nat)
    requires
        0 <= i < s.len(),
    ensures
        forall|k: V|
            #[trigger] entries_multiset(s.update(i, (s[i].0, c))).count(k) == if k == s[i].0 {
                entries_multiset(s).count(k) - s[i].1 + c
            } else {
                entries_multiset(s).count(k) as int
            },
    decreases s.len(),
{
    let t = s.update(i, (s[i].0, c));
    let key = s[i].0;
    lemma_copies(s.last().0, s.last().1);
    lemma_copies(t.last().0, t.last().1);
    if i < s.len() - 1 {
        lemma_entries_update(s.drop_last(), i, c);
        assert(t.drop_last() =~= s.drop_last().update(i, (s[i].0, c)));
        assert(s.drop_last()[i] == s[i]);
        assert(t.last() == s.last());
    } else {
        assert(t.drop_last() =~= s.drop_last());
        assert(t.last() == (key, c));
        assert(s.last() == s[i]);
    }
    assert forall|k: V|
        #[trigger] entries_multiset(t).count(k) == if k == key {
            entries_multiset(s).count(k) - s[i].1 + c
        } else {
            entries_multiset(s).count(k) as int
        } by {
        assert(entries_multiset(t).count(k) == entries_multiset(t.drop_last()).count(k) + copies(
            t.last().0,
            t.last().1,
        ).count(k));
        assert(entries_multiset(s).count(k) == entries_multiset(s.drop_last()).count(k) + copies(
            s.last().0,
            s.last().1,
        ).count(k));
    }
}

/// Whether every key's counts in `a` and `b` sum to at most `usize::MAX`.
pub open spec fn counts_fit<V>(a: Multiset<V>, b: Multiset<V>) -> bool {
    forall|k: V| #[trigger] a.count(k) + b.count(k) <= usize::MAX
}

/// The view of a list of (key, count) pairs.
pub open spec fn pairs_view<K: View>(s: Seq<(K, usize)>) -> Seq<(K::V, nat)> {
    s.map_values(|e: (K, usize)| (e.0@, e.1 as nat))
}

/// A table of counts keyed by `K`, with each key present at most once and
/// every stored count positive.
pub struct CountTable<K> {
    entries: Vec<(K, usize)>,
}

impl<K: CountKey> CountTable<K> {
    pub closed spec fn entry_seq(&self) -> Seq<(K::V, nat)> {
        pairs_view(self.entries@)
    }

    /// The counted keys, each as many times as its count.
    pub closed spec fn view(&self) -> Multiset<K::V> {
        entries_multiset(self.entry_seq())
    }

    pub closed spec fn wf(&self) -> bool {
        &&& keys_unique(self.entry_seq())
        &&& forall|i: int| 0 <= i < self.entries@.len() ==> self.entries@[i].1 > 0
    }

    pub fn new() -> (r: Self)
        ensures
            r.wf(),
            r.view() =~= Multiset::empty(),
    {
        let r = CountTable { entries: Vec::new() };
        assert(r.entry_seq() =~= Seq::empty());
        r
    }

    /// Position of the entry for `k`, if any.
    fn find(&self, k: &K) -> (r: Option<usize>)
        ensures
            match r {
                Some(i) => i < self.entries@.len() && self.entries@[i as int].0@ == k@,
                None => forall|i: int| 0 <= i < self.entries@.len() ==> self.entries@[i].0@ != k@,
            },
    {
        let mut i: usize = 0;
        while i < self.entries.len()
            invariant
                i <= self.entries@.len(),
                forall|j: int| 0 <= j < i ==> self.entries@[j].0@ != k@,
            decreases self.entries@.len() - i,
        {
            if self.entries[i].0.same_key(k) {
                return Some(i);
            }
            i = i + 1;
        }
        None
    }

    proof fn lemma_count_at(&self, i: int)
        requires
            self.wf(),
            0 <= i < self.entries@.len(),
        ensures
            self.view().count(self.entries@[i].0@) == self.entries@[i].1,
    {
        lemma_entries_count(self.entry_seq(), self.entries@[i].0@);
        assert(self.entry_seq()[i] == (self.entries@[i].0@, self.entries@[i].1 as nat));
    }

    proof fn lemma_count_absent(&self, k: K::V)
        requires
            forall|i: int| 0 <= i < self.entries@.len() ==> self.entries@[i].0@ != k,
        ensures
            self.view().count(k) == 0,
    {
        lemma_entries_count(self.entry_seq(), k);
    }

    /// Adds `c` occurrences of `k`.
    pub fn add(&mut self, k: &K, c: usize)
        requires
            old(self).wf(),
            c > 0,
            old(self).view().count(k@) + c <= usize::MAX,
        ensures
            final(self).wf(),
            final(self).view() =~= old(self).view().add(copies(k@, c as nat)),
    {
        proof {
            lemma_copies(k@, c as nat);
        }
        match self.find(k) {
            Some(i) => {
                proof {
                    self.lemma_count_at(i as int);
                }
                let cur = self.entries[i].1;
                let key = self.entries[i].0.copy_key();
                let ghost s0 = self.entry_seq();
                self.entries.set(i, (key, cur + c));
                proof {
                    lemma_entries_update(s0, i as int, (cur + c) as nat);
                    assert(self.entry_seq() =~= s0.update(i as int, (s0[i as int].0, (cur + c) as nat)));
                    assert forall|a: int, b: int| 0 <= a < b < self.entry_seq().len() implies self.entry_seq()[a].0
                        != self.entry_seq()[b].0 by {
                        assert(s0[a].0 != s0[b].0);
                    }
                }
            },
            None => {
                proof {
                    self.lemma_count_absent(k@);
                }
                let ghost s0 = self.entry_seq();
                self.entries.push((k.copy_key(), c));
                proof {
                    assert(self.entry_seq().drop_last() =~= s0);
                    assert forall|a: int, b: int| 0 <= a < b < self.entry_seq().len() implies self.entry_seq()[a].0
                        != self.entry_seq()[b].0 by {
                        if b < s0.len() {
                            assert(s0[a].0 != s0[b].0);
                        } else {
                            assert(self.entries@[a].0@ != k@);
                        }
                    }
                }
            },
        }
    }

    /// Adds one occurrence of `k`.
    pub fn increment(&mut self, k: &K)
        requires
            old(self).wf(),
            old(self).view().count(k@) < usize::MAX,
        ensures
            final(self).wf(),
            final(self).view() =~= old(self).view().insert(k@),
    {
        self.add(k, 1);
        proof {
            reveal_with_fuel(copies, 2);
        }
    }

    /// The count of `k`, or `None` where `k` was never counted.
    pub fn count_of(&self, k: &K) -> (r: Option<usize>)
        requires
            self.wf(),
        ensures
            match r {
                Some(c) => c > 0 && c == self.view().count(k@),
                None => self.view().count(k@) == 0,
            },
    {
        match self.find(k) {
            Some(i) => {
                proof {
                    self.lemma_count_at(i as int);
                }
                Some(self.entries[i].1)
            },
            None => {
                proof {
                    self.lemma_count_absent(k@);
                }
                None
            },
        }
    }

    /// What a table is: its entries, with unique keys and positive counts,
    /// and the multiset of keys they stand for.
    pub proof fn lemma_shape(&self)
        requires
            self.wf(),
        ensures
            keys_unique(self.entry_seq()),
            forall|i: int| 0 <= i < self.entry_seq().len() ==> #[trigger] self.entry_seq()[i].1 > 0,
            forall|i: int| 0 <= i < self.entry_seq().len() ==> #[trigger] self.entry_seq()[i].1 <= usize::MAX,
            self.view() == entries_multiset(self.entry_seq()),
    {
        assert forall|i: int| 0 <= i < self.entry_seq().len() implies #[trigger] self.entry_seq()[i].1
            > 0 by {
            assert(self.entries@[i].1 > 0);
        }
    }

    /// Number of distinct keys.
    pub fn len(&self) -> (r: usize)
        ensures
            r == self.entry_seq().len(),
    {
        self.entries.len()
    }

    /// A copy of the entries, in table order.
    pub fn entry_list(&self) -> (r: Vec<(K, usize)>)
        ensures
            pairs_view(r@) == self.entry_seq(),
    {
        let mut r: Vec<(K, usize)> = Vec::new();
        let mut i: usize = 0;
        while i < self.entries.len()
            invariant
                i <= self.entries@.len(),
                pairs_view(r@) =~= self.entry_seq().take(i as int),
            decreases self.entries@.len() - i,
        {
            let k = self.entries[i].0.copy_key();
            let ghost before = r@;
            r.push((k, self.entries[i].1));
            proof {
                assert(r@ =~= before.push((k, self.entries@[i as int].1)));
                assert(pairs_view(before).len() == i);
                assert(pairs_view(r@) =~= pairs_view(before).push(self.entry_seq()[i as int]));
            }
            i = i + 1;
            assert(pairs_view(r@) =~= self.entry_seq().take(i as int));
        }
        assert(self.entry_seq().take(i as int) =~= self.entry_seq());
        r
    }

    /// Adds every count of `other` into this table.
    pub fn merge_from(&mut self, other: &Self)
        requires
            old(self).wf(),
            other.wf(),
            counts_fit(old(self).view(), other.view()),
        ensures
            final(self).wf(),
            final(self).view() =~= old(self).view().add(other.view()),
    {
        let ghost s0 = self.view();
        let ghost os = other.entry_seq();
        let mut i: usize = 0;
        while i < other.entries.len()
            invariant
                i <= other.entries@.len(),
                other.wf(),
                os == other.entry_seq(),
                self.wf(),
                self.view() =~= s0.add(entries_multiset(os.take(i as int))),
                forall|k: K::V| #[trigger] s0.count(k) + other.view().count(k) <= usize::MAX,
            decreases other.entries@.len() - i,
        {
            let ghost k = other.entries@[i as int].0@;
            let c = other.entries[i].1;
            proof {
                other.lemma_count_at(i as int);
                assert(os[i as int] == (k, c as nat));
                lemma_entries_count(os.take(i as int), k);
                assert(os.take(i as int + 1).drop_last() =~= os.take(i as int));
                assert(s0.count(k) + other.view().count(k) <= usize::MAX);
            }
            self.add(&other.entries[i].0, c);
            i = i + 1;
        }
        assert(os.take(i as int) =~= os);
    }
}


impl<K: CountKey> CountTable<K> {
    proof fn lemma_count_bounded(&self, k: K::V)
        requires
            self.wf(),
        ensures
            self.view().count(k) <= usize::MAX,
    {
        if exists|i: int| 0 <= i < self.entries@.len() && self.entries@[i].0@ == k {
            let i = choose|i: int| 0 <= i < self.entries@.len() && self.entries@[i].0@ == k;
            self.lemma_count_at(i);
        } else {
            self.lemma_count_absent(k);
        }
    }

    /// Whether every key's counts in the two tables sum to at most `usize::MAX`.
    pub fn fits_with(&self, other: &Self) -> (r: bool)
        requires
            self.wf(),
            other.wf(),
        ensures
            r == counts_fit(self.view(), other.view()),
    {
        let mut i: usize = 0;
        while i < other.entries.len()
            invariant
                self.wf(),
                other.wf(),
                i <= other.entries@.len(),
                forall|j: int|
                    0 <= j < i ==> self.view().count(#[trigger] other.entries@[j].0@) + other.view().count(
                        other.entries@[j].0@,
                    ) <= usize::MAX,
            decreases other.entries@.len() - i,
        {
            proof {
                other.lemma_count_at(i as int);
            }
            let c = other.entries[i].1;
            match self.count_of(&other.entries[i].0) {
                Some(mine) => {
                    if mine > usize::MAX - c {
                        return false;
                    }
                },
                None => {},
            }
            i = i + 1;
        }
        assert forall|k: K::V| #[trigger] self.view().count(k) + other.view().count(k) <= usize::MAX by {
            if exists|j: int| 0 <= j < other.entries@.len() && other.entries@[j].0@ == k {
                let j = choose|j: int| 0 <= j < other.entries@.len() && other.entries@[j].0@ == k;
                assert(self.view().count(other.entries@[j].0@) + other.view().count(other.entries@[j].0@)
                    <= usize::MAX);
            } else {
                other.lemma_count_absent(k);
                self.lemma_count_bounded(k);
            }
        }
        true
    }

    /// The keys, in table order.
    pub fn keys(&self) -> (r: Vec<K>)
        requires
            self.wf(),
        ensures
            forall|k: K::V| keys_view(r@).contains(k) <==> self.view().count(k) > 0,
            keys_view(r@).no_duplicates(),
    {
        let mut r: Vec<K> = Vec::new();
        let mut i: usize = 0;
        while i < self.entries.len()
            invariant
                self.wf(),
                i <= self.entries@.len(),
                r@.len() == i,
                forall|j: int| 0 <= j < i ==> #[trigger] r@[j]@ == self.entries@[j].0@,
            decreases self.entries@.len() - i,
        {
            r.push(self.entries[i].0.copy_key());
            i = i + 1;
        }
        assert forall|k: K::V| keys_view(r@).contains(k) <==> self.view().count(k) > 0 by {
            if keys_view(r@).contains(k) {
                let j = choose|j: int| 0 <= j < keys_view(r@).len() && keys_view(r@)[j] == k;
                assert(r@[j]@ == self.entries@[j].0@);
                self.lemma_count_at(j);
            } else {
                assert forall|j: int| 0 <= j < self.entries@.len() implies self.entries@[j].0@ != k by {
                    assert(keys_view(r@)[j] == r@[j]@);
                }
                self.lemma_count_absent(k);
            }
        }
        assert forall|a: int, b: int|
            0 <= a < keys_view(r@).len() && 0 <= b < keys_view(r@).len() && a != b implies keys_view(
            r@,
        )[a] != keys_view(r@)[b] by {
            assert(keys_view(r@)[a] == self.entry_seq()[a].0);
            assert(keys_view(r@)[b] == self.entry_seq()[b].0);
        }
        r
    }
}

impl CountTable<String> {
    /// The count of `word`, or `None` where it was never counted.
    pub fn get(&self, word: &str) -> (r: Option<usize>)
        requires
            self.wf(),
        ensures
            match r {
                Some(c) => c > 0 && c == self.view().count(word@),
                None => self.view().count(word@) == 0,
            },
    {
        self.count_of(&String::from_str(word))
    }
}

impl CountTable<WordPair> {
    /// Whether some pair with `center` first was counted.
    pub fn has_center(&self, center: &str) -> (r: bool)
        requires
            self.wf(),
        ensures
            r == exists|x: Seq<char>| #[trigger] self.view().count((center@, x)) > 0,
    {
        let c = String::from_str(center);
        let mut i: usize = 0;
        while i < self.entries.len()
            invariant
                self.wf(),
                c@ == center@,
                i <= self.entries@.len(),
                forall|j: int| 0 <= j < i ==> (#[trigger] self.entries@[j]).0.first@ != center@,
            decreases self.entries@.len() - i,
        {
            if self.entries[i].0.first.eq(&c) {
                proof {
                    self.lemma_count_at(i as int);
                    let x = self.entries@[i as int].0.second@;
                    assert(self.view().count((center@, x)) > 0);
                }
                return true;
            }
            i = i + 1;
        }
        assert forall|x: Seq<char>| #[trigger] self.view().count((center@, x)) == 0 by {
            assert forall|j: int| 0 <= j < self.entries@.len() implies self.entries@[j].0@ != (
            center@,
            x,
            ) by {
                assert(self.entries@[j].0.first@ != center@);
            }
            self.lemma_count_absent((center@, x));
        }
        false
    }

    /// The count of the pair (`center`, `other`), or `None` where it was never counted.
    pub fn pair_count(&self, center: &str, other: &str) -> (r: Option<usize>)
        requires
            self.wf(),
        ensures
            match r {
                Some(c) => c > 0 && c == self.view().count((center@, other@)),
                None => self.view().count((center@, other@)) == 0,
            },
    {
        self.count_of(&WordPair { first: String::from_str(center), second: String::from_str(other) })
    }
}

/// The views of a list of keys.
pub open spec fn keys_view<K: View>(v: Seq<K>) -> Seq<K::V> {
    v.map_values(|k: K| k@)
}

/// Counts every key of `keys`: the table holds each key as often as it occurs.
pub fn count_all<K: CountKey>(keys: &Vec<K>) -> (r: CountTable<K>)
    ensures
        r.wf(),
        r.view() =~= keys_view(keys@).to_multiset(),
{
    broadcast use vstd::seq_lib::group_to_multiset_ensures;

    let mut r: CountTable<K> = CountTable::new();
    let mut i: usize = 0;
    while i < keys.len()
        invariant
            i <= keys@.len(),
            r.wf(),
            r.view() =~= keys_view(keys@).take(i as int).to_multiset(),
        decreases keys@.len() - i,
    {
        let ghost pre = keys_view(keys@).take(i as int);
        let ghost x = keys@[i as int]@;
        proof {
            pre.to_multiset_ensures();
            assert(pre.to_multiset().len() == i);
            assert(r.view().count(x) <= pre.to_multiset().len());
            assert(keys_view(keys@).take(i as int + 1) =~= pre.push(x));
            assert(pre.push(x).to_multiset() =~= pre.to_multiset().insert(x));
        }
        r.increment(&keys[i]);
        i = i + 1;
    }
    assert(keys_view(keys@).take(i as int) =~= keys_view(keys@));
    r
}

} // verus!
