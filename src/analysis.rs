//! Analysis of one text, the per-document partial counts of the map stage,
//! and their order-independent merge (the reduce stage).
use crate::counts::{counts_fit, count_all, keys_view, pairs_view, CoocKey, CountTable, WordPair};
use crate::stats::{
    context_emits, context_keys, cooc_emits, cooc_keys, ngram_emits, ngram_keys, neighbor_emits,
    neighbor_keys,
};
use crate::stemming::{chosen_stem_lang, choose_stem_lang, snowball_stem, StemLang, StemMode, WordStemmer};
use crate::text::{
    contains_string, entity_tokens, lower_of, named_entity_tokens, split_sentences, strings_view,
    to_lowercase, tokenize, tokens_of,
};
use crate::export::{sort_by_pmi_value, ByPmiValue, PmiView, RowOrder};
use vstd::multiset::Multiset;
use vstd::relations::sorted_by;
use vstd::prelude::*;

verus! {

/// Export format of the tables.
#[derive(Copy, Clone, Debug, PartialEq, Eq, Structural)]
pub enum ExportFormat {
    Txt,
    Csv,
    Tsv,
    Json,
}

/// Parameters of an analysis run.
#[derive(Copy, Clone, Debug)]
pub struct AnalysisOptions {
    /// N-gram size (0 counts no n-grams).
    pub ngram: usize,
    /// Context window (±N) for context pairs and co-occurrence (0 counts none).
    pub context: usize,
    /// Export format of the tables.
    pub export_format: ExportFormat,
    /// Export named entities only.
    pub entities_only: bool,
    /// Aggregate all documents into one corpus instead of one result per document.
    pub combine: bool,
    /// How the stemming language is chosen.
    pub stem_mode: StemMode,
    /// With `Auto` stemming: a document whose language has no stemmer is skipped
    /// (per document) or aborts the run (combined).
    pub stem_require_detected: bool,
}

/// One normalized token: lowercase, then stemmed where a language is set.
pub open spec fn normalize_token(t: Seq<char>, lang: StemLang) -> Seq<char> {
    if lang == StemLang::Unknown {
        lower_of(t)
    } else {
        snowball_stem(lang, lower_of(t))
    }
}

/// The normalized tokens: each token lowercased, dropped if a stopword,
/// stemmed otherwise; the order of the surviving tokens is kept.
pub open spec fn normalized(toks: Seq<Seq<char>>, stop: Seq<Seq<char>>, lang: StemLang) -> Seq<Seq<char>>
    decreases toks.len(),
{
    if toks.len() == 0 {
        Seq::empty()
    } else {
        let rest = normalized(toks.drop_last(), stop, lang);
        if stop.contains(lower_of(toks.last())) {
            rest
        } else {
            rest.push(normalize_token(toks.last(), lang))
        }
    }
}

/// The tokens that survive stopword removal, before stemming.
pub open spec fn kept_tokens(toks: Seq<Seq<char>>, stop: Seq<Seq<char>>) -> Seq<Seq<char>>
    decreases toks.len(),
{
    if toks.len() == 0 {
        Seq::empty()
    } else if stop.contains(lower_of(toks.last())) {
        kept_tokens(toks.drop_last(), stop)
    } else {
        kept_tokens(toks.drop_last(), stop).push(toks.last())
    }
}

/// Stemming never changes how many tokens there are: stopword removal is the
/// only filter.
pub proof fn lemma_normalized_length(toks: Seq<Seq<char>>, stop: Seq<Seq<char>>, lang: StemLang)
    ensures
        normalized(toks, stop, lang).len() == kept_tokens(toks, stop).len(),
    decreases toks.len(),
{
    if toks.len() > 0 {
        lemma_normalized_length(toks.drop_last(), stop, lang);
    }
}

/// The token sequence that every statistic of `text` is computed on.
pub open spec fn stats_tokens(text: Seq<char>, stop: Seq<Seq<char>>, mode: StemMode) -> Seq<Seq<char>> {
    normalized(tokens_of(text), stop, chosen_stem_lang(mode, text))
}

/// Lowercases, drops stopwords and stems `tokens`, with one stemmer for all of them.
pub fn normalize_for_stats(tokens: &Vec<String>, stopwords: &Vec<String>, lang: StemLang) -> (r: Vec<
    String,
>)
    ensures
        strings_view(r@) == normalized(strings_view(tokens@), strings_view(stopwords@), lang),
{
    let ghost t = strings_view(tokens@);
    let ghost stop = strings_view(stopwords@);
    let stemmer = WordStemmer::new(lang);
    let mut out: Vec<String> = Vec::new();
    let mut i: usize = 0;
    while i < tokens.len()
        invariant
            i <= tokens@.len(),
            t == strings_view(tokens@),
            stop == strings_view(stopwords@),
            stemmer is Some <==> lang != StemLang::Unknown,
            stemmer matches Some(s) ==> s.language() == lang,
            strings_view(out@) == normalized(t.take(i as int), stop, lang),
        decreases tokens@.len() - i,
    {
        proof {
            assert(t.take(i as int + 1).drop_last() =~= t.take(i as int));
        }
        let lower = to_lowercase(tokens[i].as_str());
        if !contains_string(stopwords, &lower) {
            let ghost before = strings_view(out@);
            let word = match &stemmer {
                Some(s) => s.stem(lower.as_str()),
                None => lower,
            };
            out.push(word);
            assert(strings_view(out@) =~= before.push(normalize_token(t[i as int], lang)));
        }
        i = i + 1;
    }
    assert(t.take(i as int) =~= t);
    out
}

/// A text is small enough for its counts to fit in `usize`.
pub open spec fn text_fits(text: Seq<char>) -> bool {
    4 * text.len() <= usize::MAX
}

/// Counts of one document (the map stage), or the sum of several (the reduce stage).
pub struct PartialCounts {
    pub n_tokens: usize,
    pub ngrams: CountTable<String>,
    pub wordfreq: CountTable<String>,
    pub context_pairs: CountTable<WordPair>,
    pub neighbor_pairs: CountTable<WordPair>,
    pub cooc_by_dist: CountTable<CoocKey>,
    pub named_entities: CountTable<String>,
}

/// The mathematical content of partial counts: a token total and six multisets.
pub struct CountsModel {
    pub tokens: nat,
    pub ngrams: Multiset<Seq<char>>,
    pub wordfreq: Multiset<Seq<char>>,
    pub context: Multiset<(Seq<char>, Seq<char>)>,
    pub neighbors: Multiset<(Seq<char>, Seq<char>)>,
    pub cooc: Multiset<(Seq<char>, Seq<char>, usize)>,
    pub entities: Multiset<Seq<char>>,
}

/// Pointwise sum of two models.
pub open spec fn model_add(a: CountsModel, b: CountsModel) -> CountsModel {
    CountsModel {
        tokens: a.tokens + b.tokens,
        ngrams: a.ngrams.add(b.ngrams),
        wordfreq: a.wordfreq.add(b.wordfreq),
        context: a.context.add(b.context),
        neighbors: a.neighbors.add(b.neighbors),
        cooc: a.cooc.add(b.cooc),
        entities: a.entities.add(b.entities),
    }
}

/// The model of no documents.
pub open spec fn model_zero() -> CountsModel {
    CountsModel {
        tokens: 0,
        ngrams: Multiset::empty(),
        wordfreq: Multiset::empty(),
        context: Multiset::empty(),
        neighbors: Multiset::empty(),
        cooc: Multiset::empty(),
        entities: Multiset::empty(),
    }
}

/// What one document contributes, given its original and normalized tokens.
pub open spec fn document_model(
    original: Seq<Seq<char>>,
    t: Seq<Seq<char>>,
    ngram: nat,
    window: nat,
) -> CountsModel {
    CountsModel {
        tokens: t.len(),
        ngrams: ngram_emits(t, ngram).to_multiset(),
        wordfreq: t.to_multiset(),
        context: context_emits(t, window).to_multiset(),
        neighbors: neighbor_emits(t).to_multiset(),
        cooc: cooc_emits(t, window).to_multiset(),
        entities: entity_tokens(original).to_multiset(),
    }
}

/// What the text `text` contributes under `opts` and `stop`.
pub open spec fn text_model(text: Seq<char>, stop: Seq<Seq<char>>, opts: AnalysisOptions) -> CountsModel {
    document_model(
        tokens_of(text),
        stats_tokens(text, stop, opts.stem_mode),
        opts.ngram as nat,
        opts.context as nat,
    )
}

/// Whether the sum of two models keeps every count within `usize`.
pub open spec fn model_fits(a: CountsModel, b: CountsModel) -> bool {
    &&& a.tokens + b.tokens <= usize::MAX
    &&& counts_fit(a.ngrams, b.ngrams)
    &&& counts_fit(a.wordfreq, b.wordfreq)
    &&& counts_fit(a.context, b.context)
    &&& counts_fit(a.neighbors, b.neighbors)
    &&& counts_fit(a.cooc, b.cooc)
    &&& counts_fit(a.entities, b.entities)
}

/// Left fold of models with `model_add`, starting from `model_zero`.
pub open spec fn fold_models(s: Seq<CountsModel>) -> CountsModel
    decreases s.len(),
{
    if s.len() == 0 {
        model_zero()
    } else {
        model_add(fold_models(s.drop_last()), s.last())
    }
}

impl PartialCounts {
    pub open spec fn wf(&self) -> bool {
        &&& self.ngrams.wf()
        &&& self.wordfreq.wf()
        &&& self.context_pairs.wf()
        &&& self.neighbor_pairs.wf()
        &&& self.cooc_by_dist.wf()
        &&& self.named_entities.wf()
    }

    pub open spec fn view(&self) -> CountsModel {
        CountsModel {
            tokens: self.n_tokens as nat,
            ngrams: self.ngrams.view(),
            wordfreq: self.wordfreq.view(),
            context: self.context_pairs.view(),
            neighbors: self.neighbor_pairs.view(),
            cooc: self.cooc_by_dist.view(),
            entities: self.named_entities.view(),
        }
    }

    /// No counts.
    pub fn new() -> (r: Self)
        ensures
            r.wf(),
            r.view() == model_zero(),
    {
        PartialCounts {
            n_tokens: 0,
            ngrams: CountTable::new(),
            wordfreq: CountTable::new(),
            context_pairs: CountTable::new(),
            neighbor_pairs: CountTable::new(),
            cooc_by_dist: CountTable::new(),
            named_entities: CountTable::new(),
        }
    }

    /// Whether adding `other` to these counts stays within `usize`.
    pub open spec fn fits_with(&self, other: &Self) -> bool {
        model_fits(self.view(), other.view())
    }

    /// Whether `other` can be merged into these counts.
    pub fn can_merge(&self, other: &Self) -> (r: bool)
        requires
            self.wf(),
            other.wf(),
        ensures
            r == self.fits_with(other),
    {
        self.n_tokens <= usize::MAX - other.n_tokens && self.ngrams.fits_with(&other.ngrams)
            && self.wordfreq.fits_with(&other.wordfreq) && self.context_pairs.fits_with(
            &other.context_pairs,
        ) && self.neighbor_pairs.fits_with(&other.neighbor_pairs) && self.cooc_by_dist.fits_with(
            &other.cooc_by_dist,
        ) && self.named_entities.fits_with(&other.named_entities)
    }
}

/// Counts one text (the map stage): tokenize, normalize, then count every statistic.
pub fn partial_counts_from_text(text: &str, stopwords: &Vec<String>, opts: &AnalysisOptions) -> (r:
    PartialCounts)
    requires
        text_fits(text@),
    ensures
        r.wf(),
        r.view() == text_model(text@, strings_view(stopwords@), *opts),
{
    let lang = choose_stem_lang(opts.stem_mode, text);
    let original = tokenize(text);
    let sentences = split_sentences(text);
    let toks = normalize_for_stats(&original, stopwords, lang);
    let ghost t = strings_view(toks@);
    let ngrams = count_all(&ngram_keys(&toks, opts.ngram));
    let wordfreq = count_all(&toks);
    let context_pairs = count_all(&context_keys(&toks, opts.context));
    let neighbor_pairs = count_all(&neighbor_keys(&toks));
    let cooc_by_dist = count_all(&cooc_keys(&toks, opts.context));
    let named_entities = count_all(&named_entity_tokens(&original, &sentences));
    proof {
        assert(keys_view(toks@) =~= t);
    }
    PartialCounts {
        n_tokens: toks.len(),
        ngrams,
        wordfreq,
        context_pairs,
        neighbor_pairs,
        cooc_by_dist,
        named_entities,
    }
}

/// Adds `other` into `into` (the reduce stage).
pub fn merge_counts(into: &mut PartialCounts, other: &PartialCounts)
    requires
        old(into).wf(),
        other.wf(),
        old(into).fits_with(other),
    ensures
        final(into).wf(),
        final(into).view() == model_add(old(into).view(), other.view()),
{
    into.n_tokens = into.n_tokens + other.n_tokens;
    into.ngrams.merge_from(&other.ngrams);
    into.wordfreq.merge_from(&other.wordfreq);
    into.context_pairs.merge_from(&other.context_pairs);
    into.neighbor_pairs.merge_from(&other.neighbor_pairs);
    into.cooc_by_dist.merge_from(&other.cooc_by_dist);
    into.named_entities.merge_from(&other.named_entities);
}

/// Inputs of the PMI of a pair of words at a distance: the pair's count, each
/// word's frequency and the token total. The PMI itself is
/// `ln((count * n_tokens) / (freq1 * freq2))`.
pub struct PmiEntry {
    pub word1: String,
    pub word2: String,
    pub distance: usize,
    pub count: usize,
    pub freq1: usize,
    pub freq2: usize,
    pub n_tokens: usize,
}

impl View for PmiEntry {
    type V = (Seq<char>, Seq<char>, usize, usize, usize, usize, usize);

    open spec fn view(&self) -> (Seq<char>, Seq<char>, usize, usize, usize, usize, usize) {
        (self.word1@, self.word2@, self.distance, self.count, self.freq1, self.freq2, self.n_tokens)
    }
}

/// A word's frequency for PMI: its count, or 1 where it was never counted.
pub open spec fn pmi_freq(wordfreq: Multiset<Seq<char>>, w: Seq<char>) -> usize {
    if wordfreq.count(w) == 0 {
        1
    } else {
        wordfreq.count(w) as usize
    }
}

/// The PMI row of one co-occurrence entry.
pub open spec fn pmi_row(
    e: ((Seq<char>, Seq<char>, usize), nat),
    wordfreq: Multiset<Seq<char>>,
    n: usize,
) -> (Seq<char>, Seq<char>, usize, usize, usize, usize, usize) {
    (e.0.0, e.0.1, e.0.2, e.1 as usize, pmi_freq(wordfreq, e.0.0), pmi_freq(wordfreq, e.0.1), n)
}

/// One PMI row per co-occurrence entry; empty where there are no tokens.
pub open spec fn pmi_rows(
    cooc: Seq<((Seq<char>, Seq<char>, usize), nat)>,
    wordfreq: Multiset<Seq<char>>,
    n: usize,
) -> Seq<(Seq<char>, Seq<char>, usize, usize, usize, usize, usize)> {
    if n == 0 {
        Seq::empty()
    } else {
        cooc.map_values(|e: ((Seq<char>, Seq<char>, usize), nat)| pmi_row(e, wordfreq, n))
    }
}

/// A permutation has the same elements, and no duplicates where the first has none.
proof fn lemma_permutation_keeps<A>(x: Seq<A>, y: Seq<A>)
    requires
        x.to_multiset() == y.to_multiset(),
    ensures
        forall|v: A| #![trigger x.contains(v)] #![trigger y.contains(v)] x.contains(v) <==> y.contains(v),
        x.no_duplicates() ==> y.no_duplicates(),
{
    broadcast use vstd::seq_lib::group_to_multiset_ensures;

    assert forall|v: A| #[trigger] x.contains(v) <==> y.contains(v) by {
        assert(x.contains(v) <==> x.to_multiset().count(v) > 0);
        assert(y.contains(v) <==> y.to_multiset().count(v) > 0);
    }
    if x.no_duplicates() {
        x.lemma_multiset_has_no_duplicates();
        y.lemma_multiset_has_no_duplicates_conv();
    }
}

/// A PMI row of the counts `m`: a counted co-occurrence key with its count,
/// the PMI frequencies of its words and the token total.
pub open spec fn is_pmi_row_of(m: CountsModel, x: (Seq<char>, Seq<char>, usize, usize, usize, usize, usize)) -> bool {
    &&& m.tokens > 0
    &&& m.cooc.count((x.0, x.1, x.2)) > 0
    &&& x.3 == m.cooc.count((x.0, x.1, x.2))
    &&& x.4 == pmi_freq(m.wordfreq, x.0)
    &&& x.5 == pmi_freq(m.wordfreq, x.1)
    &&& x.6 == m.tokens
}

proof fn lemma_pmi_rows(cooc: CountTable<CoocKey>, wordfreq: Multiset<Seq<char>>, n: usize)
    requires
        cooc.wf(),
    ensures
        forall|x| #[trigger] pmi_rows(cooc.entry_seq(), wordfreq, n).contains(x) <==> {
            &&& n > 0
            &&& cooc.view().count((x.0, x.1, x.2)) > 0
            &&& x.3 == cooc.view().count((x.0, x.1, x.2))
            &&& x.4 == pmi_freq(wordfreq, x.0)
            &&& x.5 == pmi_freq(wordfreq, x.1)
            &&& x.6 == n
        },
        pmi_rows(cooc.entry_seq(), wordfreq, n).no_duplicates(),
{
    let s = cooc.entry_seq();
    let rows = pmi_rows(s, wordfreq, n);
    cooc.lemma_shape();
    assert forall|x| #[trigger] rows.contains(x) implies {
        &&& n > 0
        &&& cooc.view().count((x.0, x.1, x.2)) > 0
        &&& x.3 == cooc.view().count((x.0, x.1, x.2))
        &&& x.4 == pmi_freq(wordfreq, x.0)
        &&& x.5 == pmi_freq(wordfreq, x.1)
        &&& x.6 == n
    } by {
        let j = choose|j: int| 0 <= j < rows.len() && rows[j] == x;
        crate::counts::lemma_entry_count(s, j);
        assert(s[j].1 > 0);
        assert(s[j].1 <= usize::MAX);
    }
    assert forall|x: (Seq<char>, Seq<char>, usize, usize, usize, usize, usize)| ({
        &&& n > 0
        &&& cooc.view().count((x.0, x.1, x.2)) > 0
        &&& x.3 == cooc.view().count((x.0, x.1, x.2))
        &&& x.4 == pmi_freq(wordfreq, x.0)
        &&& x.5 == pmi_freq(wordfreq, x.1)
        &&& x.6 == n
    }) implies #[trigger] rows.contains(x) by {
        let k = (x.0, x.1, x.2);
        crate::counts::lemma_entries_count(s, k);
        let j = choose|j: int| 0 <= j < s.len() && s[j].0 == k;
        crate::counts::lemma_entry_count(s, j);
        assert(s[j].1 <= usize::MAX);
        assert(rows[j] == x);
    }
    assert forall|a: int, b: int| 0 <= a < rows.len() && 0 <= b < rows.len() && a != b implies rows[a]
        != rows[b] by {
        if a < b {
            assert(s[a].0 != s[b].0);
        } else {
            assert(s[b].0 != s[a].0);
        }
    }
}

fn freq_or_one(wordfreq: &CountTable<String>, w: &String) -> (r: usize)
    requires
        wordfreq.wf(),
    ensures
        r == pmi_freq(wordfreq.view(), w@),
{
    match wordfreq.count_of(w) {
        Some(c) => c,
        None => 1,
    }
}

/// PMI rows from co-occurrence counts, unigram counts and the token total,
/// ordered by PMI descending, then count descending (then words, distance,
/// frequencies): one row per co-occurrence key, none without tokens.
pub fn pmi_from_global_counts(cooc: &CountTable<CoocKey>, n_tokens: usize, wordfreq: &CountTable<
    String,
>) -> (r: Vec<PmiEntry>)
    requires
        cooc.wf(),
        wordfreq.wf(),
    ensures
        keys_view(r@).to_multiset() == pmi_rows(cooc.entry_seq(), wordfreq.view(), n_tokens).to_multiset(),
        sorted_by(keys_view(r@), |a: PmiView, b: PmiView| ByPmiValue::row_le(a, b)),
        forall|x| #[trigger] keys_view(r@).contains(x) <==> {
            &&& n_tokens > 0
            &&& cooc.view().count((x.0, x.1, x.2)) > 0
            &&& x.3 == cooc.view().count((x.0, x.1, x.2))
            &&& x.4 == pmi_freq(wordfreq.view(), x.0)
            &&& x.5 == pmi_freq(wordfreq.view(), x.1)
            &&& x.6 == n_tokens
        },
        keys_view(r@).no_duplicates(),
{
    let rows = pmi_rows_in_table_order(cooc, n_tokens, wordfreq);
    let r = sort_by_pmi_value(&rows);
    proof {
        lemma_pmi_rows(*cooc, wordfreq.view(), n_tokens);
        lemma_permutation_keeps(keys_view(rows@), keys_view(r@));
    }
    r
}

/// PMI rows in the order of the co-occurrence table.
fn pmi_rows_in_table_order(cooc: &CountTable<CoocKey>, n_tokens: usize, wordfreq: &CountTable<
    String,
>) -> (r: Vec<PmiEntry>)
    requires
        cooc.wf(),
        wordfreq.wf(),
    ensures
        keys_view(r@) == pmi_rows(cooc.entry_seq(), wordfreq.view(), n_tokens),
{
    let mut out: Vec<PmiEntry> = Vec::new();
    if n_tokens == 0 {
        assert(keys_view(out@) =~= pmi_rows(cooc.entry_seq(), wordfreq.view(), n_tokens));
        return out;
    }
    let entries = cooc.entry_list();
    proof {
        cooc.lemma_shape();
    }
    let ghost rows = pmi_rows(cooc.entry_seq(), wordfreq.view(), n_tokens);
    let mut i: usize = 0;
    while i < entries.len()
        invariant
            n_tokens > 0,
            wordfreq.wf(),
            i <= entries@.len(),
            pairs_view(entries@) == cooc.entry_seq(),
            rows == pmi_rows(cooc.entry_seq(), wordfreq.view(), n_tokens),
            keys_view(out@) =~= rows.take(i as int),
        decreases entries@.len() - i,
    {
        let k = &entries[i].0;
        let f1 = freq_or_one(wordfreq, &k.word1);
        let f2 = freq_or_one(wordfreq, &k.word2);
        let ghost before = keys_view(out@);
        out.push(
            PmiEntry {
                word1: k.word1.clone(),
                word2: k.word2.clone(),
                distance: k.distance,
                count: entries[i].1,
                freq1: f1,
                freq2: f2,
                n_tokens,
            },
        );
        assert(pairs_view(entries@)[i as int] == (entries@[i as int].0@, entries@[i as int].1 as nat));
        assert(keys_view(out@) =~= before.push(rows[i as int]));
        i = i + 1;
    }
    out
}

/// The complete statistics of one text or of a whole corpus.
pub struct AnalysisResult {
    pub ngrams: CountTable<String>,
    pub wordfreq: CountTable<String>,
    pub context_map: CountTable<WordPair>,
    pub direct_neighbors: CountTable<WordPair>,
    pub named_entities: CountTable<String>,
    pub pmi: Vec<PmiEntry>,
    pub n_tokens: usize,
}

impl AnalysisResult {
    pub open spec fn wf(&self) -> bool {
        &&& self.ngrams.wf()
        &&& self.wordfreq.wf()
        &&& self.context_map.wf()
        &&& self.direct_neighbors.wf()
        &&& self.named_entities.wf()
    }

    /// The counts of this result, with the co-occurrence counts left out.
    pub open spec fn matches(&self, m: CountsModel) -> bool {
        &&& self.n_tokens == m.tokens
        &&& self.ngrams.view() == m.ngrams
        &&& self.wordfreq.view() == m.wordfreq
        &&& self.context_map.view() == m.context
        &&& self.direct_neighbors.view() == m.neighbors
        &&& self.named_entities.view() == m.entities
    }
}

/// The full result of reduced counts: the counts themselves, and the PMI rows
/// recomputed from the merged co-occurrence and unigram counts.
pub fn analysis_from_counts(total: PartialCounts) -> (r: AnalysisResult)
    requires
        total.wf(),
    ensures
        r.wf(),
        r.matches(total.view()),
        forall|x| #[trigger] keys_view(r.pmi@).contains(x) <==> is_pmi_row_of(total.view(), x),
        keys_view(r.pmi@).no_duplicates(),
        sorted_by(keys_view(r.pmi@), |a: PmiView, b: PmiView| ByPmiValue::row_le(a, b)),
{
    let pmi = pmi_from_global_counts(&total.cooc_by_dist, total.n_tokens, &total.wordfreq);
    AnalysisResult {
        ngrams: total.ngrams,
        wordfreq: total.wordfreq,
        context_map: total.context_pairs,
        direct_neighbors: total.neighbor_pairs,
        named_entities: total.named_entities,
        pmi,
        n_tokens: total.n_tokens,
    }
}

/// Analyzes one text: tokenize, normalize (lowercase, stopwords, stemming),
/// then count n-grams, word frequencies, context pairs, direct neighbours,
/// co-occurrences for PMI, and named entities on the original tokens.
pub fn analyze_text_with(text: &str, stopwords: &Vec<String>, opts: &AnalysisOptions) -> (r: AnalysisResult)
    requires
        text_fits(text@),
    ensures
        r.wf(),
        r.matches(text_model(text@, strings_view(stopwords@), *opts)),
        forall|x| #[trigger] keys_view(r.pmi@).contains(x) <==> is_pmi_row_of(
            text_model(text@, strings_view(stopwords@), *opts),
            x,
        ),
        keys_view(r.pmi@).no_duplicates(),
        sorted_by(keys_view(r.pmi@), |a: PmiView, b: PmiView| ByPmiValue::row_le(a, b)),
{
    let counts = partial_counts_from_text(text, stopwords, opts);
    analysis_from_counts(counts)
}

/// Merging counts is associative.
pub proof fn lemma_merge_associative(a: CountsModel, b: CountsModel, c: CountsModel)
    ensures
        model_add(model_add(a, b), c) == model_add(a, model_add(b, c)),
{
    assert(model_add(model_add(a, b), c).ngrams =~= model_add(a, model_add(b, c)).ngrams);
    assert(model_add(model_add(a, b), c).wordfreq =~= model_add(a, model_add(b, c)).wordfreq);
    assert(model_add(model_add(a, b), c).context =~= model_add(a, model_add(b, c)).context);
    assert(model_add(model_add(a, b), c).neighbors =~= model_add(a, model_add(b, c)).neighbors);
    assert(model_add(model_add(a, b), c).cooc =~= model_add(a, model_add(b, c)).cooc);
    assert(model_add(model_add(a, b), c).entities =~= model_add(a, model_add(b, c)).entities);
}

/// Merging counts is commutative.
pub proof fn lemma_merge_commutative(a: CountsModel, b: CountsModel)
    ensures
        model_add(a, b) == model_add(b, a),
{
    assert(model_add(a, b).ngrams =~= model_add(b, a).ngrams);
    assert(model_add(a, b).wordfreq =~= model_add(b, a).wordfreq);
    assert(model_add(a, b).context =~= model_add(b, a).context);
    assert(model_add(a, b).neighbors =~= model_add(b, a).neighbors);
    assert(model_add(a, b).cooc =~= model_add(b, a).cooc);
    assert(model_add(a, b).entities =~= model_add(b, a).entities);
}

/// Merging with no counts changes nothing.
pub proof fn lemma_merge_zero(a: CountsModel)
    ensures
        model_add(model_zero(), a) == a,
        model_add(a, model_zero()) == a,
{
    assert(model_add(model_zero(), a).ngrams =~= a.ngrams);
    assert(model_add(model_zero(), a).wordfreq =~= a.wordfreq);
    assert(model_add(model_zero(), a).context =~= a.context);
    assert(model_add(model_zero(), a).neighbors =~= a.neighbors);
    assert(model_add(model_zero(), a).cooc =~= a.cooc);
    assert(model_add(model_zero(), a).entities =~= a.entities);
    lemma_merge_commutative(a, model_zero());
}

/// Folding two runs of documents one after the other is merging their folds.
pub proof fn lemma_fold_append(s1: Seq<CountsModel>, s2: Seq<CountsModel>)
    ensures
        fold_models(s1 + s2) == model_add(fold_models(s1), fold_models(s2)),
    decreases s2.len(),
{
    if s2.len() == 0 {
        assert(s1 + s2 =~= s1);
        lemma_merge_zero(fold_models(s1));
    } else {
        assert((s1 + s2).drop_last() =~= s1 + s2.drop_last());
        lemma_fold_append(s1, s2.drop_last());
        lemma_merge_associative(fold_models(s1), fold_models(s2.drop_last()), s2.last());
    }
}

/// For any partition of the documents into groups, folding each group and
/// merging the group totals gives the same aggregate as folding all
/// documents in one pass.
pub proof fn lemma_fold_partition(groups: Seq<Seq<CountsModel>>)
    ensures
        fold_models(groups.flatten()) == fold_models(groups.map_values(|g: Seq<CountsModel>| fold_models(g))),
    decreases groups.len(),
{
    let totals = groups.map_values(|g: Seq<CountsModel>| fold_models(g));
    if groups.len() == 0 {
        assert(groups.flatten() =~= Seq::<CountsModel>::empty());
        assert(totals =~= Seq::<CountsModel>::empty());
    } else {
        let init = groups.drop_last();
        lemma_fold_partition(init);
        assert(groups =~= init.push(groups.last()));
        assert(groups.flatten() =~= init.flatten() + groups.last()) by {
            init.lemma_flatten_push(groups.last());
        }
        lemma_fold_append(init.flatten(), groups.last());
        assert(totals.drop_last() =~= init.map_values(|g: Seq<CountsModel>| fold_models(g)));
    }
}

/// Folding is independent of the order of the documents: any permutation of
/// the documents folds to the same aggregate.
pub proof fn lemma_fold_permutation(s: Seq<CountsModel>, t: Seq<CountsModel>)
    requires
        s.to_multiset() == t.to_multiset(),
    ensures
        fold_models(s) == fold_models(t),
    decreases t.len(),
{
    broadcast use vstd::seq_lib::group_to_multiset_ensures;

    s.to_multiset_ensures();
    t.to_multiset_ensures();
    if t.len() == 0 {
        assert(s.len() == 0);
        assert(s =~= t);
    } else {
        let x = t.last();
        assert(t.to_multiset().count(x) > 0);
        assert(s.contains(x));
        let i = choose|i: int| 0 <= i < s.len() && s[i] == x;
        let rest = s.remove(i);
        assert(t.drop_last().push(x) =~= t);
        assert(rest.to_multiset() =~= s.to_multiset().remove(x));
        assert(t.drop_last().to_multiset() =~= t.to_multiset().remove(x));
        lemma_fold_permutation(rest, t.drop_last());
        let pre = s.take(i);
        let post = s.skip(i + 1);
        assert(s =~= pre + seq![x] + post);
        assert(rest =~= pre + post);
        lemma_fold_append(pre + seq![x], post);
        lemma_fold_append(pre, seq![x]);
        lemma_fold_append(pre, post);
        assert(seq![x].drop_last() =~= Seq::<CountsModel>::empty());
        assert(seq![x].last() == x);
        assert(fold_models(seq![x]) == model_add(fold_models(seq![x].drop_last()), x));
        lemma_merge_zero(x);
        lemma_merge_associative(fold_models(pre), x, fold_models(post));
        lemma_merge_commutative(x, fold_models(post));
        lemma_merge_associative(fold_models(pre), fold_models(post), x);
    }
}

/// Sum of the counts of a list of entries.
pub open spec fn entry_total<V>(s: Seq<(V, nat)>) -> nat
    decreases s.len(),
{
    if s.len() == 0 {
        0
    } else {
        entry_total(s.drop_last()) + s.last().1
    }
}

/// The number of counted keys is the sum of the stored counts.
pub proof fn lemma_table_total<V>(s: Seq<(V, nat)>)
    ensures
        crate::counts::entries_multiset(s).len() == entry_total(s),
    decreases s.len(),
{
    if s.len() > 0 {
        lemma_table_total(s.drop_last());
        crate::counts::lemma_copies(s.last().0, s.last().1);
    }
}

/// The word-frequency counts of a text sum to the number of its normalized tokens.
pub proof fn lemma_frequency_conservation(text: Seq<char>, stop: Seq<Seq<char>>, opts: AnalysisOptions)
    ensures
        text_model(text, stop, opts).wordfreq.len() == text_model(text, stop, opts).tokens,
{
    stats_tokens(text, stop, opts.stem_mode).to_multiset_ensures();
}

/// Merging keeps word frequencies summing to the token total.
pub proof fn lemma_frequency_conservation_merge(a: CountsModel, b: CountsModel)
    requires
        a.wordfreq.len() == a.tokens,
        b.wordfreq.len() == b.tokens,
    ensures
        model_add(a, b).wordfreq.len() == model_add(a, b).tokens,
{
}

/// In the analysis of a text, the stored word-frequency counts sum to the
/// number of normalized tokens.
pub proof fn lemma_text_frequency_total(text: Seq<char>, stop: Seq<Seq<char>>, opts: AnalysisOptions, r: AnalysisResult)
    requires
        r.wf(),
        r.matches(text_model(text, stop, opts)),
    ensures
        entry_total(r.wordfreq.entry_seq()) == r.n_tokens,
        r.n_tokens == stats_tokens(text, stop, opts.stem_mode).len(),
{
    lemma_frequency_conservation(text, stop, opts);
    lemma_result_frequency_total(r, text_model(text, stop, opts));
}

/// With a window of 0 a text has no context pairs, no co-occurrences and
/// therefore no PMI rows.
pub proof fn lemma_text_window_zero(text: Seq<char>, stop: Seq<Seq<char>>, opts: AnalysisOptions)
    requires
        opts.context == 0,
    ensures
        text_model(text, stop, opts).context =~= Multiset::empty(),
        text_model(text, stop, opts).cooc =~= Multiset::empty(),
        forall|x| !#[trigger] is_pmi_row_of(text_model(text, stop, opts), x),
{
    let t = stats_tokens(text, stop, opts.stem_mode);
    crate::stats::lemma_window_zero(t);
    context_emits(t, 0).to_multiset_ensures();
    cooc_emits(t, 0).to_multiset_ensures();
    vstd::multiset::lemma_multiset_empty_len(context_emits(t, 0).to_multiset());
    vstd::multiset::lemma_multiset_empty_len(cooc_emits(t, 0).to_multiset());
}

/// In a table, the stored word-frequency counts sum to the token total.
pub proof fn lemma_result_frequency_total(r: AnalysisResult, m: CountsModel)
    requires
        r.wf(),
        r.matches(m),
        m.wordfreq.len() == m.tokens,
    ensures
        entry_total(r.wordfreq.entry_seq()) == r.n_tokens,
{
    r.wordfreq.lemma_shape();
    lemma_table_total(r.wordfreq.entry_seq());
}

} // verus!
