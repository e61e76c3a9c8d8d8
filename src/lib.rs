//! Corpus statistics over tokenized text: word frequencies, n-grams, windowed
//! co-occurrence, direct neighbours, PMI collocation inputs and a
//! capitalisation heuristic for named entities, with order-independent
//! merging of per-document counts and deterministic, injection-safe export
//! tables.
pub mod analysis;
pub mod corpus;
pub mod counts;
pub mod export;
pub mod office;
pub mod order;
pub mod stats;
pub mod stemming;
pub mod text;

pub use analysis::{
    analysis_from_counts, analyze_text_with, merge_counts, normalize_for_stats,
    partial_counts_from_text, pmi_from_global_counts, AnalysisOptions, AnalysisResult,
    ExportFormat, PartialCounts, PmiEntry,
};
pub use corpus::{
    analyze_document, decimal_string, map_document, passes_strict_policy, reduce_documents,
    AnalysisReport, ReduceOutcome,
};
pub use counts::{CoocKey, CountTable, WordPair};
pub use export::{
    csv_safe_cell, encode_delimited, flat_cell_table, pair_cell_table, pmi_cell_rows, pmi_ratio,
    pmi_table, table_rows, CellTable, CountRow,
};
pub use stemming::{detect_supported_stem_lang, StemLang, StemMode, WordStemmer};
pub use text::{named_entity_tokens, split_sentences, tokenize};
pub use office::local_name;
