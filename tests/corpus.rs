use text_analysis::{
    analysis_from_counts, analyze_document, analyze_text_with, decimal_string,
    detect_supported_stem_lang, map_document, merge_counts, partial_counts_from_text,
    reduce_documents, AnalysisOptions, ExportFormat, PartialCounts, ReduceOutcome, StemLang,
    StemMode,
};

fn opts() -> AnalysisOptions {
    AnalysisOptions {
        ngram: 2,
        context: 5,
        export_format: ExportFormat::Json,
        entities_only: false,
        combine: false,
        stem_mode: StemMode::Off,
        stem_require_detected: false,
    }
}

fn strict_opts(combine: bool) -> AnalysisOptions {
    let mut o = opts();
    o.combine = combine;
    o.stem_mode = StemMode::Auto;
    o.stem_require_detected = true;
    o
}

const GIB: &str = "12345 67890 !!! ??? 00000 ---";
const ENG: &str = "This is clearly English so detection should work and stemming should run.";

#[test]
fn lib_stem_strict_combined_aborts_on_undetected() {
    let o = strict_opts(true);
    let stop: Vec<String> = Vec::new();
    let mapped = vec![
        map_document(&"gib.txt".to_string(), &Ok(GIB.to_string()), &stop, &o),
        map_document(&"eng.txt".to_string(), &Ok(ENG.to_string()), &stop, &o),
    ];
    let res = reduce_documents(&mapped, &o);
    assert!(
        matches!(res, ReduceOutcome::Aborted(_)),
        "Combined strict should abort when a file's language is undetected"
    );
}

#[test]
fn strict_combined_abort_message_counts_failures() {
    let o = strict_opts(true);
    let stop: Vec<String> = Vec::new();
    let mapped = vec![
        map_document(&"gib.txt".to_string(), &Ok(GIB.to_string()), &stop, &o),
        map_document(&"eng.txt".to_string(), &Ok(ENG.to_string()), &stop, &o),
    ];
    match reduce_documents(&mapped, &o) {
        ReduceOutcome::Aborted(msg) => assert_eq!(
            msg,
            "Combined run aborted (strict stemming): 1 file(s) without detectable/supported language"
        ),
        _ => panic!("expected an abort"),
    }
}

#[test]
fn strict_per_document_skips_exactly_one() {
    let o = strict_opts(false);
    let stop: Vec<String> = Vec::new();
    let a = analyze_document(&"gib.txt".to_string(), &Ok(GIB.to_string()), &stop, &o);
    let b = analyze_document(&"eng.txt".to_string(), &Ok(ENG.to_string()), &stop, &o);
    let failed = [&a, &b].iter().filter(|r| r.is_err()).count();
    assert_eq!(failed, 1);
    match a {
        Err((id, msg)) => {
            assert_eq!(id, "gib.txt");
            assert_eq!(msg, "Language detection failed or unsupported for stemming (strict)");
        }
        Ok(_) => panic!("the digits-only document must be skipped"),
    }
    let r = b.ok().expect("the English document is analyzed");
    assert!(r.wordfreq.get("stem").is_some() || r.wordfreq.get("stemming").is_some());
}

#[test]
fn read_error_is_recorded_and_run_continues() {
    let o = opts();
    let stop: Vec<String> = Vec::new();
    let mapped = vec![
        map_document(&"a.txt".to_string(), &Err("Read .txt failed".to_string()), &stop, &o),
        map_document(&"b.txt".to_string(), &Ok("apple banana".to_string()), &stop, &o),
    ];
    match reduce_documents(&mapped, &o) {
        ReduceOutcome::Reduced(total, failed) => {
            assert_eq!(failed, vec![("a.txt".to_string(), "Read .txt failed".to_string())]);
            assert_eq!(total.n_tokens, 2);
            assert_eq!(total.wordfreq.get("apple"), Some(1));
        }
        _ => panic!("a read error must not abort a non-strict run"),
    }
}

#[test]
fn strict_without_auto_stemming_accepts_everything() {
    let mut o = opts();
    o.stem_require_detected = true;
    let stop: Vec<String> = Vec::new();
    let r = map_document(&"gib.txt".to_string(), &Ok(GIB.to_string()), &stop, &o);
    assert!(r.is_ok());
}

#[test]
fn combine_wordfreq_sums_across_documents() {
    let o = opts();
    let stop: Vec<String> = Vec::new();
    let mapped = vec![
        map_document(&"a1.txt".to_string(), &Ok("apple apple banana orange".to_string()), &stop, &o),
        map_document(&"a2.txt".to_string(), &Ok("banana banana apple".to_string()), &stop, &o),
    ];
    match reduce_documents(&mapped, &o) {
        ReduceOutcome::Reduced(total, failed) => {
            assert!(failed.is_empty());
            let r = analysis_from_counts(total);
            assert_eq!(r.wordfreq.get("apple"), Some(3));
            assert_eq!(r.wordfreq.get("banana"), Some(3));
            assert_eq!(r.wordfreq.get("orange"), Some(1));
            assert_eq!(r.n_tokens, 7);
        }
        _ => panic!("expected reduced counts"),
    }
}

fn counts_of(texts: &[&str]) -> Vec<PartialCounts> {
    let o = opts();
    let stop: Vec<String> = Vec::new();
    texts.iter().map(|t| partial_counts_from_text(t, &stop, &o)).collect()
}

#[test]
fn merge_order_and_grouping_do_not_matter() {
    let texts = ["Alpha beta gamma.", "beta Gamma delta alpha", "Delta delta Berlin"];
    let mut one_pass = PartialCounts::new();
    for pc in counts_of(&texts) {
        merge_counts(&mut one_pass, &pc);
    }
    let parts = counts_of(&texts);
    let mut group_a = PartialCounts::new();
    merge_counts(&mut group_a, &parts[2]);
    merge_counts(&mut group_a, &parts[0]);
    let mut grouped = PartialCounts::new();
    merge_counts(&mut grouped, &parts[1]);
    merge_counts(&mut grouped, &group_a);

    assert_eq!(one_pass.n_tokens, grouped.n_tokens);
    for w in ["alpha", "beta", "gamma", "delta", "berlin"] {
        assert_eq!(one_pass.wordfreq.get(w), grouped.wordfreq.get(w));
    }
    for w in ["alpha beta", "beta gamma", "delta delta", "delta berlin"] {
        assert_eq!(one_pass.ngrams.get(w), grouped.ngrams.get(w));
    }
    assert_eq!(one_pass.named_entities.get("Berlin"), grouped.named_entities.get("Berlin"));
    assert_eq!(one_pass.wordfreq.get("delta"), Some(3));
    let a = analysis_from_counts(one_pass);
    let b = analysis_from_counts(grouped);
    assert_eq!(a.pmi.len(), b.pmi.len());
}

#[test]
fn frequency_counts_sum_to_token_total() {
    let stop = vec!["the".to_string()];
    let r = analyze_text_with("The cat saw the other cat and a dog.", &stop, &opts());
    let total: usize = r.wordfreq.keys().iter().map(|w| r.wordfreq.get(w).unwrap()).sum();
    assert_eq!(total, r.n_tokens);
    assert_eq!(r.n_tokens, 7);
}

#[test]
fn ngram_scenario_three_trigrams() {
    let mut o = opts();
    o.ngram = 3;
    let stop: Vec<String> = Vec::new();
    let r = analyze_text_with("alpha beta gamma delta epsilon", &stop, &o);
    assert_eq!(r.ngrams.len(), 3);
    assert_eq!(r.ngrams.get("alpha beta gamma"), Some(1));
    assert_eq!(r.ngrams.get("beta gamma delta"), Some(1));
    assert_eq!(r.ngrams.get("gamma delta epsilon"), Some(1));
}

#[test]
fn ngram_size_zero_or_too_large_gives_none() {
    let stop: Vec<String> = Vec::new();
    let mut o = opts();
    o.ngram = 0;
    assert_eq!(analyze_text_with("a b c", &stop, &o).ngrams.len(), 0);
    o.ngram = 4;
    assert_eq!(analyze_text_with("a b c", &stop, &o).ngrams.len(), 0);
}

#[test]
fn window_zero_gives_no_context_and_no_pmi() {
    let mut o = opts();
    o.context = 0;
    let stop: Vec<String> = Vec::new();
    let r = analyze_text_with("one two three two one", &stop, &o);
    assert_eq!(r.context_map.len(), 0);
    assert!(r.pmi.is_empty());
    assert_eq!(r.direct_neighbors.pair_count("three", "two"), Some(2));
}

#[test]
fn context_counts_exact() {
    let mut o = opts();
    o.context = 1;
    let stop: Vec<String> = Vec::new();
    let r = analyze_text_with("a b a", &stop, &o);
    assert_eq!(r.context_map.pair_count("a", "b"), Some(2));
    assert_eq!(r.context_map.pair_count("b", "a"), Some(2));
    assert_eq!(r.context_map.pair_count("a", "a"), None);
    assert_eq!(r.context_map.len(), 2);
}

#[test]
fn pmi_pairs_are_canonical_with_counts() {
    let mut o = opts();
    o.context = 2;
    let stop: Vec<String> = Vec::new();
    let r = analyze_text_with("zeta alpha zeta alpha", &stop, &o);
    for p in &r.pmi {
        assert!(p.word1 <= p.word2, "{} > {}", p.word1, p.word2);
        assert_eq!(p.n_tokens, 4);
    }
    let d1 = r
        .pmi
        .iter()
        .find(|p| p.word1 == "alpha" && p.word2 == "zeta" && p.distance == 1)
        .expect("pair at distance 1");
    assert_eq!(d1.count, 6);
    assert_eq!(d1.freq1, 2);
    assert_eq!(d1.freq2, 2);
    assert!(!r.pmi.iter().any(|p| p.word1 == "zeta" && p.word2 == "alpha"));
}

#[test]
fn ner_scenario() {
    let stop: Vec<String> = Vec::new();
    let r = analyze_text_with("Berlin is in Germany. NASA launched.", &stop, &opts());
    assert_eq!(r.named_entities.get("Berlin"), Some(1));
    assert_eq!(r.named_entities.get("Germany"), Some(1));
    assert_eq!(r.named_entities.get("NASA"), None);
    assert_eq!(r.named_entities.len(), 2);
    let r2 = analyze_text_with("The Die Le Paris", &stop, &opts());
    assert_eq!(r2.named_entities.len(), 1);
    assert_eq!(r2.named_entities.get("Paris"), Some(1));
}

#[test]
fn tokens_keep_apostrophes_and_unicode() {
    let stop: Vec<String> = Vec::new();
    let r = analyze_text_with("Don't STOP, Ünïcode-text!", &stop, &opts());
    assert_eq!(r.wordfreq.get("don't"), Some(1));
    assert_eq!(r.wordfreq.get("stop"), Some(1));
    assert_eq!(r.wordfreq.get("ünïcode"), Some(1));
    assert_eq!(r.wordfreq.get("text"), Some(1));
    assert_eq!(r.n_tokens, 4);
}

#[test]
fn forced_stemming_and_language_codes() {
    let stop: Vec<String> = Vec::new();
    let mut o = opts();
    o.stem_mode = StemMode::Force(StemLang::En);
    let r = analyze_text_with("running cars", &stop, &o);
    assert_eq!(r.wordfreq.get("run"), Some(1));
    assert_eq!(r.wordfreq.get("car"), Some(1));
    assert_eq!(StemLang::from_code("EN"), Some(StemLang::En));
    assert_eq!(StemLang::from_code("de"), Some(StemLang::De));
    assert_eq!(StemLang::from_code("xx"), None);
    assert_eq!(StemLang::from_iso639_3("nob"), StemLang::No);
    assert_eq!(StemLang::from_iso639_3("xyz"), StemLang::Unknown);
    assert_eq!(StemLang::from_whatlang(whatlang::Lang::Deu), StemLang::De);
    assert_eq!(detect_supported_stem_lang(ENG), Some(StemLang::En));
    assert_eq!(detect_supported_stem_lang(GIB), None);
}

#[test]
fn decimal_strings() {
    assert_eq!(decimal_string(0), "0");
    assert_eq!(decimal_string(7), "7");
    assert_eq!(decimal_string(1234), "1234");
    assert_eq!(decimal_string(usize::MAX), usize::MAX.to_string());
}

#[test]
fn strict_flag_without_auto_stemming_never_aborts() {
    let mut o = opts();
    o.combine = true;
    o.stem_require_detected = true;
    let stop: Vec<String> = Vec::new();
    let mapped = vec![
        map_document(&"a.txt".to_string(), &Err("Read .txt failed".to_string()), &stop, &o),
        map_document(&"b.txt".to_string(), &Ok("apple banana".to_string()), &stop, &o),
    ];
    match reduce_documents(&mapped, &o) {
        ReduceOutcome::Reduced(total, failed) => {
            assert_eq!(failed.len(), 1);
            assert_eq!(total.n_tokens, 2);
        }
        _ => panic!("the strict flag applies to automatic stemming only"),
    }
}

#[test]
fn pmi_rows_ordered_by_value_then_count() {
    let mut o = opts();
    o.context = 2;
    let stop: Vec<String> = Vec::new();
    let pc = partial_counts_from_text("a b a c d a b", &stop, &o);
    let rows = text_analysis::pmi_from_global_counts(&pc.cooc_by_dist, pc.n_tokens, &pc.wordfreq);
    assert!(!rows.is_empty());
    for w in rows.windows(2) {
        let (x, y) = (&w[0], &w[1]);
        let lhs = (x.count * x.n_tokens) as u128 * (y.freq1 * y.freq2) as u128;
        let rhs = (y.count * y.n_tokens) as u128 * (x.freq1 * x.freq2) as u128;
        assert!(lhs > rhs || (lhs == rhs && x.count >= y.count));
    }
    let empty = text_analysis::pmi_from_global_counts(&pc.cooc_by_dist, 0, &pc.wordfreq);
    assert!(empty.is_empty());
}
