use csv::WriterBuilder;
use text_analysis::{
    analyze_text_with, csv_safe_cell, AnalysisOptions, ExportFormat, StemLang, StemMode,
};

fn opts(fmt: ExportFormat) -> AnalysisOptions {
    AnalysisOptions {
        ngram: 2,
        context: 5,
        export_format: fmt,
        entities_only: false,
        combine: false,
        stem_mode: StemMode::Off,
        stem_require_detected: false,
    }
}

#[test]
fn lib_tokenize_and_basic_counts() {
    let mut o = opts(ExportFormat::Json);
    o.stem_mode = StemMode::Off;
    let text = "The quick brown fox jumps over the lazy dog. The fox was very quick!";
    let stop: Vec<String> = Vec::new();
    let r = analyze_text_with(text, &stop, &o);

    assert!(r.ngrams.get("the quick").is_some());
    assert!(r.ngrams.get("quick brown").is_some());

    assert!(r.wordfreq.get("the").unwrap() >= 2);
    assert!(r.wordfreq.get("quick").unwrap() >= 2);

    assert!(r.context_map.has_center("fox"));
    assert!(r.direct_neighbors.has_center("fox"));

    assert!(!r.pmi.is_empty());
}

#[test]
fn lib_stopwords_filtering() {
    let mut o = opts(ExportFormat::Json);
    o.stem_mode = StemMode::Off;

    let text = "Cats and dogs and cats and dogs.";
    let mut stop: Vec<String> = Vec::new();
    stop.push("and".to_string());

    let r = analyze_text_with(text, &stop, &o);

    assert!(r.wordfreq.get("and").is_none());
    assert!(r.ngrams.keys().iter().all(|ng| !ng.contains("and")));
}

#[test]
fn lib_stemming_auto_and_force() {
    let text = "This is an English sentence where the running runner runs and cars are common words. running runner runs cars car cars running";
    let stop: Vec<String> = Vec::new();

    let mut o = opts(ExportFormat::Json);
    o.stem_mode = StemMode::Auto;
    let r_auto = analyze_text_with(text, &stop, &o);
    assert!(r_auto.wordfreq.get("run").is_some());
    assert!(r_auto.wordfreq.get("car").is_some());
    assert!(r_auto.wordfreq.get("running").is_none());
    assert!(r_auto.wordfreq.get("cars").is_none());

    let mut o2 = opts(ExportFormat::Json);
    o2.stem_mode = StemMode::Force(StemLang::En);
    let r_force = analyze_text_with(text, &stop, &o2);
    assert!(r_force.wordfreq.get("run").is_some());
    assert!(r_force.wordfreq.get("car").is_some());
}

#[test]
fn lib_ngrams_window_and_neighbors() {
    let mut o = opts(ExportFormat::Json);
    o.ngram = 3;
    o.context = 2;
    let text = "alpha beta gamma delta epsilon";
    let stop: Vec<String> = Vec::new();

    let r = analyze_text_with(text, &stop, &o);
    assert!(r.ngrams.get("alpha beta gamma").is_some());
    assert!(r.ngrams.get("beta gamma delta").is_some());

    assert!(r.direct_neighbors.has_center("gamma"));
    assert!(r.direct_neighbors.pair_count("gamma", "beta").is_some());
    assert!(r.direct_neighbors.pair_count("gamma", "delta").is_some());
}

#[test]
fn lib_ner_heuristic() {
    let o = opts(ExportFormat::Json);
    let text = "Berlin is in Germany. NASA launched a rocket. The dog sleeps.";
    let stop: Vec<String> = Vec::new();
    let r = analyze_text_with(text, &stop, &o);

    assert!(r.named_entities.get("Berlin").is_some());
    assert!(r.named_entities.get("Germany").is_some());
    assert!(r.named_entities.get("NASA").is_none());
    assert!(r.named_entities.get("The").is_none());
}

#[test]
fn lib_pmi_sanity() {
    let mut o = opts(ExportFormat::Json);
    o.context = 1;
    let text = "alice bob alice bob alice bob";
    let stop: Vec<String> = Vec::new();
    let r = analyze_text_with(text, &stop, &o);

    let has_pair = r.pmi.iter().any(|p| {
        (p.word1 == "alice" && p.word2 == "bob") || (p.word1 == "bob" && p.word2 == "alice")
    });
    assert!(has_pair);
}

#[test]
fn csv_writer_sanitizes_and_quotes_correctly() {
    let mut buf = Vec::new();
    {
        let mut wtr = WriterBuilder::new().from_writer(&mut buf);

        wtr.write_record(["token", "note"]).unwrap();

        let dangerous = r#"=HYPERLINK("http://x")"#.to_string();
        wtr.write_record([csv_safe_cell(dangerous), "ok".to_string()])
            .unwrap();

        let nl = "=BAD\nNEXT".to_string();
        wtr.write_record([csv_safe_cell(nl), "1".to_string()])
            .unwrap();

        wtr.flush().unwrap();
    }

    let out = String::from_utf8(buf).unwrap();

    assert!(
        out.contains("'=HYPERLINK"),
        "CSV must prefix '=' at start of cell"
    );
    assert!(
        out.contains(r#"'=HYPERLINK(""http://x"")"#),
        "inner quotes should be escaped (doubled)"
    );
    assert!(
        out.contains("'=BAD\nNEXT"),
        "newline preserved in quoted field"
    );
}

#[test]
fn tsv_writer_sanitizes_first_cell_and_uses_tab_delimiter() {
    let mut buf = Vec::new();
    {
        let mut wtr = WriterBuilder::new().delimiter(b'\t').from_writer(&mut buf);
        wtr.write_record(["token", "n"]).unwrap();
        wtr.write_record([csv_safe_cell("=X".into()), "1".into()])
            .unwrap();
        wtr.flush().unwrap();
    }

    let out = String::from_utf8(buf).unwrap();
    let mut lines = out.lines();
    let _ = lines.next();
    let row = lines.next().unwrap_or("");

    assert!(
        row.starts_with("'=X\t1"),
        "TSV row must start with \"'=X\\t1\", got: {:?}",
        row
    );
}

#[test]
fn no_double_prefix_when_cell_already_safe() {
    let already_safe = "'@SAFE".to_string();
    let out = csv_safe_cell(already_safe.clone());
    assert_eq!(out, already_safe, "must not add a second quote");

    let normal = "normal".to_string();
    let out2 = csv_safe_cell(normal.clone());
    assert_eq!(out2, normal, "normal cells should remain unchanged");
}
