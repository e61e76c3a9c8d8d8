use text_analysis::export::{delimiter_of, output_file_name, output_files, OutputFile};
use text_analysis::{
    analyze_text_with, csv_safe_cell, encode_delimited, flat_cell_table, pair_cell_table,
    pmi_cell_rows, pmi_ratio, pmi_table, table_rows, AnalysisOptions, ExportFormat, PmiEntry,
    StemMode,
};

fn opts() -> AnalysisOptions {
    AnalysisOptions {
        ngram: 2,
        context: 2,
        export_format: ExportFormat::Csv,
        entities_only: false,
        combine: false,
        stem_mode: StemMode::Off,
        stem_require_detected: false,
    }
}

const SORTED: &str = "z z z z z a a a b b c  |  z z z z z a a a b b c";

#[test]
fn sanitize_is_idempotent() {
    for x in ["=1+2", "+x", "-y", "@z", "'=q", "plain", "", "a=b"] {
        let once = csv_safe_cell(x.to_string());
        let twice = csv_safe_cell(once.clone());
        assert_eq!(once, twice);
    }
    assert_eq!(csv_safe_cell("-5".to_string()), "'-5");
    assert_eq!(csv_safe_cell("a=b".to_string()), "a=b");
    assert_eq!(csv_safe_cell(String::new()), "");
}

#[test]
fn flat_rows_by_count_then_item() {
    let stop: Vec<String> = Vec::new();
    let r = analyze_text_with(SORTED, &stop, &opts());
    let rows: Vec<(String, usize)> = table_rows(&r.wordfreq)
        .into_iter()
        .map(|row| (row.key, row.count))
        .collect();
    assert_eq!(
        rows,
        vec![
            ("z".to_string(), 10),
            ("a".to_string(), 6),
            ("b".to_string(), 4),
            ("c".to_string(), 2)
        ]
    );
    let ties = analyze_text_with("b a c", &stop, &opts());
    let keys: Vec<String> = table_rows(&ties.wordfreq).into_iter().map(|r| r.key).collect();
    assert_eq!(keys, vec!["a", "b", "c"]);
}

#[test]
fn export_is_deterministic_across_runs() {
    let stop: Vec<String> = Vec::new();
    let r1 = analyze_text_with(SORTED, &stop, &opts());
    let r2 = analyze_text_with(SORTED, &stop, &opts());
    let a = encode_delimited(&flat_cell_table(&r1.ngrams), b',').unwrap();
    let b = encode_delimited(&flat_cell_table(&r2.ngrams), b',').unwrap();
    assert_eq!(a, b);
    let c = encode_delimited(&pair_cell_table(&r1.context_map), b'\t').unwrap();
    let d = encode_delimited(&pair_cell_table(&r2.context_map), b'\t').unwrap();
    assert_eq!(c, d);
    let e: Vec<_> = pmi_cell_rows(&r1.pmi).1;
    let f: Vec<_> = pmi_cell_rows(&r2.pmi).1;
    assert_eq!(e, f);
}

#[test]
fn csv_table_bytes() {
    let stop: Vec<String> = Vec::new();
    let r = analyze_text_with("=cmd =cmd, plain", &stop, &opts());
    let bytes = encode_delimited(&flat_cell_table(&r.wordfreq), b',').unwrap();
    let text = String::from_utf8(bytes).unwrap();
    assert_eq!(text, "item,count\ncmd,2\nplain,1\n");

    let mut o = opts();
    o.ngram = 1;
    let cells = flat_cell_table(&analyze_text_with("a", &stop, &o).ngrams);
    assert_eq!(cells.header, vec!["item", "count"]);
    assert_eq!(cells.rows, vec![vec!["a".to_string(), "1".to_string()]]);
}

#[test]
fn csv_encoding_quotes_and_sanitizes_cells() {
    let table = text_analysis::CellTable {
        header: vec!["item".to_string(), "count".to_string()],
        rows: vec![vec![csv_safe_cell("=a,\"b\"".to_string()), "3".to_string()]],
    };
    let csv = String::from_utf8(encode_delimited(&table, b',').unwrap()).unwrap();
    assert_eq!(csv, "item,count\n\"'=a,\"\"b\"\"\",3\n");
    let tsv = String::from_utf8(encode_delimited(&table, b'\t').unwrap()).unwrap();
    assert_eq!(tsv, "item\tcount\n\"'=a,\"\"b\"\"\"\t3\n");
}

#[test]
fn pair_rows_sorted_by_count_then_items() {
    let stop: Vec<String> = Vec::new();
    let mut o = opts();
    o.context = 1;
    let r = analyze_text_with("b a b c", &stop, &o);
    let cells = pair_cell_table(&r.direct_neighbors);
    assert_eq!(cells.header, vec!["item1", "item2", "count"]);
    let rows: Vec<Vec<String>> = cells.rows;
    assert_eq!(
        rows,
        vec![
            vec!["a".to_string(), "b".to_string(), "2".to_string()],
            vec!["b".to_string(), "a".to_string(), "2".to_string()],
            vec!["b".to_string(), "c".to_string(), "1".to_string()],
            vec!["c".to_string(), "b".to_string(), "1".to_string()],
        ]
    );
}

fn entry(w1: &str, w2: &str, d: usize, c: usize, f1: usize, f2: usize, n: usize) -> PmiEntry {
    PmiEntry {
        word1: w1.to_string(),
        word2: w2.to_string(),
        distance: d,
        count: c,
        freq1: f1,
        freq2: f2,
        n_tokens: n,
    }
}

#[test]
fn pmi_rows_by_count_then_pmi_then_words() {
    let rows = vec![
        entry("b", "c", 1, 2, 4, 4, 10),
        entry("a", "z", 1, 2, 1, 2, 10),
        entry("a", "b", 2, 5, 5, 5, 10),
        entry("a", "b", 1, 2, 4, 4, 10),
    ];
    let sorted = pmi_table(&rows);
    let order: Vec<(String, String, usize)> = sorted
        .iter()
        .map(|e| (e.word1.clone(), e.word2.clone(), e.distance))
        .collect();
    assert_eq!(
        order,
        vec![
            ("a".to_string(), "b".to_string(), 2),
            ("a".to_string(), "z".to_string(), 1),
            ("a".to_string(), "b".to_string(), 1),
            ("b".to_string(), "c".to_string(), 1),
        ]
    );
    assert_eq!(pmi_ratio(&rows[1]), (20, 2));
    assert_eq!(pmi_ratio(&entry("a", "b", 1, 3, 0, 5, 7)), (21, 1));
}

#[test]
fn summary_order_for_repeated_pattern() {
    let stop: Vec<String> = Vec::new();
    let text = "alpha beta gamma ".repeat(200);
    let r = analyze_text_with(&text, &stop, &opts());
    let ngrams: Vec<String> = table_rows(&r.ngrams).into_iter().map(|r| r.key).collect();
    assert_eq!(ngrams, vec!["alpha beta", "beta gamma", "gamma alpha"]);
    let words: Vec<String> = table_rows(&r.wordfreq).into_iter().map(|r| r.key).collect();
    assert_eq!(words, vec!["alpha", "beta", "gamma"]);
    let pmi = pmi_table(&r.pmi);
    let ab = pmi.iter().position(|p| p.word1 == "alpha" && p.word2 == "beta").unwrap();
    let bg = pmi.iter().position(|p| p.word1 == "beta" && p.word2 == "gamma").unwrap();
    assert!(ab < bg);
}

#[test]
fn output_plan_and_file_names() {
    let mut o = opts();
    assert_eq!(
        output_files(&o),
        vec![
            OutputFile::NGrams,
            OutputFile::WordFreq,
            OutputFile::Context,
            OutputFile::Neighbors,
            OutputFile::Pmi,
            OutputFile::NamedEntities
        ]
    );
    assert_eq!(
        output_file_name("a.txt_0badc0de", "20240101_120000", OutputFile::WordFreq, o.export_format),
        "a.txt_0badc0de_20240101_120000_wordfreq.csv"
    );
    assert_eq!(delimiter_of(ExportFormat::Csv), b',');
    assert_eq!(delimiter_of(ExportFormat::Tsv), b'\t');
    o.export_format = ExportFormat::Txt;
    assert_eq!(output_files(&o), vec![OutputFile::Summary]);
    assert_eq!(
        output_file_name("combined", "20240101_120000", OutputFile::Summary, o.export_format),
        "combined_20240101_120000_summary.txt"
    );
    o.entities_only = true;
    assert_eq!(output_files(&o), vec![OutputFile::Entities]);
    o.export_format = ExportFormat::Json;
    assert_eq!(output_files(&o), vec![OutputFile::Entities]);
    assert_eq!(
        output_file_name("s", "t", OutputFile::Entities, o.export_format),
        "s_t_entities.json"
    );
}

#[test]
fn encode_fails_only_on_ragged_rows() {
    let ragged = text_analysis::CellTable {
        header: vec!["item".to_string(), "count".to_string()],
        rows: vec![vec!["x".to_string()]],
    };
    assert!(encode_delimited(&ragged, b',').is_err());
    let empty = text_analysis::CellTable { header: vec!["item".to_string()], rows: vec![] };
    assert_eq!(encode_delimited(&empty, b',').unwrap(), b"item\n".to_vec());
}
