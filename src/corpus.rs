//! Corpus runs: the per-document map step with the strict language policy,
//! and the reduce step that folds partial counts or aborts.
use crate::analysis::{
    analyze_text_with, fold_models, is_pmi_row_of, merge_counts, model_fits, text_fits,
    text_model, AnalysisOptions, AnalysisResult, CountsModel, PartialCounts, partial_counts_from_text,
};
use crate::counts::keys_view;
use crate::stemming::{auto_stem_lang, detect_stem_lang, StemLang, StemMode};
use crate::text::strings_view;
use vstd::prelude::*;
use vstd::string::{StrSliceExecFns, StringExecFns};

verus! {

/// Summary of a completed run.
pub struct AnalysisReport {
    /// Human-readable summary of the results.
    pub summary: String,
    /// (document, reason) for each document that could not be read or was skipped.
    pub failed_files: Vec<(String, String)>,
}

/// A digit char.
pub open spec fn digit_char(d: nat) -> char {
    ((48 + d) as u8) as char
}

/// Decimal digits of `n`, most significant first.
pub open spec fn decimal(n: nat) -> Seq<char>
    decreases n,
{
    if n < 10 {
        seq![digit_char(n)]
    } else {
        decimal(n / 10).push(digit_char(n % 10))
    }
}

/// `n` written in decimal.
pub fn decimal_string(n: usize) -> (r: String)
    ensures
        r@ == decimal(n as nat),
    decreases n,
{
    let mut s = if n < 10 {
        String::new()
    } else {
        decimal_string(n / 10)
    };
    let d = (n % 10) as u8;
    crate::text::push_char(&mut s, (48u8 + d) as char);
    proof {
        if n < 10 {
            assert(s@ =~= seq![digit_char(n as nat)]);
        }
    }
    s
}

/// Whether the strict language policy is in force: automatic stemming that
/// must find a language.
pub open spec fn strict_policy(opts: AnalysisOptions) -> bool {
    opts.stem_mode == StemMode::Auto && opts.stem_require_detected
}

/// Whether the strict policy turns `text` away: automatic stemming that must
/// find a language, and no language with a stemmer was detected.
pub open spec fn strict_rejects(opts: AnalysisOptions, text: Seq<char>) -> bool {
    &&& opts.stem_mode == StemMode::Auto
    &&& opts.stem_require_detected
    &&& auto_stem_lang(text) == StemLang::Unknown
}

/// Whether `text` passes the strict language policy of `opts`.
pub fn passes_strict_policy(text: &str, opts: &AnalysisOptions) -> (r: bool)
    ensures
        r == !strict_rejects(*opts, text@),
{
    if opts.stem_mode == StemMode::Auto && opts.stem_require_detected {
        detect_stem_lang(text) != StemLang::Unknown
    } else {
        true
    }
}

/// Message recorded for a document that the strict policy turns away.
pub fn strict_failure_message() -> (r: String)
    ensures
        r@ == "Language detection failed or unsupported for stemming (strict)"@,
{
    String::from_str("Language detection failed or unsupported for stemming (strict)")
}

/// Message recorded for a document too large to count in `usize`.
pub fn size_failure_message() -> (r: String)
    ensures
        r@ == "Text too large to analyze"@,
{
    String::from_str("Text too large to analyze")
}

/// Whether a text is small enough to count.
pub fn fits_for_analysis(text: &str) -> (r: bool)
    ensures
        r == text_fits(text@),
{
    text.unicode_len() <= usize::MAX / 4
}

/// A failed document: its identifier and the reason.
pub open spec fn failure_of(r: (String, String)) -> (Seq<char>, Seq<char>) {
    (r.0@, r.1@)
}

/// The map step for one document in combined mode: a read error or the strict
/// policy records a failure; otherwise the document's partial counts.
pub fn map_document(id: &String, text: &Result<String, String>, stopwords: &Vec<String>, opts: &AnalysisOptions) -> (r:
    Result<PartialCounts, (String, String)>)
    ensures
        match text {
            Err(e) => r matches Err(f) && failure_of(f) == (id@, e@),
            Ok(t) => if !text_fits(t@) {
                r matches Err(f) && failure_of(f) == (id@, "Text too large to analyze"@)
            } else if strict_rejects(*opts, t@) {
                r matches Err(f) && failure_of(f) == (
                    id@,
                    "Language detection failed or unsupported for stemming (strict)"@,
                )
            } else {
                r matches Ok(pc) && pc.wf() && pc.view() == text_model(t@, strings_view(stopwords@), *opts)
            },
        },
{
    match text {
        Err(e) => Err((id.clone(), e.clone())),
        Ok(t) => {
            if !fits_for_analysis(t.as_str()) {
                Err((id.clone(), size_failure_message()))
            } else if !passes_strict_policy(t.as_str(), opts) {
                Err((id.clone(), strict_failure_message()))
            } else {
                Ok(partial_counts_from_text(t.as_str(), stopwords, opts))
            }
        },
    }
}

/// The analysis step for one document in per-document mode: a read error or
/// the strict policy records a failure; otherwise the document's result.
pub fn analyze_document(id: &String, text: &Result<String, String>, stopwords: &Vec<String>, opts: &AnalysisOptions) -> (r:
    Result<AnalysisResult, (String, String)>)
    ensures
        match text {
            Err(e) => r matches Err(f) && failure_of(f) == (id@, e@),
            Ok(t) => if !text_fits(t@) {
                r matches Err(f) && failure_of(f) == (id@, "Text too large to analyze"@)
            } else if strict_rejects(*opts, t@) {
                r matches Err(f) && failure_of(f) == (
                    id@,
                    "Language detection failed or unsupported for stemming (strict)"@,
                )
            } else {
                r matches Ok(res) && res.wf() && res.matches(text_model(t@, strings_view(stopwords@), *opts))
                    && (forall|x| #[trigger] keys_view(res.pmi@).contains(x) <==> is_pmi_row_of(
                    text_model(t@, strings_view(stopwords@), *opts),
                    x,
                ))
            },
        },
{
    match text {
        Err(e) => Err((id.clone(), e.clone())),
        Ok(t) => {
            if !fits_for_analysis(t.as_str()) {
                Err((id.clone(), size_failure_message()))
            } else if !passes_strict_policy(t.as_str(), opts) {
                Err((id.clone(), strict_failure_message()))
            } else {
                Ok(analyze_text_with(t.as_str(), stopwords, opts))
            }
        },
    }
}

/// The models of the documents that were counted, in order.
pub open spec fn counted_models(s: Seq<Result<PartialCounts, (String, String)>>) -> Seq<CountsModel>
    decreases s.len(),
{
    if s.len() == 0 {
        Seq::empty()
    } else {
        let rest = counted_models(s.drop_last());
        match s.last() {
            Ok(pc) => rest.push(pc.view()),
            Err(_) => rest,
        }
    }
}

/// The failures among the documents, in order.
pub open spec fn failures_of<T>(s: Seq<Result<T, (String, String)>>) -> Seq<(Seq<char>, Seq<char>)>
    decreases s.len(),
{
    if s.len() == 0 {
        Seq::empty()
    } else {
        let rest = failures_of(s.drop_last());
        match s.last() {
            Ok(_) => rest,
            Err(f) => rest.push(failure_of(f)),
        }
    }
}

/// The message of a combined run that the strict policy aborts.
pub open spec fn abort_message(n: nat) -> Seq<char> {
    "Combined run aborted (strict stemming): "@ + decimal(n) + " file(s) without detectable/supported language"@
}

/// What the reduce step of a combined run returns.
pub enum ReduceOutcome {
    /// The folded counts, and the documents that failed.
    Reduced(PartialCounts, Vec<(String, String)>),
    /// The strict policy aborts the run: some document failed.
    Aborted(String),
    /// The merged counts would not fit in `usize`.
    TooLarge,
}

/// The reduce step of a combined run: folds the counted documents in order and
/// collects the failures. Under the strict language policy (automatic stemming
/// that must find a language) any failure aborts the whole run before anything
/// is produced.
pub fn reduce_documents(mapped: &Vec<Result<PartialCounts, (String, String)>>, opts: &AnalysisOptions) -> (r:
    ReduceOutcome)
    requires
        forall|i: int| 0 <= i < mapped@.len() ==> (#[trigger] mapped@[i] matches Ok(pc) ==> pc.wf()),
    ensures
        match r {
            ReduceOutcome::Reduced(total, failed) => {
                &&& total.wf()
                &&& total.view() == fold_models(counted_models(mapped@))
                &&& failed@.map_values(|f: (String, String)| failure_of(f)) == failures_of(mapped@)
                &&& !(strict_policy(*opts) && failures_of(mapped@).len() > 0)
            },
            ReduceOutcome::Aborted(msg) => {
                &&& strict_policy(*opts)
                &&& failures_of(mapped@).len() > 0
                &&& msg@ == abort_message(failures_of(mapped@).len())
            },
            ReduceOutcome::TooLarge => exists|i: int|
                0 <= i < mapped@.len() && (#[trigger] mapped@[i] matches Ok(pc) && !model_fits(
                    fold_models(counted_models(mapped@.take(i))),
                    pc.view(),
                )),
        },
{
    let mut total = PartialCounts::new();
    let mut failed: Vec<(String, String)> = Vec::new();
    let mut i: usize = 0;
    while i < mapped.len()
        invariant
            i <= mapped@.len(),
            forall|j: int| 0 <= j < mapped@.len() ==> (#[trigger] mapped@[j] matches Ok(pc) ==> pc.wf()),
            total.wf(),
            total.view() == fold_models(counted_models(mapped@.take(i as int))),
            failed@.map_values(|f: (String, String)| failure_of(f)) =~= failures_of(mapped@.take(i as int)),
        decreases mapped@.len() - i,
    {
        proof {
            assert(mapped@.take(i as int + 1).drop_last() =~= mapped@.take(i as int));
        }
        match &mapped[i] {
            Ok(pc) => {
                if !total.can_merge(pc) {
                    assert(mapped@[i as int] matches Ok(p) && !model_fits(
                        fold_models(counted_models(mapped@.take(i as int))),
                        p.view(),
                    ));
                    return ReduceOutcome::TooLarge;
                }
                let ghost before = counted_models(mapped@.take(i as int));
                merge_counts(&mut total, pc);
                proof {
                    assert(counted_models(mapped@.take(i as int + 1)) =~= before.push(pc.view()));
                    assert(before.push(pc.view()).drop_last() =~= before);
                }
            },
            Err(f) => {
                let ghost before = failed@;
                failed.push((f.0.clone(), f.1.clone()));
                proof {
                    assert(failed@ =~= before.push((f.0, f.1)));
                    assert(failed@.map_values(|f: (String, String)| failure_of(f)) =~= before.map_values(
                        |f: (String, String)| failure_of(f),
                    ).push(failure_of(*f)));
                }
            },
        }
        i = i + 1;
    }
    proof {
        assert(mapped@.take(i as int) =~= mapped@);
    }
    let strict = opts.stem_mode == StemMode::Auto && opts.stem_require_detected;
    if strict && failed.len() > 0 {
        let mut msg = String::from_str("Combined run aborted (strict stemming): ");
        msg.append(decimal_string(failed.len()).as_str());
        msg.append(" file(s) without detectable/supported language");
        return ReduceOutcome::Aborted(msg);
    }
    ReduceOutcome::Reduced(total, failed)
}

} // verus!
