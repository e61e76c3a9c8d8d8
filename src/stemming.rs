//! Stemming languages, their selection (off, detected, forced) and the stemmer.
use rust_stemmers::Algorithm as A;
use crate::text::owned;
use vstd::prelude::*;

verus! {

/// A language that `whatlang` detects; opaque here.
#[verifier::external_type_specification]
#[verifier::external_body]
pub struct ExLang(whatlang::Lang);

/// A Snowball stemmer of `rust_stemmers`; opaque here.
#[verifier::external_type_specification]
#[verifier::external_body]
pub struct ExStemmer(rust_stemmers::Stemmer);

/// The algorithms of `rust_stemmers`: a plain enum of unit variants, declared
/// with its variants so that verified code can name them.
#[verifier::external_type_specification]
pub struct ExAlgorithm(rust_stemmers::Algorithm);

/// Languages that a stemmer exists for, and `Unknown` for none.
#[derive(Copy, Clone, Debug, PartialEq, Eq, Structural)]
pub enum StemLang {
    Unknown,
    En,
    De,
    Fr,
    Es,
    It,
    Pt,
    Nl,
    Ru,
    Sv,
    Fi,
    No,
    Ro,
    Hu,
    Da,
    Tr,
}

/// How the stemming language of a text is chosen.
#[derive(Copy, Clone, Debug, PartialEq, Eq, Structural)]
pub enum StemMode {
    /// No stemming.
    Off,
    /// Detect the language of each text and stem where a stemmer exists.
    Auto,
    /// Stem every text in the given language.
    Force(StemLang),
}

/// What `whatlang::detect` finds for a text: the detected language, if any.
pub uninterp spec fn detected_language(text: Seq<char>) -> Option<whatlang::Lang>;

/// What `whatlang::Lang::code` returns: the ISO 639-3 code of the language.
pub uninterp spec fn iso639_3(lang: whatlang::Lang) -> Seq<char>;

/// What a Snowball stemmer of `rust_stemmers` returns for `word` in `lang`.
pub uninterp spec fn snowball_stem(lang: StemLang, word: Seq<char>) -> Seq<char>;

/// Relies on `whatlang::detect` (and `Info::lang`): the result depends on the text alone.
#[verifier::external_body]
fn detect_language(text: &str) -> (r: Option<whatlang::Lang>)
    ensures
        r == detected_language(text@),
{
    whatlang::detect(text).map(|info| info.lang())
}

/// Relies on `whatlang::Lang::code`: the ISO 639-3 code of `lang`.
#[verifier::external_body]
fn language_code(lang: whatlang::Lang) -> (r: &'static str)
    ensures
        r@ == iso639_3(lang),
{
    lang.code()
}

fn is_code(s: &String, lit: &str) -> (r: bool)
    ensures
        r == (s@ == lit@),
{
    s.eq(&owned(lit))
}

/// ASCII lowercase of one char; other chars stay as they are.
pub open spec fn ascii_lower_char(c: char) -> char {
    if 'A' <= c <= 'Z' {
        ((c as u8) + 32u8) as char
    } else {
        c
    }
}

pub open spec fn ascii_lower(s: Seq<char>) -> Seq<char> {
    s.map_values(|c: char| ascii_lower_char(c))
}

/// `s` with ASCII letters lowercased (what `str::to_ascii_lowercase` does).
pub fn to_ascii_lower(s: &str) -> (r: String)
    ensures
        r@ == ascii_lower(s@),
{
    let cs = crate::text::chars_of(s);
    let mut out = String::new();
    let mut i: usize = 0;
    while i < cs.len()
        invariant
            i <= cs@.len(),
            cs@ == s@,
            out@ =~= ascii_lower(s@).take(i as int),
        decreases cs@.len() - i,
    {
        let c = cs[i];
        let l = if 'A' <= c && c <= 'Z' {
            ((c as u8) + 32u8) as char
        } else {
            c
        };
        crate::text::push_char(&mut out, l);
        i = i + 1;
    }
    out
}

/// The stemming language of a short (two-letter) code, compared in lowercase.
pub open spec fn stem_lang_of_code(c: Seq<char>) -> Option<StemLang> {
    if c == "en"@ {
        Some(StemLang::En)
    } else if c == "de"@ {
        Some(StemLang::De)
    } else if c == "fr"@ {
        Some(StemLang::Fr)
    } else if c == "es"@ {
        Some(StemLang::Es)
    } else if c == "it"@ {
        Some(StemLang::It)
    } else if c == "pt"@ {
        Some(StemLang::Pt)
    } else if c == "nl"@ {
        Some(StemLang::Nl)
    } else if c == "ru"@ {
        Some(StemLang::Ru)
    } else if c == "sv"@ {
        Some(StemLang::Sv)
    } else if c == "fi"@ {
        Some(StemLang::Fi)
    } else if c == "no"@ {
        Some(StemLang::No)
    } else if c == "ro"@ {
        Some(StemLang::Ro)
    } else if c == "hu"@ {
        Some(StemLang::Hu)
    } else if c == "da"@ {
        Some(StemLang::Da)
    } else if c == "tr"@ {
        Some(StemLang::Tr)
    } else {
        None
    }
}

/// The stemming language of an ISO 639-3 code (bibliographic variants included).
pub open spec fn stem_lang_of_iso(c: Seq<char>) -> StemLang {
    if c == "eng"@ {
        StemLang::En
    } else if c == "deu"@ {
        StemLang::De
    } else if c == "fra"@ || c == "fre"@ {
        StemLang::Fr
    } else if c == "spa"@ {
        StemLang::Es
    } else if c == "ita"@ {
        StemLang::It
    } else if c == "por"@ {
        StemLang::Pt
    } else if c == "nld"@ || c == "dut"@ {
        StemLang::Nl
    } else if c == "rus"@ {
        StemLang::Ru
    } else if c == "swe"@ {
        StemLang::Sv
    } else if c == "fin"@ {
        StemLang::Fi
    } else if c == "nor"@ || c == "nob"@ || c == "nno"@ {
        StemLang::No
    } else if c == "ron"@ || c == "rum"@ {
        StemLang::Ro
    } else if c == "hun"@ {
        StemLang::Hu
    } else if c == "dan"@ {
        StemLang::Da
    } else if c == "tur"@ {
        StemLang::Tr
    } else {
        StemLang::Unknown
    }
}

/// The language that automatic stemming picks for a text.
pub open spec fn auto_stem_lang(text: Seq<char>) -> StemLang {
    match detected_language(text) {
        Some(l) => stem_lang_of_iso(iso639_3(l)),
        None => StemLang::Unknown,
    }
}

/// The stemming language that `mode` chooses for a text.
pub open spec fn chosen_stem_lang(mode: StemMode, text: Seq<char>) -> StemLang {
    match mode {
        StemMode::Off => StemLang::Unknown,
        StemMode::Force(l) => l,
        StemMode::Auto => auto_stem_lang(text),
    }
}

impl StemLang {
    /// The language of a short code such as `en` or `DE`; `None` for an unknown code.
    pub fn from_code(code: &str) -> (r: Option<StemLang>)
        ensures
            r == stem_lang_of_code(ascii_lower(code@)),
    {
        let c = to_ascii_lower(code);
        if is_code(&c, "en") {
            Some(StemLang::En)
        } else if is_code(&c, "de") {
            Some(StemLang::De)
        } else if is_code(&c, "fr") {
            Some(StemLang::Fr)
        } else if is_code(&c, "es") {
            Some(StemLang::Es)
        } else if is_code(&c, "it") {
            Some(StemLang::It)
        } else if is_code(&c, "pt") {
            Some(StemLang::Pt)
        } else if is_code(&c, "nl") {
            Some(StemLang::Nl)
        } else if is_code(&c, "ru") {
            Some(StemLang::Ru)
        } else if is_code(&c, "sv") {
            Some(StemLang::Sv)
        } else if is_code(&c, "fi") {
            Some(StemLang::Fi)
        } else if is_code(&c, "no") {
            Some(StemLang::No)
        } else if is_code(&c, "ro") {
            Some(StemLang::Ro)
        } else if is_code(&c, "hu") {
            Some(StemLang::Hu)
        } else if is_code(&c, "da") {
            Some(StemLang::Da)
        } else if is_code(&c, "tr") {
            Some(StemLang::Tr)
        } else {
            None
        }
    }

    /// The language of an ISO 639-3 code; `Unknown` where no stemmer exists for it.
    pub fn from_iso639_3(code: &str) -> (r: StemLang)
        ensures
            r == stem_lang_of_iso(code@),
    {
        let c = owned(code);
        if is_code(&c, "eng") {
            StemLang::En
        } else if is_code(&c, "deu") {
            StemLang::De
        } else if is_code(&c, "fra") || is_code(&c, "fre") {
            StemLang::Fr
        } else if is_code(&c, "spa") {
            StemLang::Es
        } else if is_code(&c, "ita") {
            StemLang::It
        } else if is_code(&c, "por") {
            StemLang::Pt
        } else if is_code(&c, "nld") || is_code(&c, "dut") {
            StemLang::Nl
        } else if is_code(&c, "rus") {
            StemLang::Ru
        } else if is_code(&c, "swe") {
            StemLang::Sv
        } else if is_code(&c, "fin") {
            StemLang::Fi
        } else if is_code(&c, "nor") || is_code(&c, "nob") || is_code(&c, "nno") {
            StemLang::No
        } else if is_code(&c, "ron") || is_code(&c, "rum") {
            StemLang::Ro
        } else if is_code(&c, "hun") {
            StemLang::Hu
        } else if is_code(&c, "dan") {
            StemLang::Da
        } else if is_code(&c, "tur") {
            StemLang::Tr
        } else {
            StemLang::Unknown
        }
    }

    /// The stemming language of a detected language; `Unknown` where none exists.
    pub fn from_whatlang(lang: whatlang::Lang) -> (r: StemLang)
        ensures
            r == stem_lang_of_iso(iso639_3(lang)),
    {
        StemLang::from_iso639_3(language_code(lang))
    }
}

/// The language that automatic stemming picks for `text`.
pub fn detect_stem_lang(text: &str) -> (r: StemLang)
    ensures
        r == auto_stem_lang(text@),
{
    match detect_language(text) {
        Some(l) => StemLang::from_whatlang(l),
        None => StemLang::Unknown,
    }
}

/// The detected language of `text` where a stemmer exists for it.
pub fn detect_supported_stem_lang(text: &str) -> (r: Option<StemLang>)
    ensures
        r == (if auto_stem_lang(text@) == StemLang::Unknown {
            None
        } else {
            Some(auto_stem_lang(text@))
        }),
{
    let l = detect_stem_lang(text);
    if l == StemLang::Unknown {
        None
    } else {
        Some(l)
    }
}

/// The stemming language that `mode` chooses for `text`; detection runs only in `Auto`.
pub fn choose_stem_lang(mode: StemMode, text: &str) -> (r: StemLang)
    ensures
        r == chosen_stem_lang(mode, text@),
{
    match mode {
        StemMode::Off => StemLang::Unknown,
        StemMode::Force(l) => l,
        StemMode::Auto => detect_stem_lang(text),
    }
}

/// Relies on `rust_stemmers::Stemmer::create`: a stemmer for `algorithm`.
#[verifier::external_body]
fn create_stemmer(algorithm: A) -> (r: rust_stemmers::Stemmer) {
    rust_stemmers::Stemmer::create(algorithm)
}

/// The Snowball algorithm of each language; `None` for `Unknown`.
pub open spec fn algorithm_for(lang: StemLang) -> Option<A> {
    match lang {
        StemLang::Unknown => None,
        StemLang::En => Some(A::English),
        StemLang::De => Some(A::German),
        StemLang::Fr => Some(A::French),
        StemLang::Es => Some(A::Spanish),
        StemLang::It => Some(A::Italian),
        StemLang::Pt => Some(A::Portuguese),
        StemLang::Nl => Some(A::Dutch),
        StemLang::Ru => Some(A::Russian),
        StemLang::Sv => Some(A::Swedish),
        StemLang::Fi => Some(A::Finnish),
        StemLang::No => Some(A::Norwegian),
        StemLang::Ro => Some(A::Romanian),
        StemLang::Hu => Some(A::Hungarian),
        StemLang::Da => Some(A::Danish),
        StemLang::Tr => Some(A::Turkish),
    }
}

/// The Snowball algorithm of a language; `None` for `Unknown`.
fn algorithm_of(lang: StemLang) -> (r: Option<A>)
    ensures
        r == algorithm_for(lang),
{
    match lang {
        StemLang::Unknown => None,
        StemLang::En => Some(A::English),
        StemLang::De => Some(A::German),
        StemLang::Fr => Some(A::French),
        StemLang::Es => Some(A::Spanish),
        StemLang::It => Some(A::Italian),
        StemLang::Pt => Some(A::Portuguese),
        StemLang::Nl => Some(A::Dutch),
        StemLang::Ru => Some(A::Russian),
        StemLang::Sv => Some(A::Swedish),
        StemLang::Fi => Some(A::Finnish),
        StemLang::No => Some(A::Norwegian),
        StemLang::Ro => Some(A::Romanian),
        StemLang::Hu => Some(A::Hungarian),
        StemLang::Da => Some(A::Danish),
        StemLang::Tr => Some(A::Turkish),
    }
}

/// A stemmer for one language, created once and used for every word of a text.
pub struct WordStemmer {
    lang: StemLang,
    inner: rust_stemmers::Stemmer,
}

/// Relies on `rust_stemmers::Stemmer::stem`, which runs the algorithm that the
/// stemmer was created with; `inner` was created with the algorithm `algorithm_for(lang)`
/// (the only constructor is `WordStemmer::new`).
#[verifier::external_body]
fn snowball(s: &WordStemmer, word: &str) -> (r: String)
    ensures
        r@ == snowball_stem(s.lang, word@),
{
    s.inner.stem(word).into_owned()
}

impl WordStemmer {
    pub closed spec fn language(&self) -> StemLang {
        self.lang
    }

    /// The stemmer for `lang`; `None` for `Unknown`.
    pub fn new(lang: StemLang) -> (r: Option<WordStemmer>)
        ensures
            r is Some <==> lang != StemLang::Unknown,
            r matches Some(s) ==> s.language() == lang,
    {
        match algorithm_of(lang) {
            Some(algorithm) => Some(WordStemmer { lang, inner: create_stemmer(algorithm) }),
            None => None,
        }
    }

    /// The stem of a lowercase word.
    pub fn stem(&self, word: &str) -> (r: String)
        ensures
            r@ == snowball_stem(self.language(), word@),
    {
        snowball(self, word)
    }
}

} // verus!
