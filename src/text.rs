//! Tokenization, sentence starts and the capitalisation test for named entities.
use vstd::prelude::*;

verus! {

/// What `char::is_alphanumeric` answers (Unicode alphabetic or numeric).
pub uninterp spec fn alphanumeric(c: char) -> bool;

/// What `char::is_uppercase` answers (Unicode `Uppercase` property).
pub uninterp spec fn uppercase(c: char) -> bool;

/// What `char::is_lowercase` answers (Unicode `Lowercase` property).
pub uninterp spec fn lowercase(c: char) -> bool;

/// What `str::to_lowercase` returns (Unicode lowercase mapping of each char).
pub uninterp spec fn lower_of(s: Seq<char>) -> Seq<char>;

/// Relies on `char::is_alphanumeric`, which depends on the char alone.
#[verifier::external_body]
fn is_alphanumeric(c: char) -> (r: bool)
    ensures
        r == alphanumeric(c),
{
    c.is_alphanumeric()
}

/// Relies on `char::is_uppercase`, which depends on the char alone.
#[verifier::external_body]
fn is_uppercase(c: char) -> (r: bool)
    ensures
        r == uppercase(c),
{
    c.is_uppercase()
}

/// Relies on `char::is_lowercase`, which depends on the char alone.
#[verifier::external_body]
fn is_lowercase(c: char) -> (r: bool)
    ensures
        r == lowercase(c),
{
    c.is_lowercase()
}

/// Relies on `str::to_lowercase`, whose result depends on the text alone.
#[verifier::external_body]
pub(crate) fn to_lowercase(s: &str) -> (r: String)
    ensures
        r@ == lower_of(s@),
{
    s.to_lowercase()
}

/// Relies on `String::push`, which appends one char.
#[verifier::external_body]
pub(crate) fn push_char(s: &mut String, c: char)
    ensures
        final(s)@ == old(s)@.push(c),
{
    s.push(c)
}

/// The chars of `s`, in order.
pub fn chars_of(s: &str) -> (r: Vec<char>)
    ensures
        r@ == s@,
{
    let mut r: Vec<char> = Vec::new();
    for c in it: s.chars()
        invariant
            r@ == it.seq().take(it.index()),
            it.seq() == s@,
    {
        r.push(c);
    }
    r
}

/// The views of a list of strings.
pub open spec fn strings_view(v: Seq<String>) -> Seq<Seq<char>> {
    v.map_values(|t: String| t@)
}

/// A char that belongs to a token: alphanumeric, or the apostrophe.
pub open spec fn is_token_char(c: char) -> bool {
    alphanumeric(c) || c == '\''
}

/// Scanning `s` from the left: the finished tokens, and the run still open at its end.
pub open spec fn scan_tokens(s: Seq<char>) -> (Seq<Seq<char>>, Seq<char>)
    decreases s.len(),
{
    if s.len() == 0 {
        (Seq::empty(), Seq::empty())
    } else {
        let (done, cur) = scan_tokens(s.drop_last());
        let c = s.last();
        if is_token_char(c) {
            (done, cur.push(c))
        } else if cur.len() > 0 {
            (done.push(cur), Seq::empty())
        } else {
            (done, cur)
        }
    }
}

/// The tokens of `s`: its maximal non-empty runs of token chars, in order.
pub open spec fn tokens_of(s: Seq<char>) -> Seq<Seq<char>> {
    let (done, cur) = scan_tokens(s);
    if cur.len() > 0 {
        done.push(cur)
    } else {
        done
    }
}

/// Splits `text` into tokens: maximal runs of alphanumeric chars and
/// apostrophes; every other char separates tokens and is dropped.
pub fn tokenize(text: &str) -> (r: Vec<String>)
    ensures
        strings_view(r@) == tokens_of(text@),
{
    let chars = chars_of(text);
    let mut out: Vec<String> = Vec::new();
    let mut cur = String::new();
    let mut i: usize = 0;
    while i < chars.len()
        invariant
            i <= chars@.len(),
            chars@ == text@,
            (strings_view(out@), cur@) == scan_tokens(text@.take(i as int)),
        decreases chars@.len() - i,
    {
        let c = chars[i];
        let ghost before = strings_view(out@);
        proof {
            assert(text@.take(i as int + 1).drop_last() =~= text@.take(i as int));
        }
        if is_alphanumeric(c) || c == '\'' {
            push_char(&mut cur, c);
        } else if !cur.as_str().is_empty() {
            out.push(cur.clone());
            cur = String::new();
            proof {
                assert(strings_view(out@) =~= before.push(scan_tokens(text@.take(i as int)).1));
            }
        }
        i = i + 1;
    }
    proof {
        assert(text@.take(i as int) =~= text@);
    }
    if !cur.as_str().is_empty() {
        let ghost before = strings_view(out@);
        out.push(cur);
        proof {
            assert(strings_view(out@) =~= before.push(scan_tokens(text@).1));
        }
    }
    out
}

/// An owned copy of `s`.
pub(crate) fn owned(s: &str) -> (r: String)
    ensures
        r@ == s@,
{
    String::from_str(s)
}

/// Words that the entity heuristic never counts, compared in lowercase.
pub open spec fn determiners() -> Seq<Seq<char>> {
    seq![
        "the"@, "a"@, "an"@, "der"@, "die"@, "das"@, "ein"@, "eine"@, "le"@, "la"@, "les"@,
        "un"@, "una"@, "el"@, "los"@, "las"@, "il"@, "lo"@, "gli"@, "i"@,
    ]
}

fn determiner_list() -> (r: Vec<String>)
    ensures
        strings_view(r@) == determiners(),
{
    let r = vec![
        owned("the"), owned("a"), owned("an"), owned("der"), owned("die"), owned("das"),
        owned("ein"), owned("eine"), owned("le"), owned("la"), owned("les"), owned("un"),
        owned("una"), owned("el"), owned("los"), owned("las"), owned("il"), owned("lo"),
        owned("gli"), owned("i"),
    ];
    assert(strings_view(r@) =~= determiners());
    r
}

/// Whether `list` holds a string equal to `s`.
pub fn contains_string(list: &Vec<String>, s: &String) -> (r: bool)
    ensures
        r == strings_view(list@).contains(s@),
{
    let mut i: usize = 0;
    while i < list.len()
        invariant
            i <= list@.len(),
            forall|j: int| 0 <= j < i ==> list@[j]@ != s@,
        decreases list@.len() - i,
    {
        if list[i].eq(s) {
            assert(strings_view(list@)[i as int] == s@);
            return true;
        }
        i = i + 1;
    }
    assert forall|j: int| 0 <= j < strings_view(list@).len() implies strings_view(list@)[j] != s@ by {
        assert(list@[j]@ != s@);
    }
    false
}

/// The capitalisation heuristic: the first char is uppercase, some char is
/// lowercase (so acronyms are left out), and the lowercase form is not a
/// determiner.
pub open spec fn is_entity(t: Seq<char>) -> bool {
    &&& t.len() > 0
    &&& uppercase(t[0])
    &&& exists|i: int| 0 <= i < t.len() && #[trigger] lowercase(t[i])
    &&& !determiners().contains(lower_of(t))
}

/// The tokens that the heuristic counts, in order, with their surface form.
pub open spec fn entity_tokens(toks: Seq<Seq<char>>) -> Seq<Seq<char>>
    decreases toks.len(),
{
    if toks.len() == 0 {
        Seq::empty()
    } else if is_entity(toks.last()) {
        entity_tokens(toks.drop_last()).push(toks.last())
    } else {
        entity_tokens(toks.drop_last())
    }
}

fn is_entity_token(tok: &String, dets: &Vec<String>) -> (r: bool)
    requires
        strings_view(dets@) == determiners(),
    ensures
        r == is_entity(tok@),
{
    let cs = chars_of(tok.as_str());
    if cs.len() == 0 || !is_uppercase(cs[0]) {
        return false;
    }
    let mut any_lower = false;
    let mut i: usize = 0;
    while i < cs.len()
        invariant
            i <= cs@.len(),
            cs@ == tok@,
            any_lower == exists|j: int| 0 <= j < i && #[trigger] lowercase(cs@[j]),
        decreases cs@.len() - i,
    {
        if is_lowercase(cs[i]) {
            any_lower = true;
        }
        i = i + 1;
    }
    if !any_lower {
        return false;
    }
    let lower = to_lowercase(tok.as_str());
    !contains_string(dets, &lower)
}

/// The original tokens that the entity heuristic selects, in order.
/// Sentence starts are accepted and do not affect the choice.
pub fn named_entity_tokens(tokens: &Vec<String>, _sentence_starts: &Vec<usize>) -> (r: Vec<String>)
    ensures
        strings_view(r@) == entity_tokens(strings_view(tokens@)),
{
    let dets = determiner_list();
    let mut out: Vec<String> = Vec::new();
    let mut i: usize = 0;
    while i < tokens.len()
        invariant
            i <= tokens@.len(),
            strings_view(dets@) == determiners(),
            strings_view(out@) == entity_tokens(strings_view(tokens@).take(i as int)),
        decreases tokens@.len() - i,
    {
        let ghost pre = strings_view(tokens@).take(i as int);
        let ghost before = strings_view(out@);
        proof {
            assert(strings_view(tokens@).take(i as int + 1).drop_last() =~= pre);
        }
        if is_entity_token(&tokens[i], &dets) {
            out.push(tokens[i].clone());
            assert(strings_view(out@) =~= before.push(tokens@[i as int]@));
        }
        i = i + 1;
    }
    assert(strings_view(tokens@).take(i as int) =~= strings_view(tokens@));
    out
}

/// Byte length of the UTF-8 encoding of `c`.
pub open spec fn utf8_width(c: char) -> nat {
    if (c as u32) < 0x80 {
        1
    } else if (c as u32) < 0x800 {
        2
    } else if (c as u32) < 0x10000 {
        3
    } else {
        4
    }
}

/// Byte length of the UTF-8 encoding of `s`.
pub open spec fn utf8_len(s: Seq<char>) -> nat
    decreases s.len(),
{
    if s.len() == 0 {
        0
    } else {
        utf8_len(s.drop_last()) + utf8_width(s.last())
    }
}

pub open spec fn ends_sentence(c: char) -> bool {
    c == '.' || c == '!' || c == '?'
}

/// Byte offsets at which sentences start: 0, then the offset just after each
/// `.`, `!` or `?`, in order.
pub open spec fn sentence_starts(s: Seq<char>) -> Seq<usize>
    decreases s.len(),
{
    if s.len() == 0 {
        seq![0usize]
    } else if ends_sentence(s.last()) {
        sentence_starts(s.drop_last()).push(utf8_len(s) as usize)
    } else {
        sentence_starts(s.drop_last())
    }
}

proof fn lemma_utf8_len_bound(s: Seq<char>)
    ensures
        utf8_len(s) <= 4 * s.len(),
    decreases s.len(),
{
    if s.len() > 0 {
        lemma_utf8_len_bound(s.drop_last());
    }
}

/// Records the byte offsets at which sentences start.
pub fn split_sentences(text: &str) -> (r: Vec<usize>)
    requires
        4 * text@.len() <= usize::MAX,
    ensures
        r@ == sentence_starts(text@),
{
    let cs = chars_of(text);
    let mut starts: Vec<usize> = vec![0usize];
    let mut idx: usize = 0;
    let mut i: usize = 0;
    while i < cs.len()
        invariant
            i <= cs@.len(),
            cs@ == text@,
            4 * text@.len() <= usize::MAX,
            idx == utf8_len(text@.take(i as int)),
            starts@ == sentence_starts(text@.take(i as int)),
        decreases cs@.len() - i,
    {
        let c = cs[i];
        proof {
            assert(text@.take(i as int + 1).drop_last() =~= text@.take(i as int));
            lemma_utf8_len_bound(text@.take(i as int + 1));
        }
        let w: usize = if (c as u32) < 0x80 {
            1
        } else if (c as u32) < 0x800 {
            2
        } else if (c as u32) < 0x10000 {
            3
        } else {
            4
        };
        idx = idx + w;
        if c == '.' || c == '!' || c == '?' {
            starts.push(idx);
        }
        i = i + 1;
    }
    assert(text@.take(i as int) =~= text@);
    starts
}

} // verus!
