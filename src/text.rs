//! Plain text primitives: whitespace, trimming, lowercasing, word and
//! sentence splitting, with the library calls that perform them.
use vstd::prelude::*;

verus! {

/// Whether `c` has the Unicode `White_Space` property.
pub open spec fn is_ws(c: char) -> bool {
    let n = c as u32;
    (0x9 <= n && n <= 0xd) || n == 0x20 || n == 0x85 || n == 0xa0 || n == 0x1680
        || (0x2000 <= n && n <= 0x200a) || n == 0x2028 || n == 0x2029 || n == 0x202f
        || n == 0x205f || n == 0x3000
}

/// Whether `c` is one of the marks that can end a sentence.
pub open spec fn is_mark(c: char) -> bool {
    c == '.' || c == '!' || c == '?'
}

/// What `str::to_lowercase` yields for a text.
pub uninterp spec fn lower_of(s: Seq<char>) -> Seq<char>;

/// The words of `s` from index `i` on, where the word being read started at `start`.
pub open spec fn words_from(s: Seq<char>, start: int, i: int) -> Seq<Seq<char>>
    decreases s.len() - i,
{
    let cur = if start < i { seq![s.subrange(start, i)] } else { Seq::empty() };
    if i >= s.len() {
        cur
    } else if is_ws(s[i]) {
        cur + words_from(s, i + 1, i + 1)
    } else {
        words_from(s, start, i + 1)
    }
}

/// The maximal runs of non-whitespace characters of `s`, in order.
pub open spec fn words_spec(s: Seq<char>) -> Seq<Seq<char>> {
    words_from(s, 0, 0)
}

/// The pieces of `s` from index `i` on, where the piece being read started at
/// `start`. While `skipping`, the whitespace that ends a separator is being
/// passed over.
pub open spec fn pieces_from(s: Seq<char>, start: int, i: int, skipping: bool) -> Seq<Seq<char>>
    decreases s.len() - i, if skipping { 1int } else { 0int },
{
    if skipping {
        if i < s.len() && is_ws(s[i]) {
            pieces_from(s, i + 1, i + 1, true)
        } else {
            pieces_from(s, i, i, false)
        }
    } else if i >= s.len() {
        seq![s.subrange(start, s.len() as int)]
    } else if i + 1 < s.len() && is_mark(s[i]) && is_ws(s[i + 1]) {
        seq![s.subrange(start, i)] + pieces_from(s, i + 2, i + 2, true)
    } else {
        pieces_from(s, start, i + 1, false)
    }
}

/// The sentences of `s`: the pieces between the separators, each separator
/// being a mark followed by a whole run of whitespace, taken from left to
/// right. A separator at either end leaves an empty piece there.
pub open spec fn sentences_spec(s: Seq<char>) -> Seq<Seq<char>> {
    pieces_from(s, 0, 0, false)
}

/// `s` without its leading whitespace.
pub open spec fn trim_start_spec(s: Seq<char>) -> Seq<char>
    decreases s.len(),
{
    if s.len() > 0 && is_ws(s[0]) {
        trim_start_spec(s.drop_first())
    } else {
        s
    }
}

/// `s` without its trailing whitespace.
pub open spec fn trim_end_spec(s: Seq<char>) -> Seq<char>
    decreases s.len(),
{
    if s.len() > 0 && is_ws(s.last()) {
        trim_end_spec(s.drop_last())
    } else {
        s
    }
}

/// `s` without its leading and trailing whitespace.
pub open spec fn trim_spec(s: Seq<char>) -> Seq<char> {
    trim_end_spec(trim_start_spec(s))
}

/// The character views of a sequence of strings.
pub open spec fn views(v: Seq<String>) -> Seq<Seq<char>> {
    v.map_values(|s: String| s@)
}

/// Relies on `str::trim`: removes the leading and trailing characters that
/// have the `White_Space` property, and nothing else.
#[verifier::external_body]
pub(crate) fn trim(s: &str) -> (r: &str)
    ensures
        r@ == trim_spec(s@),
{
    s.trim()
}

/// Relies on `str::to_lowercase`: the result depends on the characters alone.
#[verifier::external_body]
pub(crate) fn lowercase(s: &str) -> (r: String)
    ensures
        r@ == lower_of(s@),
{
    s.to_lowercase()
}

/// Relies on `str::split_whitespace`: the maximal runs of characters
/// without the `White_Space` property, in order.
#[verifier::external_body]
pub(crate) fn split_words(s: &str) -> (r: Vec<String>)
    ensures
        views(r@) == words_spec(s@),
{
    s.split_whitespace().map(|w| w.to_string()).collect()
}

/// Relies on `regex::Regex::new` and `regex::Regex::split` with the pattern
/// `[.!?]\s+`, which is valid: the pieces between the leftmost, greedy,
/// non-overlapping matches, in order, `\s` being the `White_Space` property.
#[verifier::external_body]
pub(crate) fn split_sentences(s: &str) -> (r: Vec<String>)
    ensures
        views(r@) == sentences_spec(s@),
{
    let re = regex::Regex::new(r"[.!?]\s+").unwrap();
    re.split(s).map(|p| p.to_string()).collect()
}

} // verus!
