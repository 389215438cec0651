//! Trimming and lowercasing of single texts and of batches.
use vstd::prelude::*;
use crate::text::{is_ws, lower_of, trim_spec, trim_start_spec, trim_end_spec, trim, lowercase};

verus! {

/// The normal form of a text: trimmed of surrounding whitespace, then lowercased.
pub open spec fn normalize_spec(s: Seq<char>) -> Seq<char> {
    lower_of(trim_spec(s))
}

/// Whether `s` has no whitespace at either end.
pub open spec fn is_trimmed(s: Seq<char>) -> bool {
    s.len() > 0 ==> !is_ws(s[0]) && !is_ws(s.last())
}

proof fn lemma_trim_end_prefix(s: Seq<char>)
    ensures
        trim_end_spec(s).len() <= s.len(),
        trim_end_spec(s) == s.subrange(0, trim_end_spec(s).len() as int),
        trim_end_spec(s).len() > 0 ==> !is_ws(trim_end_spec(s).last()),
    decreases s.len(),
{
    if s.len() > 0 && is_ws(s.last()) {
        lemma_trim_end_prefix(s.drop_last());
        assert(s.drop_last().subrange(0, trim_end_spec(s).len() as int) =~= s.subrange(0, trim_end_spec(s).len() as int));
    } else {
        assert(s.subrange(0, s.len() as int) =~= s);
    }
}

proof fn lemma_trim_start_first(s: Seq<char>)
    ensures
        trim_start_spec(s).len() > 0 ==> !is_ws(trim_start_spec(s)[0]),
    decreases s.len(),
{
    if s.len() > 0 && is_ws(s[0]) {
        lemma_trim_start_first(s.drop_first());
    }
}

/// A trimmed text has no whitespace at either end.
pub proof fn lemma_trim_is_trimmed(s: Seq<char>)
    ensures
        is_trimmed(trim_spec(s)),
{
    let t = trim_start_spec(s);
    lemma_trim_start_first(s);
    lemma_trim_end_prefix(t);
    let u = trim_end_spec(t);
    if u.len() > 0 {
        assert(u[0] == t.subrange(0, u.len() as int)[0]);
    }
}

/// Trimming leaves a text with no whitespace at either end as it is.
pub proof fn lemma_trim_of_trimmed(s: Seq<char>)
    requires
        is_trimmed(s),
    ensures
        trim_spec(s) == s,
{
    assert(trim_start_spec(s) == s);
    assert(trim_end_spec(s) == s);
}

/// Normalizing a normalized text changes nothing, for any lowercasing that
/// is itself idempotent and puts no whitespace at the ends of a text that
/// has none there.
pub proof fn lemma_normalize_idempotent(s: Seq<char>)
    requires
        forall|t: Seq<char>| #[trigger] lower_of(lower_of(t)) == lower_of(t),
        forall|t: Seq<char>| is_trimmed(t) ==> is_trimmed(#[trigger] lower_of(t)),
    ensures
        normalize_spec(normalize_spec(s)) == normalize_spec(s),
{
    let u = trim_spec(s);
    lemma_trim_is_trimmed(s);
    lemma_trim_of_trimmed(lower_of(u));
    assert(lower_of(lower_of(u)) == lower_of(u));
}

/// Trims leading and trailing whitespace from `text`, then lowercases it.
pub fn normalize_text(text: &str) -> (r: String)
    ensures
        r@ == normalize_spec(text@),
{
    lowercase(trim(text))
}

/// Normalizes each text of `texts`, keeping their order.
pub fn normalize_text_batch(texts: Vec<String>) -> (r: Vec<String>)
    ensures
        r@.len() == texts@.len(),
        forall|i: int| 0 <= i < r@.len() ==> r@[i]@ == normalize_spec(#[trigger] texts@[i]@),
{
    let mut out: Vec<String> = Vec::new();
    let mut i: usize = 0;
    while i < texts.len()
        invariant
            i <= texts@.len(),
            out@.len() == i,
            forall|k: int| 0 <= k < i ==> out@[k]@ == normalize_spec(#[trigger] texts@[k]@),
        decreases texts@.len() - i,
    {
        let n = normalize_text(texts[i].as_str());
        out.push(n);
        i = i + 1;
    }
    out
}

} // verus!
