//! Sentence-aware chunking: a document is cut at sentence boundaries into
//! chunks of about `size` words, each new chunk repeating the last `overlap`
//! words of the one before.
use vstd::prelude::*;
use crate::text::{sentences_spec, words_spec, views, split_sentences, split_words};

verus! {

/// The one way a chunking request can be refused.
#[derive(Debug, Clone, Copy, PartialEq, Eq, Structural)]
pub enum ChunkError {
    /// The target size is zero.
    InvalidArgument,
}

/// Words as sequences of characters.
pub type Words = Seq<Seq<char>>;

/// The words of `ws` joined by single spaces.
pub open spec fn join_spec(ws: Words) -> Seq<char>
    decreases ws.len(),
{
    if ws.len() == 0 {
        Seq::empty()
    } else if ws.len() == 1 {
        ws[0]
    } else {
        join_spec(ws.drop_last()) + seq![' '] + ws.last()
    }
}

/// The last `overlap` words of `acc`, or all of them where it has fewer.
pub open spec fn tail_spec(acc: Words, overlap: nat) -> Words {
    if acc.len() > overlap {
        acc.subrange(acc.len() - overlap, acc.len() as int)
    } else {
        acc
    }
}

/// One sentence's worth of the greedy pass. The state holds the chunks
/// emitted so far and the words accumulated for the next one. Where the
/// sentence's words `ws` would take a non-empty accumulator past `size`, the
/// accumulator is emitted and only its tail of `overlap` words is kept; then
/// `ws` is appended.
pub open spec fn step(st: (Seq<Words>, Words), ws: Words, size: nat, overlap: nat) -> (Seq<Words>, Words) {
    if st.1.len() + ws.len() > size && st.1.len() > 0 {
        (st.0.push(st.1), tail_spec(st.1, overlap) + ws)
    } else {
        (st.0, st.1 + ws)
    }
}

/// The state after the greedy pass over the word lists of `sents`, in order.
pub open spec fn pass(sents: Seq<Words>, size: nat, overlap: nat) -> (Seq<Words>, Words)
    decreases sents.len(),
{
    if sents.len() == 0 {
        (Seq::empty(), Seq::empty())
    } else {
        step(pass(sents.drop_last(), size, overlap), sents.last(), size, overlap)
    }
}

/// The chunks, as word lists, of the sentences `sents`: those the pass
/// emits, then the accumulator left at the end if it is non-empty.
pub open spec fn chunk_word_lists(sents: Seq<Words>, size: nat, overlap: nat) -> Seq<Words> {
    let st = pass(sents, size, overlap);
    if st.1.len() > 0 {
        st.0.push(st.1)
    } else {
        st.0
    }
}

/// The word lists of the sentences of `text`, in order.
pub open spec fn sentence_words(text: Seq<char>) -> Seq<Words> {
    sentences_spec(text).map_values(|s: Seq<char>| words_spec(s))
}

/// The chunks of `text` for a target `size` and an `overlap`, each joined by single spaces.
pub open spec fn chunks_spec(text: Seq<char>, size: nat, overlap: nat) -> Seq<Seq<char>> {
    chunk_word_lists(sentence_words(text), size, overlap).map_values(|c: Words| join_spec(c))
}

/// All the words of `sents`, in order.
pub open spec fn all_words(sents: Seq<Words>) -> Words
    decreases sents.len(),
{
    if sents.len() == 0 {
        Seq::empty()
    } else {
        all_words(sents.drop_last()) + sents.last()
    }
}

/// Whether the last word of `c` is the last word of one of the sentences `sents`.
pub open spec fn ends_a_sentence(c: Words, sents: Seq<Words>) -> bool {
    exists|j: int| 0 <= j < sents.len() && #[trigger] sents[j].len() > 0 && c.last() == sents[j].last()
}

proof fn lemma_pass_within_size(sents: Seq<Words>, size: nat, overlap: nat)
    requires
        all_words(sents).len() <= size,
    ensures
        pass(sents, size, overlap) == (Seq::<Words>::empty(), all_words(sents)),
    decreases sents.len(),
{
    if sents.len() > 0 {
        lemma_pass_within_size(sents.drop_last(), size, overlap);
    }
}

/// Where the whole text has at least one word and no more than `size`, it
/// makes exactly one chunk: all of its words, in order, joined by single
/// spaces, whatever the overlap.
pub proof fn lemma_single_chunk(text: Seq<char>, size: nat, overlap: nat)
    requires
        0 < all_words(sentence_words(text)).len() <= size,
    ensures
        chunks_spec(text, size, overlap) == seq![join_spec(all_words(sentence_words(text)))],
{
    lemma_pass_within_size(sentence_words(text), size, overlap);
    assert(chunks_spec(text, size, overlap) =~= seq![join_spec(all_words(sentence_words(text)))]);
}

/// An empty text makes no chunks, whatever the size and the overlap.
pub proof fn lemma_empty_text(size: nat, overlap: nat)
    ensures
        chunks_spec(Seq::empty(), size, overlap) == Seq::<Seq<char>>::empty(),
{
    let e = Seq::<char>::empty();
    assert(e.subrange(0, 0) =~= e);
    assert(sentence_words(e) =~= seq![Seq::<Seq<char>>::empty()]);
    let sents = sentence_words(e);
    assert(sents.drop_last() =~= Seq::<Words>::empty());
    assert(sents.last() =~= Seq::<Seq<char>>::empty());
    assert(pass(sents.drop_last(), size, overlap) == (Seq::<Words>::empty(), Seq::<Seq<char>>::empty()));
    let st = pass(sents, size, overlap);
    assert(st.1 =~= Seq::<Seq<char>>::empty());
    assert(st.0 =~= Seq::<Words>::empty());
    assert(chunks_spec(e, size, overlap) =~= Seq::<Seq<char>>::empty());
}

proof fn lemma_pass_keeps_words(sents: Seq<Words>, size: nat, overlap: nat)
    ensures
        all_words(sents).len() > 0 ==> pass(sents, size, overlap).0.len() > 0 || pass(sents, size, overlap).1.len() > 0,
    decreases sents.len(),
{
    if sents.len() > 0 {
        lemma_pass_keeps_words(sents.drop_last(), size, overlap);
    }
}

/// A text with at least one word makes at least one chunk.
pub proof fn lemma_words_make_a_chunk(text: Seq<char>, size: nat, overlap: nat)
    requires
        all_words(sentence_words(text)).len() > 0,
    ensures
        chunks_spec(text, size, overlap).len() > 0,
{
    lemma_pass_keeps_words(sentence_words(text), size, overlap);
}

proof fn lemma_pass_ends_sentences(sents: Seq<Words>, size: nat, overlap: nat)
    ensures
        forall|k: int| 0 <= k < pass(sents, size, overlap).0.len() ==>
            (#[trigger] pass(sents, size, overlap).0[k]).len() > 0
            && ends_a_sentence(pass(sents, size, overlap).0[k], sents),
        pass(sents, size, overlap).1.len() > 0 ==> ends_a_sentence(pass(sents, size, overlap).1, sents),
    decreases sents.len(),
{
    if sents.len() > 0 {
        let prev = sents.drop_last();
        lemma_pass_ends_sentences(prev, size, overlap);
        let st = pass(prev, size, overlap);
        let ws = sents.last();
        let last_j = sents.len() - 1;
        assert forall|c: Words| c.len() > 0 && ends_a_sentence(c, prev) implies ends_a_sentence(c, sents) by {
            let j = choose|j: int| 0 <= j < prev.len() && #[trigger] prev[j].len() > 0 && c.last() == prev[j].last();
            assert(sents[j] == prev[j]);
        }
        if ws.len() > 0 {
            assert(sents[last_j] == ws);
        }
        if st.1.len() + ws.len() > size && st.1.len() > 0 {
            let t = tail_spec(st.1, overlap);
            if t.len() > 0 && ws.len() == 0 {
                assert(t.last() == st.1.last());
                assert(t + ws =~= t);
            }
            if ws.len() > 0 {
                assert((t + ws).last() == ws.last());
            }
            assert forall|k: int| 0 <= k < st.0.push(st.1).len() implies
                (#[trigger] st.0.push(st.1)[k]).len() > 0 && ends_a_sentence(st.0.push(st.1)[k], sents) by {
                if k < st.0.len() {
                    assert(st.0.push(st.1)[k] == st.0[k]);
                }
            }
        } else {
            if ws.len() > 0 {
                assert((st.1 + ws).last() == ws.last());
            } else {
                assert(st.1 + ws =~= st.1);
            }
        }
    }
}

/// Chunks are cut only at the ends of sentences: every chunk is non-empty,
/// and its last word is the last word of one of the text's sentences.
pub proof fn lemma_sentence_integrity(text: Seq<char>, size: nat, overlap: nat)
    ensures
        forall|k: int| 0 <= k < chunk_word_lists(sentence_words(text), size, overlap).len() ==>
            (#[trigger] chunk_word_lists(sentence_words(text), size, overlap)[k]).len() > 0
            && ends_a_sentence(chunk_word_lists(sentence_words(text), size, overlap)[k], sentence_words(text)),
{
    let sents = sentence_words(text);
    lemma_pass_ends_sentences(sents, size, overlap);
    let st = pass(sents, size, overlap);
    assert forall|k: int| 0 <= k < chunk_word_lists(sents, size, overlap).len() implies
        (#[trigger] chunk_word_lists(sents, size, overlap)[k]).len() > 0
        && ends_a_sentence(chunk_word_lists(sents, size, overlap)[k], sents) by {
        if st.1.len() > 0 && k < st.0.len() {
            assert(st.0.push(st.1)[k] == st.0[k]);
        }
    }
}

/// Joins `words` with single spaces.
pub fn join_words(words: &Vec<String>) -> (r: String)
    ensures
        r@ == join_spec(views(words@)),
{
    let mut out = String::new();
    let mut i: usize = 0;
    while i < words.len()
        invariant
            i <= words@.len(),
            out@ == join_spec(views(words@).subrange(0, i as int)),
        decreases words@.len() - i,
    {
        let ghost before = out@;
        if i > 0 {
            out.append(" ");
        }
        out.append(words[i].as_str());
        proof {
            let vs = views(words@);
            let next = vs.subrange(0, i + 1);
            assert(next.drop_last() =~= vs.subrange(0, i as int));
            assert(next.last() == words@[i as int]@);
            if i == 0 {
                assert(next.len() == 1);
            }
            reveal_strlit(" ");
        }
        i = i + 1;
    }
    assert(views(words@).subrange(0, words@.len() as int) =~= views(words@));
    out
}

/// The last `overlap` words of `acc`, or all of them where it has fewer.
pub fn carry(acc: &Vec<String>, overlap: usize) -> (r: Vec<String>)
    ensures
        views(r@) == tail_spec(views(acc@), overlap as nat),
{
    let start: usize = if acc.len() > overlap { acc.len() - overlap } else { 0 };
    let mut out: Vec<String> = Vec::new();
    let mut i: usize = start;
    while i < acc.len()
        invariant
            start <= i <= acc@.len(),
            out@ =~= acc@.subrange(start as int, i as int),
        decreases acc@.len() - i,
    {
        out.push(acc[i].clone());
        i = i + 1;
    }
    assert(views(out@) =~= tail_spec(views(acc@), overlap as nat));
    out
}

/// Splits `text` into chunks of whole sentences. Sentences end at `.`, `!`
/// or `?` followed by whitespace; a chunk is emitted before a sentence that
/// would take it past `size` words, and the next one starts with the last
/// `overlap` words of the chunk just emitted. A sentence longer than `size`
/// words makes a chunk of its own, and an `overlap` of `size` or more leaves
/// no bound on the length of chunks. A `size` of zero is refused.
pub fn chunk_text_rust(text: &str, size: usize, overlap: usize) -> (r: Result<Vec<String>, ChunkError>)
    ensures
        size == 0 <==> r is Err,
        size == 0 ==> r == Err::<Vec<String>, ChunkError>(ChunkError::InvalidArgument),
        r is Ok ==> views(r->Ok_0@) == chunks_spec(text@, size as nat, overlap as nat),
        r is Ok && text@.len() == 0 ==> r->Ok_0@.len() == 0,
{
    if size == 0 {
        return Err(ChunkError::InvalidArgument);
    }
    let sentences = split_sentences(text);
    let ghost sw = sentence_words(text@);
    proof {
        if text@.len() == 0 {
            assert(text@.subrange(0, 0) =~= Seq::<char>::empty());
        }
    }
    assert(sw.len() == sentences@.len());
    let mut chunks: Vec<String> = Vec::new();
    let mut acc: Vec<String> = Vec::new();
    let mut i: usize = 0;
    while i < sentences.len()
        invariant
            i <= sentences@.len(),
            sw.len() == sentences@.len(),
            forall|k: int| 0 <= k < sw.len() ==> #[trigger] sw[k] == words_spec(sentences@[k]@),
            views(chunks@) == pass(sw.take(i as int), size as nat, overlap as nat).0.map_values(|c: Words| join_spec(c)),
            views(acc@) == pass(sw.take(i as int), size as nat, overlap as nat).1,
            text@.len() == 0 ==> views(sentences@) == seq![Seq::<char>::empty()],
            text@.len() == 0 ==> acc@.len() == 0 && chunks@.len() == 0,
        decreases sentences@.len() - i,
    {
        proof {
            if text@.len() == 0 {
                assert(views(sentences@)[i as int] == sentences@[i as int]@);
            }
        }
        let words = split_words(sentences[i].as_str());
        let ghost st = pass(sw.take(i as int), size as nat, overlap as nat);
        proof {
            assert(sw.take(i + 1).drop_last() =~= sw.take(i as int));
            assert(sw.take(i + 1).last() == views(words@));
        }
        if acc.len() > 0 && (words.len() > size || acc.len() > size - words.len()) {
            let joined = join_words(&acc);
            let ghost old_chunks = chunks@;
            chunks.push(joined);
            acc = carry(&acc, overlap);
            assert(views(chunks@) =~= views(old_chunks).push(joined@));
            assert(views(chunks@) =~= st.0.push(st.1).map_values(|c: Words| join_spec(c)));
        }
        let ghost mid = acc@;
        let mut j: usize = 0;
        while j < words.len()
            invariant
                j <= words@.len(),
                acc@ =~= mid + words@.subrange(0, j as int),
            decreases words@.len() - j,
        {
            acc.push(words[j].clone());
            j = j + 1;
        }
        assert(words@.subrange(0, words@.len() as int) =~= words@);
        assert(views(acc@) =~= views(mid) + views(words@));
        i = i + 1;
    }
    assert(sw.take(sentences@.len() as int) =~= sw);
    if acc.len() > 0 {
        let joined = join_words(&acc);
        let ghost old_chunks = chunks@;
        chunks.push(joined);
        assert(views(chunks@) =~= views(old_chunks).push(joined@));
        let ghost st = pass(sw, size as nat, overlap as nat);
        assert(views(chunks@) =~= st.0.push(st.1).map_values(|c: Words| join_spec(c)));
    }
    Ok(chunks)
}

} // verus!
