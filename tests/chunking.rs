use text_normalizer::{chunk_text_rust, ChunkError};

fn chunks(text: &str, size: usize, overlap: usize) -> Vec<String> {
    chunk_text_rust(text, size, overlap).expect("a positive size is accepted")
}

#[test]
fn worked_example_keeps_unterminated_final_period() {
    // The final "." is followed by no whitespace, so it is no boundary and stays.
    assert_eq!(
        chunks("One. Two three four. Five six.", 3, 1),
        vec!["One", "One Two three four", "four Five six."]
    );
}

#[test]
fn worked_example_with_closing_boundary() {
    assert_eq!(
        chunks("One. Two three four. Five six. ", 3, 1),
        vec!["One", "One Two three four", "four Five six"]
    );
}

#[test]
fn empty_text_gives_no_chunks() {
    assert_eq!(chunks("", 5, 2), Vec::<String>::new());
    assert_eq!(chunks("", 1, 0), Vec::<String>::new());
}

#[test]
fn whitespace_only_text_gives_no_chunks() {
    assert_eq!(chunks("   \n\t ", 3, 1), Vec::<String>::new());
}

#[test]
fn zero_size_is_refused() {
    assert_eq!(chunk_text_rust("a b. c", 0, 1), Err(ChunkError::InvalidArgument));
    assert_eq!(chunk_text_rust("", 0, 0), Err(ChunkError::InvalidArgument));
}

#[test]
fn text_within_size_makes_one_chunk() {
    assert_eq!(
        chunks("Hello world. Foo bar!  Baz?", 10, 0),
        vec!["Hello world Foo bar Baz?"]
    );
}

#[test]
fn text_of_exactly_size_words_makes_one_chunk() {
    assert_eq!(chunks("a b. c d.\n e", 5, 0), vec!["a b c d e"]);
}

#[test]
fn oversized_sentence_is_not_broken() {
    assert_eq!(chunks("a b c d e. f", 2, 0), vec!["a b c d e", "f"]);
}

#[test]
fn overlap_not_below_size_carries_everything() {
    assert_eq!(chunks("a b. c. d e.", 2, 3), vec!["a b", "a b c", "a b c d e."]);
}

#[test]
fn text_without_boundaries_is_one_sentence() {
    assert_eq!(chunks("  alpha   beta\tgamma\n", 2, 1), vec!["alpha beta gamma"]);
}

#[test]
fn each_terminal_mark_ends_a_sentence() {
    assert_eq!(chunks("A.  B! C? D", 1, 0), vec!["A", "B", "C", "D"]);
}

#[test]
fn consecutive_boundaries_give_an_empty_sentence() {
    assert_eq!(chunks("A. . B", 1, 0), vec!["A", "B"]);
}

#[test]
fn punctuation_without_whitespace_is_no_boundary() {
    assert_eq!(chunks("pi is 3.14 roughly. yes", 2, 0), vec!["pi is 3.14 roughly", "yes"]);
}

#[test]
fn chunks_end_at_sentence_ends() {
    let out = chunks("one two. three four five. six", 3, 2);
    assert_eq!(out, vec!["one two", "one two three four five", "four five six"]);
    for c in &out[..out.len() - 1] {
        let last = c.split(' ').last().unwrap();
        assert!(last == "two" || last == "five");
    }
}

#[test]
fn zero_overlap_repeats_no_words() {
    assert_eq!(chunks("a b. c d. e f.", 2, 0), vec!["a b", "c d", "e f."]);
}

#[test]
fn overlap_of_one_repeats_last_word() {
    assert_eq!(chunks("a b. c d. e f. ", 3, 1), vec!["a b", "b c d", "d e f"]);
}

#[test]
fn unicode_whitespace_separates_words_and_sentences() {
    assert_eq!(chunks("a\u{3000}b", 5, 0), vec!["a b"]);
    assert_eq!(chunks("A.\u{2003}B!\u{a0}\nC", 1, 0), vec!["A", "B", "C"]);
}

#[test]
fn final_mark_followed_by_whitespace_leaves_empty_sentence() {
    assert_eq!(chunks("Only one sentence.  ", 3, 1), vec!["Only one sentence"]);
    // The empty last sentence still finds the accumulator past the size.
    assert_eq!(chunks("Only one sentence.  ", 1, 1), vec!["Only one sentence", "sentence"]);
}
