use text_normalizer::{normalize_text, normalize_text_batch};

#[test]
fn trims_and_lowercases() {
    assert_eq!(normalize_text("  Hello World  "), "hello world");
    assert_eq!(normalize_text("\tÄBC\n"), "äbc");
}

#[test]
fn empty_and_blank_texts_normalize_to_empty() {
    assert_eq!(normalize_text(""), "");
    assert_eq!(normalize_text(" \n\t "), "");
}

#[test]
fn inner_whitespace_is_kept() {
    assert_eq!(normalize_text(" A  B\tC "), "a  b\tc");
}

#[test]
fn normalizing_twice_changes_nothing() {
    for s in ["  MiXeD Case  ", "", "already normal", "\u{2003}ÉTÉ\u{3000}", "ΣΑΣ "] {
        let once = normalize_text(s);
        assert_eq!(normalize_text(&once), once);
    }
}

#[test]
fn batch_matches_single_normalization() {
    let input = vec![" A ".to_string(), "b".to_string(), " C c ".to_string(), "".to_string()];
    let out = normalize_text_batch(input.clone());
    assert_eq!(out, vec!["a", "b", "c c", ""]);
    assert_eq!(out.len(), input.len());
    for (o, i) in out.iter().zip(input.iter()) {
        assert_eq!(o, &normalize_text(i));
    }
}

#[test]
fn empty_batch_gives_empty_batch() {
    assert_eq!(normalize_text_batch(Vec::new()), Vec::<String>::new());
}
