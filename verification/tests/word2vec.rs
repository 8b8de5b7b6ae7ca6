use mlog::Embedding;

#[test]
fn test_embed_line() {
    let line = "words are so meaningless";
    let mut embedding = Embedding::new();
    embedding.insert(line.to_string());

    assert_eq!(embedding.repr(line.to_string()), vec![1, 1, 1, 1]);
}

#[test]
fn test_repr_no_intersection() {
    let line = "words are so meaningless";
    let mut embedding = Embedding::new();
    embedding.insert(line.to_string());

    assert_eq!(embedding.repr("nothing matches".to_string()), vec![0, 0, 0, 0]);
}

#[test]
fn test_embed_twice() {
    let mut embedding = Embedding::new();
    embedding.insert("words are so meaningless".to_string());
    embedding.insert("nothing matches".to_string());

    assert_eq!(
        embedding.repr("some words matches matches".to_string()),
        vec![1, 0, 0, 0, 0, 2],
    );
}

#[test]
fn test_empty_words_are_entries() {
    let mut embedding = Embedding::new();
    embedding.insert("a  b".to_string());
    // vocabulary: "a", "" and "b", in first-seen order
    assert_eq!(embedding.repr("a  b".to_string()), vec![1, 1, 1]);
    assert_eq!(embedding.repr("".to_string()), vec![0, 1, 0]);
}

#[test]
fn test_insert_idempotent() {
    let mut embedding = Embedding::new();
    embedding.insert("x y x".to_string());
    embedding.insert("x y x".to_string());
    assert_eq!(embedding.repr("x y x".to_string()), vec![2, 1]);
}
