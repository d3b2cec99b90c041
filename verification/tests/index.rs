use memexfs::index::InvertedIndex;
use memexfs::tokenizer::tokenize;

#[test]
fn test_tokenize() {
    let tokens = tokenize("Hello, World! This is a test.");
    assert_eq!(tokens, vec!["hello", "world", "this", "is", "a", "test"]);
}

#[test]
fn test_tokenize_markdown() {
    let tokens = tokenize("## How to reset your password");
    assert!(tokens.contains(&"reset".to_string()));
    assert!(tokens.contains(&"password".to_string()));
}

#[test]
fn test_index_and_lookup() {
    let mut idx = InvertedIndex::new();
    idx.add_document(
        "test.md",
        &["Hello world".to_string(), "Goodbye world".to_string()],
    );

    let results = idx.lookup("world").unwrap();
    assert_eq!(results.len(), 2);
    assert_eq!(results[0], ("test.md".to_string(), 1));
    assert_eq!(results[1], ("test.md".to_string(), 2));
}

#[test]
fn test_lookup_case_insensitive() {
    let mut idx = InvertedIndex::new();
    idx.add_document("test.md", &["Hello World".to_string()]);

    assert!(idx.lookup("hello").is_some());
    assert!(idx.lookup("HELLO").is_some());
}

#[test]
fn test_lookup_miss() {
    let idx = InvertedIndex::new();
    assert!(idx.lookup("nonexistent").is_none());
}

#[test]
fn test_repeated_token_one_location() {
    let mut idx = InvertedIndex::new();
    idx.add_document("test.md", &["copy file to file destination".to_string()]);
    let results = idx.lookup("file").unwrap();
    assert_eq!(results.len(), 1);
    assert_eq!(results[0], ("test.md".to_string(), 1));
}

#[test]
fn test_find_containing_sorted_dedup() {
    let mut idx = InvertedIndex::new();
    idx.add_document("b.md", &["archive architecture".to_string()]);
    idx.add_document("a.md", &["an archive".to_string()]);
    let hits = idx.find_containing("arch");
    assert_eq!(
        hits,
        vec![("a.md".to_string(), 1), ("b.md".to_string(), 1)]
    );
}

#[test]
fn test_token_count_distinct() {
    let mut idx = InvertedIndex::new();
    idx.add_document("a.md", &["hello world hello".to_string()]);
    assert_eq!(idx.token_count(), 2);
}
