use memexfs::store::DocumentStore;

#[test]
fn test_load_and_get() {
    let mut store = DocumentStore::new();
    store.load_documents(vec![
        ("a.md".into(), "Hello world".into()),
        ("b.md".into(), "Goodbye world".into()),
    ]);

    assert_eq!(store.document_count(), 2);
    assert!(store.get_document("a.md").is_some());
    assert!(store.get_document("missing.md").is_none());
}

#[test]
fn store_test_ls_root() {
    let mut store = DocumentStore::new();
    store.load_documents(vec![
        ("dir/a.md".into(), "hello".into()),
        ("dir/b.md".into(), "world".into()),
        ("top.md".into(), "top".into()),
    ]);
    let entries = store.ls("");
    assert_eq!(entries, vec!["dir/", "top.md"]);
}

#[test]
fn test_ls_subdir() {
    let mut store = DocumentStore::new();
    store.load_documents(vec![
        ("dir/a.md".into(), "hello".into()),
        ("dir/sub/b.md".into(), "world".into()),
    ]);
    let entries = store.ls("dir");
    assert_eq!(entries, vec!["a.md", "sub/"]);
}

#[test]
fn test_index_built_on_load() {
    let mut store = DocumentStore::new();
    store.load_documents(vec![("test.md".into(), "hello world".into())]);

    assert!(store.index().lookup("hello").is_some());
    assert!(store.index().lookup("world").is_some());
}

#[test]
fn test_duplicate_path_last_wins() {
    let mut store = DocumentStore::new();
    store.load_documents(vec![
        ("a.md".into(), "old content".into()),
        ("a.md".into(), "new content".into()),
    ]);
    assert_eq!(store.document_count(), 1);
    let doc = store.get_document("a.md").unwrap();
    assert_eq!(doc.lines[0], "new content");
    // The index reflects the surviving document only.
    assert!(store.index().lookup("new").is_some());
    assert!(store.index().lookup("old").is_none());
}

#[test]
fn test_paths_sorted() {
    let mut store = DocumentStore::new();
    store.load_documents(vec![
        ("c.md".into(), "x".into()),
        ("a.md".into(), "x".into()),
        ("b.md".into(), "x".into()),
    ]);
    assert_eq!(store.paths(), vec!["a.md", "b.md", "c.md"]);
}
