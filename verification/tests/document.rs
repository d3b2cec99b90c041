use memexfs::document::Document;

#[test]
fn test_document_new() {
    let doc = Document::new("test.md".into(), "line one\nline two\nline three");
    assert_eq!(doc.lines.len(), 3);
    assert_eq!(doc.lines[0], "line one");
}

#[test]
fn document_test_read_full() {
    let doc = Document::new("test.md".into(), "# Title\n\nSome content");
    let result = doc.read(None, None);
    assert!(result.contains("# Title"));
    assert!(result.contains("Some content"));
}

#[test]
fn test_read_with_offset_and_limit() {
    let doc = Document::new("test.md".into(), "line 1\nline 2\nline 3\nline 4\nline 5");
    let result = doc.read(Some(2), Some(2));
    assert!(result.contains("line 2"));
    assert!(result.contains("line 3"));
    assert!(!result.contains("line 1"));
    assert!(!result.contains("line 4"));
}

#[test]
fn test_read_offset_beyond_end() {
    let doc = Document::new("test.md".into(), "only line");
    let result = doc.read(Some(100), None);
    assert!(result.is_empty());
}

#[test]
fn test_read_full_line_count() {
    let doc = Document::new("test.md".into(), "alpha\nbeta\ngamma");
    let result = doc.read(None, None);
    assert_eq!(result.lines().count(), 3);
}

#[test]
fn test_read_format_exact() {
    let doc = Document::new("t.md".into(), "alpha\nbeta");
    assert_eq!(doc.read(None, None), "  1  alpha\n  2  beta");
}

#[test]
fn test_read_wide_number_column() {
    let mut text = String::new();
    for i in 0..1000 {
        text.push_str(&format!("line {}\n", i));
    }
    let doc = Document::new("t.md".into(), &text);
    let result = doc.read(Some(1000), Some(1));
    assert_eq!(result, "1000  line 999");
}

#[test]
fn test_read_limit_zero() {
    let doc = Document::new("t.md".into(), "a\nb");
    assert_eq!(doc.read(Some(1), Some(0)), "");
}

#[test]
fn test_total_lines() {
    let doc = Document::new("t.md".into(), "a\nb\nc\n");
    assert_eq!(doc.total_lines(), 3);
}
