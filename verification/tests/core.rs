use memexfs::GrepResult;
use memexfs::MemexFsCore;

fn make_fs() -> MemexFsCore {
    let docs = vec![
        (
            "account/password-reset.md".to_string(),
            "# Password Reset\n\n## How to reset your password\n\n1. Go to Settings\n2. Click Reset Password"
                .to_string(),
        ),
        (
            "billing/refund.md".to_string(),
            "# Refunds\n\nTo request a refund, contact support.\n\nRefunds are processed within 5 business days."
                .to_string(),
        ),
    ];
    MemexFsCore::from_pairs(docs).unwrap()
}

#[test]
fn test_grep_simple() {
    let fs = make_fs();
    let results = fs.grep("password", None).unwrap();
    assert!(!results.is_empty());
    assert!(results.iter().any(|r| r.path == "account/password-reset.md"));
}

#[test]
fn lib_test_grep_with_glob() {
    let fs = make_fs();
    let results = fs.grep("refund", Some("billing/**/*.md")).unwrap();
    assert!(!results.is_empty());
    assert!(results.iter().all(|r| r.path.starts_with("billing/")));
}

#[test]
fn lib_test_grep_regex() {
    let fs = make_fs();
    let results = fs.grep("reset|refund", None).unwrap();
    assert!(results.len() >= 2);
}

#[test]
fn test_grep_case_insensitive() {
    let fs = make_fs();
    let results = fs.grep("PASSWORD", None).unwrap();
    assert!(!results.is_empty());
}

#[test]
fn lib_test_read_full() {
    let fs = make_fs();
    let content = fs.read("billing/refund.md", None, None).unwrap();
    assert!(content.contains("# Refunds"));
    assert!(content.contains("5 business days"));
}

#[test]
fn lib_test_read_with_offset_limit() {
    let fs = make_fs();
    let content = fs.read("billing/refund.md", Some(3), Some(1)).unwrap();
    assert!(content.contains("request a refund"));
    assert!(!content.contains("# Refunds"));
}

#[test]
fn test_read_not_found() {
    let fs = make_fs();
    let result = fs.read("nonexistent.md", None, None);
    assert!(result.is_err());
    assert!(result.unwrap_err().message.contains("document not found"));
}

#[test]
fn lib_test_tool_definitions() {
    let fs = make_fs();
    let defs = fs.tool_definitions();
    let parsed: serde_json::Value = serde_json::from_str(&defs).unwrap();
    assert!(parsed.is_array());
    assert_eq!(parsed.as_array().unwrap().len(), 3);
}

#[test]
fn test_empty_docs() {
    let result = MemexFsCore::from_pairs(vec![]);
    assert!(result.is_err());
    assert!(result.unwrap_err().message.contains("no documents"));
}

#[test]
fn test_document_count() {
    let fs = make_fs();
    assert_eq!(fs.document_count(), 2);
}

#[test]
fn test_grep_max_results() {
    // Build a store with many matching lines.
    let mut docs = Vec::new();
    for i in 0..200 {
        docs.push((
            format!("doc_{}.md", i),
            "keyword match here\nkeyword match again".to_string(),
        ));
    }
    let fs = MemexFsCore::from_pairs(docs).unwrap();
    let results = fs.grep("keyword", None).unwrap();
    assert_eq!(results.len(), 100); // capped at max
}

#[test]
fn test_grep_substring_in_token() {
    // "arch" is a substring of "archive" but not a standalone token.
    let docs = vec![("test.md".to_string(), "This is an archive of data".to_string())];
    let fs = MemexFsCore::from_pairs(docs).unwrap();
    let results = fs.grep("arch", None).unwrap();
    assert!(!results.is_empty(), "should find 'arch' inside 'archive'");
}

#[test]
fn test_grep_numeric_substring_in_compound_token() {
    // "559571" embedded in "SE559571232301" — mimics org number in identifier.
    let docs = vec![
        (
            "org.md".to_string(),
            "Company registered as SE559571232301 in Sweden".to_string(),
        ),
        (
            "other.md".to_string(),
            "Reference number 559571 standalone".to_string(),
        ),
        ("unrelated.md".to_string(), "No match here".to_string()),
    ];
    let fs = MemexFsCore::from_pairs(docs).unwrap();
    let results = fs.grep("559571", None).unwrap();
    assert_eq!(results.len(), 2, "should match both embedded and standalone");
    assert!(
        results.iter().any(|r| r.path == "org.md"),
        "should find embedded match"
    );
    assert!(
        results.iter().any(|r| r.path == "other.md"),
        "should find standalone match"
    );
}

#[test]
fn test_grep_multi_word_substring_fallback() {
    // Multi-word pattern: only the contiguous phrase counts as a match.
    let docs = vec![
        ("a.md".to_string(), "hackathon in sekoya was great".to_string()),
        ("b.md".to_string(), "The sekoya hackathon event".to_string()),
        ("c.md".to_string(), "No match here".to_string()),
    ];
    let fs = MemexFsCore::from_pairs(docs).unwrap();
    let results = fs.grep("hackathon in sekoya", None).unwrap();
    assert_eq!(results.len(), 1, "exact phrase only in a.md");
    assert_eq!(results[0].path, "a.md");
}

#[test]
fn lib_test_ls_root() {
    let fs = make_fs();
    let entries = fs.ls("");
    assert_eq!(entries, vec!["account/", "billing/"]);
}

#[test]
fn test_ls_root_dot() {
    let fs = make_fs();
    let entries = fs.ls(".");
    assert_eq!(entries, vec!["account/", "billing/"]);
}

#[test]
fn test_ls_subdirectory() {
    let fs = make_fs();
    let entries = fs.ls("account");
    assert_eq!(entries, vec!["password-reset.md"]);
}

#[test]
fn test_ls_subdirectory_trailing_slash() {
    let fs = make_fs();
    let entries = fs.ls("account/");
    assert_eq!(entries, vec!["password-reset.md"]);
}

#[test]
fn test_ls_empty_directory() {
    let fs = make_fs();
    let entries = fs.ls("nonexistent");
    assert!(entries.is_empty());
}

#[test]
fn test_ls_nested() {
    let docs = vec![
        ("a/b/c.md".to_string(), "content".to_string()),
        ("a/b/d.md".to_string(), "content".to_string()),
        ("a/e.md".to_string(), "content".to_string()),
        ("f.md".to_string(), "content".to_string()),
    ];
    let fs = MemexFsCore::from_pairs(docs).unwrap();

    let root = fs.ls("");
    assert_eq!(root, vec!["a/", "f.md"]);

    let a = fs.ls("a");
    assert_eq!(a, vec!["b/", "e.md"]);

    let ab = fs.ls("a/b");
    assert_eq!(ab, vec!["c.md", "d.md"]);
}

#[test]
fn test_tool_definitions_includes_ls() {
    let fs = make_fs();
    let defs = fs.tool_definitions();
    let parsed: serde_json::Value = serde_json::from_str(&defs).unwrap();
    let arr = parsed.as_array().unwrap();
    assert_eq!(arr.len(), 3);
    assert!(arr.iter().any(|d| d["name"] == "ls"));
}

#[test]
fn test_grep_no_duplicate_lines() {
    // "file" appears twice on the same line.
    let docs = vec![("test.md".to_string(), "copy file to file destination".to_string())];
    let fs = MemexFsCore::from_pairs(docs).unwrap();
    let results = fs.grep("file", None).unwrap();
    assert_eq!(
        results.len(),
        1,
        "should return one result per line, not per occurrence"
    );
}

#[test]
fn test_grep_empty_pattern() {
    let fs = make_fs();
    let result = fs.grep("", None);
    assert!(result.is_err());
    assert!(result.unwrap_err().message.contains("empty search pattern"));
}

#[test]
fn test_grep_invalid_regex() {
    let fs = make_fs();
    let result = fs.grep("[", None);
    assert!(result.is_err());
    assert!(result.unwrap_err().message.contains("invalid regex"));
}

#[test]
fn test_grep_glob_excludes() {
    let fs = make_fs();
    let results = fs.grep("password", Some("billing/**/*.md")).unwrap();
    assert!(results.is_empty(), "glob should filter out the only match");
}

#[test]
fn test_grep_results_sorted() {
    let docs = vec![
        ("b.md".to_string(), "needle\nneedle".to_string()),
        ("a.md".to_string(), "needle".to_string()),
    ];
    let fs = MemexFsCore::from_pairs(docs).unwrap();
    let results: Vec<GrepResult> = fs.grep("needle", None).unwrap();
    let keys: Vec<(String, u32)> = results.iter().map(|r| (r.path.clone(), r.line)).collect();
    assert_eq!(
        keys,
        vec![
            ("a.md".to_string(), 1),
            ("b.md".to_string(), 1),
            ("b.md".to_string(), 2)
        ]
    );
}

#[test]
fn test_grep_rebuild_same_results() {
    let docs = vec![
        ("a.md".to_string(), "alpha beta".to_string()),
        ("b.md".to_string(), "beta gamma".to_string()),
    ];
    let fs1 = MemexFsCore::from_pairs(docs.clone()).unwrap();
    let fs2 = MemexFsCore::from_pairs(docs).unwrap();
    let r1 = fs1.grep("beta", None).unwrap();
    let r2 = fs2.grep("beta", None).unwrap();
    let k1: Vec<(String, u32, String)> =
        r1.iter().map(|r| (r.path.clone(), r.line, r.content.clone())).collect();
    let k2: Vec<(String, u32, String)> =
        r2.iter().map(|r| (r.path.clone(), r.line, r.content.clone())).collect();
    assert_eq!(k1, k2);
}

#[test]
fn test_ls_root_slash() {
    let fs = make_fs();
    let entries = fs.ls("/");
    assert_eq!(entries, vec!["account/", "billing/"]);
}

#[test]
fn test_tool_definitions_canonical_json() {
    let fs = make_fs();
    let defs = fs.tool_definitions();
    let parsed: serde_json::Value = serde_json::from_str(&defs).unwrap();
    // The fixed description is already in compact form with sorted keys.
    assert_eq!(serde_json::to_string(&parsed).unwrap(), defs);
}

#[test]
fn test_token_count_positive() {
    let fs = make_fs();
    assert!(fs.token_count() > 0);
}
