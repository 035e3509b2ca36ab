use tfidf_search::file_entry::FileEntry;
use tfidf_search::file_logic::{get_document, get_file_set, get_file_title, StoreError};
use tfidf_search::text::{substring_count, tokenize_text};

#[test]
fn test_get_file_set_with_non_existent_directory() {
    // A directory that does not exist yields no file records.
    let file_set = get_file_set(vec![]);
    assert!(file_set.is_empty());
}

#[test]
fn test_get_file_set_with_empty_directory() {
    // An empty directory yields no file records.
    let file_set = get_file_set(Vec::new());
    assert!(file_set.is_empty());
}

#[test]
fn test_get_file_set_assigns_dense_ids() {
    let file_set = get_file_set(vec![
        ("dir/one.txt".to_string(), "first".to_string()),
        ("dir/two.txt".to_string(), "second".to_string()),
    ]);
    assert_eq!(file_set.len(), 2);
    assert_eq!(file_set[0].id, 0);
    assert_eq!(file_set[0].title, "one");
    assert_eq!(file_set[0].content, "first");
    assert_eq!(file_set[0].path, "dir/one.txt");
    assert_eq!(file_set[1].id, 1);
    assert_eq!(file_set[1].title, "two");
}

#[test]
fn test_file_entry_new_computes_title() {
    let f = FileEntry::new(3, "a/b/report.final.md".to_string(), "body".to_string());
    assert_eq!(f.id, 3);
    assert_eq!(f.title, "report.final");
    assert_eq!(f.content, "body");
    assert_eq!(f.path, "a/b/report.final.md");
}

#[test]
fn test_get_file_title_simple() {
    assert_eq!(get_file_title("notes.txt"), "notes");
}

#[test]
fn test_get_file_title_nested_path() {
    assert_eq!(get_file_title("/home/user/docs/notes.txt"), "notes");
}

#[test]
fn test_get_file_title_leading_dot() {
    assert_eq!(get_file_title("/home/user/.bashrc"), ".bashrc");
}

#[test]
fn test_get_file_title_no_extension() {
    assert_eq!(get_file_title("dir/Makefile"), "Makefile");
}

#[test]
fn test_get_file_title_trailing_dot() {
    assert_eq!(get_file_title("dir/name."), "name");
}

#[test]
fn test_get_file_title_empty() {
    assert_eq!(get_file_title(""), "");
}

#[test]
fn test_get_document_known_id() {
    let files = get_file_set(vec![("a.txt".to_string(), "x".to_string())]);
    let doc = get_document(&files, 0);
    assert!(doc.is_ok());
    assert_eq!(doc.unwrap().title, "a");
}

#[test]
fn test_get_document_unknown_id() {
    let files = get_file_set(vec![("a.txt".to_string(), "x".to_string())]);
    let doc = get_document(&files, 1);
    assert!(matches!(doc, Err(StoreError::UnknownId)));
}

#[test]
fn test_tokenize_text_splits_on_whitespace() {
    let toks = tokenize_text("  hello \t world\r\nfoo ");
    assert_eq!(toks, vec!["hello".to_string(), "world".to_string(), "foo".to_string()]);
}

#[test]
fn test_tokenize_text_empty() {
    let toks = tokenize_text("");
    assert!(toks.is_empty());
    let toks2 = tokenize_text(" \n\t ");
    assert!(toks2.is_empty());
}

#[test]
fn test_tokenize_text_keeps_punctuation_and_case() {
    let toks = tokenize_text("Hello, World!");
    assert_eq!(toks, vec!["Hello,".to_string(), "World!".to_string()]);
}

#[test]
fn test_substring_count_non_overlapping() {
    assert_eq!(substring_count("aaaa", "aa"), 2);
    assert_eq!(substring_count("aaa", "aa"), 1);
    assert_eq!(substring_count("abcabcab", "abc"), 2);
    assert_eq!(substring_count("xyz", "q"), 0);
}
