use tfidf_search::file_entry::FileEntry;
use tfidf_search::searching_engine::{
    add_entry, build_system, document_frequency, generate_indexer, postings, query, run_query,
    term_frequency, Indexer,
};

// Mock data for testing: two documents with dense ids.
fn create_mock_files() -> Vec<FileEntry> {
    vec![
        FileEntry {
            id: 0,
            title: "file1".to_string(),
            content: "Content of file one".to_string(),
            path: "/path/to/file1".to_string(),
        },
        FileEntry {
            id: 1,
            title: "file2".to_string(),
            content: "Content of file two".to_string(),
            path: "/path/to/file2".to_string(),
        },
    ]
}

fn contains_key(indexer: &Indexer, key: &str) -> bool {
    indexer.entries.iter().any(|e| e.0 == key)
}

// The real-valued TF-IDF scores of the hits a query returned, sorted
// in descending score order with ties broken by ascending id.
fn score_hits(store_len: usize, hits: &[(usize, Vec<(usize, usize)>)]) -> Vec<(usize, f32)> {
    let mut scored: Vec<(usize, f32)> = hits
        .iter()
        .map(|(id, pairs)| {
            let mut s: f32 = 0.0;
            for &(tf, df) in pairs.iter() {
                s += tf as f32 * (store_len as f32 / df as f32).log10();
            }
            (*id, s)
        })
        .collect();
    scored.sort_by(|a, b| {
        match b.1.partial_cmp(&a.1).unwrap_or(std::cmp::Ordering::Equal) {
            std::cmp::Ordering::Equal => a.0.cmp(&b.0),
            other => other,
        }
    });
    scored
}

fn approx(a: f32, b: f32) -> bool {
    (a - b).abs() < 1e-4
}

// The store of the ranking scenarios: three documents.
fn abc_system() -> (Vec<FileEntry>, Indexer) {
    build_system(vec![
        ("a".to_string(), "hello world".to_string()),
        ("b".to_string(), "hello hello".to_string()),
        ("c".to_string(), "foo bar".to_string()),
    ])
}

#[test]
fn test_generate_indexer() {
    let files = create_mock_files();
    let indexer = generate_indexer(&files);
    assert!(contains_key(&indexer, "Content"));
}

#[test]
fn test_add_entry() {
    let mut indexer = Indexer { entries: Vec::new() };
    let file = FileEntry {
        id: 1,
        title: "test".to_string(),
        content: "This is a test file".to_string(),
        path: "/path/to/test".to_string(),
    };
    add_entry(&file, &mut indexer);
    assert!(contains_key(&indexer, "test"));
}

#[test]
fn test_query() {
    let files = create_mock_files();
    let indexer = generate_indexer(&files);
    let results = query(&files, &indexer, &vec!["file".to_string()]);
    assert!(!results.is_empty());
}

#[test]
fn test_term_frequency() {
    let file = FileEntry {
        id: 1,
        title: "test".to_string(),
        content: "test test test".to_string(),
        path: "/path/to/test".to_string(),
    };
    let frequency = term_frequency(&file, &"test".to_string());
    assert_eq!(frequency, 4);
}

#[test]
fn test_add_entry_twice_is_idempotent() {
    let file = FileEntry {
        id: 0,
        title: "t".to_string(),
        content: "one two one".to_string(),
        path: "t".to_string(),
    };
    let mut once = Indexer { entries: Vec::new() };
    add_entry(&file, &mut once);
    let mut twice = Indexer { entries: Vec::new() };
    add_entry(&file, &mut twice);
    add_entry(&file, &mut twice);
    assert_eq!(once.entries, twice.entries);
}

#[test]
fn test_build_twice_is_deterministic() {
    let (files, ix1) = abc_system();
    let ix2 = generate_indexer(&files);
    assert_eq!(ix1.entries, ix2.entries);
}

#[test]
fn test_index_lists_every_token_of_every_document() {
    // Every token of a document's combined stream lists that document.
    let (files, indexer) = abc_system();
    for f in files.iter() {
        let combined = format!("{} {}", f.title, f.content);
        for tok in combined.split_whitespace() {
            let ids = postings(&indexer, &tok.to_string());
            assert!(ids.contains(&f.id));
        }
    }
}

#[test]
fn test_index_lists_only_containing_documents() {
    // Every id a token lists belongs to a document that has the token.
    let (files, indexer) = abc_system();
    for (key, ids) in indexer.entries.iter() {
        for id in ids.iter() {
            let f = &files[*id];
            let combined = format!("{} {}", f.title, f.content);
            assert!(combined.split_whitespace().any(|t| t == key.as_str()));
        }
    }
}

#[test]
fn test_postings_and_document_frequency() {
    let (_files, indexer) = abc_system();
    assert_eq!(postings(&indexer, &"hello".to_string()), vec![0, 1]);
    assert_eq!(document_frequency(&indexer, &"hello".to_string()), 2);
    assert_eq!(document_frequency(&indexer, &"foo".to_string()), 1);
    assert!(postings(&indexer, &"zzz".to_string()).is_empty());
    assert_eq!(document_frequency(&indexer, &"zzz".to_string()), 0);
}

#[test]
fn test_empty_query_returns_empty() {
    let (files, indexer) = abc_system();
    let hits = query(&files, &indexer, &Vec::new());
    assert!(hits.is_empty());
}

#[test]
fn test_unknown_term_returns_empty() {
    let (files, indexer) = abc_system();
    let hits = query(&files, &indexer, &vec!["zzz".to_string()]);
    assert!(hits.is_empty());
}

#[test]
fn test_simple_ranking() {
    let (files, indexer) = abc_system();
    let hits = query(&files, &indexer, &vec!["hello".to_string()]);
    // Candidates come back in ascending id order with exact pairs.
    assert_eq!(hits.len(), 2);
    assert_eq!(hits[0], (0, vec![(1, 2)]));
    assert_eq!(hits[1], (1, vec![(2, 2)]));
    let scored = score_hits(files.len(), &hits);
    assert_eq!(scored[0].0, 1);
    assert!(approx(scored[0].1, 0.35218));
    assert_eq!(scored[1].0, 0);
    assert!(approx(scored[1].1, 0.17609));
}

#[test]
fn test_mixed_known_and_unknown_terms() {
    let (files, indexer) = abc_system();
    let hits = query(
        &files,
        &indexer,
        &vec!["hello".to_string(), "zzz".to_string(), "foo".to_string()],
    );
    assert_eq!(hits.len(), 3);
    let scored = score_hits(files.len(), &hits);
    assert_eq!(scored[0].0, 2);
    assert!(approx(scored[0].1, 0.47712));
    assert_eq!(scored[1].0, 1);
    assert!(approx(scored[1].1, 0.35218));
    assert_eq!(scored[2].0, 0);
    assert!(approx(scored[2].1, 0.17609));
}

#[test]
fn test_zero_idf_term_keeps_documents() {
    // Both documents contain "x": idf is log10(2/2) = 0, both hits stay.
    let (files, indexer) = build_system(vec![
        ("d".to_string(), "x".to_string()),
        ("e".to_string(), "x y".to_string()),
    ]);
    let hits = query(&files, &indexer, &vec!["x".to_string()]);
    assert_eq!(hits.len(), 2);
    let scored = score_hits(files.len(), &hits);
    assert_eq!(scored[0], (0, 0.0));
    assert_eq!(scored[1], (1, 0.0));
}

#[test]
fn test_duplicate_query_terms_contribute_twice() {
    let (files, indexer) = build_system(vec![
        ("d0".to_string(), "k".to_string()),
        ("d1".to_string(), "k k".to_string()),
    ]);
    let hits = query(&files, &indexer, &vec!["k".to_string(), "k".to_string()]);
    assert_eq!(hits.len(), 2);
    assert_eq!(hits[0], (0, vec![(1, 2), (1, 2)]));
    assert_eq!(hits[1], (1, vec![(2, 2), (2, 2)]));
    let scored = score_hits(files.len(), &hits);
    assert_eq!(scored[0], (0, 0.0));
    assert_eq!(scored[1], (1, 0.0));
}

#[test]
fn test_substring_match_without_token_is_not_scored() {
    // Document 0 contains "hello" only as a substring of a larger
    // token, so it is not in the posting list and is never scored.
    let (files, indexer) = build_system(vec![
        ("x0".to_string(), "hellothere".to_string()),
        ("x1".to_string(), "hello".to_string()),
    ]);
    let hits = query(&files, &indexer, &vec!["hello".to_string()]);
    assert_eq!(hits.len(), 1);
    assert_eq!(hits[0].0, 1);
    let scored = score_hits(files.len(), &hits);
    assert_eq!(scored.len(), 1);
    assert_eq!(scored[0].0, 1);
    assert!(approx(scored[0].1, (2.0f32).log10()));
}

#[test]
fn test_result_ordering_is_descending_with_id_ties() {
    let (files, indexer) = abc_system();
    let hits = query(
        &files,
        &indexer,
        &vec!["hello".to_string(), "foo".to_string(), "bar".to_string()],
    );
    let scored = score_hits(files.len(), &hits);
    for w in scored.windows(2) {
        assert!(w[0].1 > w[1].1 || (w[0].1 == w[1].1 && w[0].0 < w[1].0));
    }
}

#[test]
fn test_adding_a_term_never_lowers_scores() {
    let (files, indexer) = abc_system();
    let short = query(&files, &indexer, &vec!["hello".to_string()]);
    let long = query(
        &files,
        &indexer,
        &vec!["hello".to_string(), "foo".to_string()],
    );
    let short_scored = score_hits(files.len(), &short);
    let long_scored = score_hits(files.len(), &long);
    for (id, s) in short_scored.iter() {
        let after = long_scored.iter().find(|(i, _)| i == id).unwrap().1;
        assert!(after >= *s);
    }
}

#[test]
fn test_scores_are_nonnegative_and_df_bounded() {
    let (files, indexer) = abc_system();
    let hits = query(
        &files,
        &indexer,
        &vec!["hello".to_string(), "foo".to_string(), "bar".to_string(), "world".to_string()],
    );
    for (_id, pairs) in hits.iter() {
        for &(_tf, df) in pairs.iter() {
            assert!(1 <= df && df <= files.len());
        }
    }
    for (_id, s) in score_hits(files.len(), &hits).iter() {
        assert!(*s >= 0.0);
    }
}

#[test]
fn test_run_query_splits_raw_input() {
    let (files, indexer) = abc_system();
    let hits = run_query(&files, &indexer, "  hello \t foo ");
    assert_eq!(hits.len(), 3);
    let empty = run_query(&files, &indexer, "   ");
    assert!(empty.is_empty());
}
