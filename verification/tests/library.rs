use text_index::index::Document;
use text_index::lines::parse_lines;
use text_index::lines::render_line;
use text_index::pipeline::plan_build;
use text_index::pipeline::progress_report_due;
use text_index::pipeline::worker_continues;
use text_index::pipeline::WorkItem;
use text_index::pipeline::QUEUE_CAPACITY;
use text_index::pipeline::WORKER_COUNT;
use text_index::query::strip_term;
use text_index::store::PersistentMultiMap;
use text_index::tokenize::tokenize;

fn sorted(mut v: Vec<String>) -> Vec<String> {
    v.sort();
    v
}

fn strings(v: &[&str]) -> Vec<String> {
    v.iter().map(|s| s.to_string()).collect()
}

#[test]
fn tokenize_splits_on_nonword_runs() {
    let tokens = sorted(tokenize("foo-bar baz_qux"));
    assert_eq!(tokens, strings(&["bar", "baz_qux", "foo"]));
}

#[test]
fn tokenize_collapses_repeats_and_drops_empties() {
    assert_eq!(tokenize("a a,a"), strings(&["a"]));
    assert_eq!(tokenize(""), Vec::<String>::new());
    assert_eq!(tokenize("--- ;;;"), Vec::<String>::new());
    assert_eq!(sorted(tokenize("one  two\nthree!one")), strings(&["one", "three", "two"]));
}

#[test]
fn tokenize_keeps_token_case() {
    assert_eq!(sorted(tokenize("Apple apple")), strings(&["Apple", "apple"]));
}

#[test]
fn indexed_tokens_find_their_document() {
    let mut map = PersistentMultiMap::new("idx".to_string());
    map.index_document("d.txt", "alpha beta_2 gamma");
    for token in ["alpha", "beta_2", "gamma"] {
        let postings = map.get(token);
        assert!(postings.contains(&"d.txt".to_string()), "missing for {}", token);
    }
    assert!(map.get("delta").is_empty());
}

#[test]
fn two_document_corpus_queries() {
    let mut map = PersistentMultiMap::new("idx".to_string());
    map.index_document("a.txt", "apple banana");
    map.index_document("b.txt", "apple cherry");

    let apple = sorted(map.search(&strings(&["apple"])));
    assert_eq!(apple, strings(&["a.txt", "b.txt"]));

    let apple_not_cherry = map.search(&strings(&["apple", "-cherry"]));
    assert_eq!(apple_not_cherry, strings(&["a.txt"]));

    let banana_and_cherry = map.search(&strings(&["banana", "cherry"]));
    assert_eq!(banana_and_cherry, Vec::<String>::new());
}

#[test]
fn empty_term_list_yields_no_output() {
    let mut map = PersistentMultiMap::new("idx".to_string());
    map.index_document("a.txt", "apple banana");
    assert_eq!(map.search(&Vec::new()), Vec::<String>::new());
}

#[test]
fn empty_corpus_summary_reports_zero_keys() {
    let map = PersistentMultiMap::new("idx".to_string());
    assert_eq!(map.key_count(), 0);
}

#[test]
fn case_folded_keys_share_one_posting_set() {
    let mut map = PersistentMultiMap::new("idx".to_string());
    map.index_document("upper.txt", "Apple");
    map.index_document("lower.txt", "apple");
    let found = sorted(map.search(&strings(&["apple"])));
    assert_eq!(found, strings(&["lower.txt", "upper.txt"]));
    let found_upper = sorted(map.search(&strings(&["APPLE"])));
    assert_eq!(found_upper, strings(&["lower.txt", "upper.txt"]));
    assert_eq!(map.key_count(), 1);
}

#[test]
fn reindexing_leaves_query_results_unchanged() {
    let corpus = vec![
        Document { path: "a.txt".to_string(), text: "apple banana".to_string() },
        Document { path: "b.txt".to_string(), text: "apple cherry".to_string() },
    ];
    let mut map = PersistentMultiMap::new("idx".to_string());
    map.index_corpus(&corpus);
    let queries: Vec<Vec<String>> = vec![
        strings(&["apple"]),
        strings(&["apple", "-cherry"]),
        strings(&["banana", "cherry"]),
        strings(&["-apple"]),
    ];
    let before: Vec<Vec<String>> = queries.iter().map(|q| sorted(map.search(q))).collect();
    map.index_corpus(&corpus);
    let after: Vec<Vec<String>> = queries.iter().map(|q| sorted(map.search(q))).collect();
    assert_eq!(before, after);
}

#[test]
fn reads_deduplicate_repeated_postings() {
    let mut map = PersistentMultiMap::new("idx".to_string());
    map.add("word", "doc.txt");
    map.add("word", "doc.txt");
    assert_eq!(map.get("word"), strings(&["doc.txt"]));
}

#[test]
fn get_path_folds_only_the_storage_key() {
    let map = PersistentMultiMap::new("idx".to_string());
    assert_eq!(map.get_path("MiXeD"), "idx/mixed".to_string());
    assert_eq!(map.get_path("plain"), "idx/plain".to_string());
}

#[test]
fn first_exclusion_term_seeds_the_accumulator() {
    let mut map = PersistentMultiMap::new("idx".to_string());
    map.index_document("a.txt", "apple banana");
    map.index_document("b.txt", "apple cherry");
    let seeded = sorted(map.search(&strings(&["-apple"])));
    assert_eq!(seeded, strings(&["a.txt", "b.txt"]));
}

#[test]
fn parse_lines_splits_newline_terminated_records() {
    assert_eq!(parse_lines("a.txt\nb.txt\n"), strings(&["a.txt", "b.txt"]));
    assert_eq!(parse_lines(""), Vec::<String>::new());
    assert_eq!(parse_lines("a\n\nb"), strings(&["a", "", "b"]));
    assert_eq!(parse_lines("tail"), strings(&["tail"]));
}

#[test]
fn render_line_appends_one_newline() {
    assert_eq!(render_line("doc.txt"), "doc.txt\n".to_string());
    assert_eq!(parse_lines(&render_line("doc.txt")), strings(&["doc.txt"]));
}

#[test]
fn loaded_posting_file_reads_deduplicated() {
    let mut map = PersistentMultiMap::new("idx".to_string());
    map.load_key("word", "a.txt\nb.txt\na.txt\n");
    assert_eq!(sorted(map.get("word")), strings(&["a.txt", "b.txt"]));
    map.load_key("word", "c.txt\n");
    assert_eq!(map.get("word"), strings(&["c.txt"]));
    assert_eq!(map.key_count(), 1);
}

#[test]
fn strip_term_reads_the_negation_marker() {
    assert_eq!(strip_term("apple"), (true, "apple".to_string()));
    assert_eq!(strip_term("-cherry"), (false, "cherry".to_string()));
    assert_eq!(strip_term("-"), (false, "".to_string()));
    assert_eq!(strip_term(""), (true, "".to_string()));
}

#[test]
fn plan_build_sends_one_shutdown_per_worker() {
    let paths = strings(&["one.txt", "two.txt"]);
    let items = plan_build(&paths, 3);
    assert_eq!(items.len(), 5);
    for (i, item) in items.iter().enumerate() {
        match item {
            WorkItem::Document { sequence, path } => {
                assert!(i < 2);
                assert_eq!(*sequence, i + 1);
                assert_eq!(*path, paths[i]);
                assert!(worker_continues(item));
            }
            WorkItem::Shutdown => {
                assert!(i >= 2);
                assert!(!worker_continues(item));
            }
        }
    }
}

#[test]
fn pipeline_constants_and_progress() {
    assert_eq!(WORKER_COUNT, 10);
    assert_eq!(QUEUE_CAPACITY, 100);
    assert!(progress_report_due(100));
    assert!(progress_report_due(200));
    assert!(!progress_report_due(101));
    assert!(!progress_report_due(1));
}
