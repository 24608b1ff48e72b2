use symbol_index::path::SourcePath;
use symbol_index::query::{record_matches, score_of, OUT_OF_ROOT_PENALTY};
use symbol_index::rank::sort_ranked;
use symbol_index::recognize::SymbolKind;
use symbol_index::scan::{Location, SymbolRecord};
use symbol_index::store::{state_initialize, SourceFile, State, Workspace};

fn path(parts: &[&str]) -> SourcePath {
    SourcePath::from_components(parts.iter().map(|part| part.to_string()).collect())
}

fn file(parts: &[&str], lines: &[&str]) -> SourceFile {
    SourceFile { path: path(parts), lines: lines.iter().map(|line| line.to_string()).collect() }
}

fn record(name: &str, at: &[&str]) -> SymbolRecord {
    SymbolRecord {
        name: name.to_string(),
        name_lower: name.to_lowercase(),
        container: None,
        kind: SymbolKind::Function,
        location: Location { file: path(at), line: 0, column: 0 },
    }
}

fn two_roots(files: Vec<SourceFile>) -> State {
    let ws = Workspace { root: path(&["/", "ws"]), library_root: Some(path(&["/", "lib"])) };
    let mut state = State::new(ws);
    state_initialize(&mut state, &files);
    state
}

fn names(found: &[SymbolRecord]) -> Vec<&str> {
    found.iter().map(|r| r.name.as_str()).collect()
}

fn chars(text: &str) -> Vec<char> {
    text.chars().collect()
}

#[test]
fn empty_query_returns_every_record() {
    let state = two_roots(vec![
        file(&["/", "ws", "a.rs"], &["fn zeta() {}", "struct Alpha;", "pub f: u8,"]),
        file(&["/", "lib", "b.rs"], &["fn beta() {}"]),
    ]);
    let found = state.workspace_search("");
    assert_eq!(found.len(), state.symbols.len());
    assert_eq!(found, state.symbols);
    assert_eq!(found.len(), 4);
}

#[test]
fn search_keeps_exactly_the_matching_records() {
    let state = two_roots(vec![file(
        &["/", "ws", "a.rs"],
        &["fn foo() {}", "fn bar() {}", "fn my_foo() {}", "fn FOO() {}", "fn fo() {}", "fn Foo_x() {}"],
    )]);
    let mut found: Vec<String> =
        state.workspace_search("foo").iter().map(|r| r.name.clone()).collect();
    found.sort();
    assert_eq!(found, vec!["FOO", "Foo_x", "foo", "my_foo"]);
}

#[test]
fn upper_case_query_matches_through_lower_case() {
    let state = two_roots(vec![file(&["/", "ws", "a.rs"], &["fn foobar() {}", "fn other() {}"])]);
    assert_eq!(names(&state.workspace_search("FOO")), vec!["foobar"]);
    assert_eq!(names(&state.workspace_search("Bar")), vec!["foobar"]);
    assert!(state.workspace_search("baz").is_empty());
}

#[test]
fn results_come_by_closeness_of_length() {
    let state = two_roots(vec![file(
        &["/", "ws", "a.rs"],
        &["fn parse_all_items() {}", "fn parse() {}", "fn parser() {}", "fn reparse() {}"],
    )]);
    assert_eq!(
        names(&state.workspace_search("parse")),
        vec!["parse", "parser", "reparse", "parse_all_items"]
    );
}

#[test]
fn equal_scores_keep_the_order_of_the_scan() {
    let state = two_roots(vec![
        file(&["/", "ws", "b.rs"], &["fn get_b() {}", "fn get_a() {}"]),
        file(&["/", "ws", "a.rs"], &["fn get_c() {}", "fn get() {}", "fn a_get() {}"]),
    ]);
    assert_eq!(
        names(&state.workspace_search("get")),
        vec!["get", "get_b", "get_a", "get_c", "a_get"]
    );
}

#[test]
fn results_outside_the_workspace_folder_come_last() {
    let state = two_roots(vec![
        file(&["/", "lib", "core.rs"], &["fn map() {}", "fn map_err() {}"]),
        file(&["/", "ws", "a.rs"], &["fn map_all_the_things_at_once() {}", "fn remap() {}"]),
    ]);
    assert_eq!(
        names(&state.workspace_search("map")),
        vec!["remap", "map_all_the_things_at_once", "map", "map_err"]
    );
}

#[test]
fn a_long_name_in_the_workspace_still_comes_before_the_library() {
    let long = "x".repeat(12000);
    let declaration = format!("fn {long}() {{}}");
    let state = two_roots(vec![
        file(&["/", "lib", "core.rs"], &["fn x() {}"]),
        file(&["/", "ws", "a.rs"], &[declaration.as_str()]),
    ]);
    let found = state.workspace_search("x");
    assert_eq!(found.len(), 2);
    assert_eq!(found[0].name, long);
    assert_eq!(found[1].name, "x");
}

#[test]
fn score_is_the_excess_length_in_bytes() {
    let root = path(&["/", "ws"]);
    let inside = ["/", "ws", "a.rs"];
    assert_eq!(score_of(&record("Foobar", &inside), &root, "Foo"), 3);
    assert_eq!(score_of(&record("Foo", &inside), &root, "Foo"), 0);
    assert_eq!(score_of(&record("Fo", &inside), &root, "Foo"), 0);
    assert_eq!(score_of(&record("Größe", &inside), &root, "G"), 6);
    assert_eq!(score_of(&record("abc", &inside), &root, ""), 3);
}

#[test]
fn score_outside_the_workspace_folder_carries_the_penalty() {
    let root = path(&["/", "ws"]);
    let outside = ["/", "lib", "a.rs"];
    assert_eq!(OUT_OF_ROOT_PENALTY, 1u128 << 64);
    assert_eq!(score_of(&record("Foobar", &outside), &root, "Foo"), OUT_OF_ROOT_PENALTY + 3);
    assert_eq!(score_of(&record("Fo", &outside), &root, "Foo"), OUT_OF_ROOT_PENALTY);
    assert_eq!(score_of(&record("Foo", &["/", "wsx", "a.rs"]), &root, "Foo"), OUT_OF_ROOT_PENALTY);
    assert_eq!(score_of(&record("Foo", &["/", "ws"]), &root, "Foo"), 0);
}

#[test]
fn record_matches_by_prefix_substring_or_lower_case() {
    let at = ["/", "ws", "a.rs"];
    let hit = |name: &str, query: &str| {
        record_matches(&record(name, &at), &chars(query), &chars(&query.to_lowercase()))
    };
    assert!(hit("FooBar", "Foo"));
    assert!(hit("FooBar", "oBa"));
    assert!(hit("FooBar", "foobar"));
    assert!(hit("FooBar", "BAR"));
    assert!(hit("FooBar", ""));
    assert!(!hit("FooBar", "Baz"));
    assert!(!hit("Foo", "FooBar"));
    assert!(hit("İ", "i\u{307}"));
}

#[test]
fn a_shorter_name_can_match_a_longer_query() {
    let state = two_roots(vec![file(
        &["/", "ws", "a.rs"],
        &["fn İ() {}", "fn İx() {}", "fn ix() {}"],
    )]);
    assert_eq!(names(&state.workspace_search("i\u{307}")), vec!["İ", "İx"]);
}

#[test]
fn sort_ranked_orders_by_score_then_id() {
    assert_eq!(
        sort_ranked(&vec![(3, 0), (1, 4), (1, 2), (0, 9), (3, 1), (1u128 << 64, 3), (2, 5)]),
        vec![(0, 9), (1, 2), (1, 4), (2, 5), (3, 0), (3, 1), (1u128 << 64, 3)]
    );
    assert_eq!(sort_ranked(&Vec::new()), Vec::new());
    assert_eq!(sort_ranked(&vec![(7, 7)]), vec![(7, 7)]);
}

#[test]
fn search_over_many_records_agrees_with_a_plain_filter() {
    let lines: Vec<String> = (0..500).map(|i| format!("fn item_{}_{}() {{}}", i % 7, i)).collect();
    let borrowed: Vec<&str> = lines.iter().map(|line| line.as_str()).collect();
    let state = two_roots(vec![file(&["/", "ws", "big.rs"], &borrowed)]);
    assert_eq!(state.symbols.len(), 500);
    let found = state.workspace_search("_3_");
    let mut expected: Vec<&SymbolRecord> =
        state.symbols.iter().filter(|r| r.name.contains("_3_")).collect();
    expected.sort_by_key(|r| r.name.len());
    assert_eq!(found.len(), expected.len());
    assert!(found.iter().zip(expected.iter()).all(|(a, b)| &a == b));
    assert!(found.windows(2).all(|pair| pair[0].name.len() <= pair[1].name.len()));
}
