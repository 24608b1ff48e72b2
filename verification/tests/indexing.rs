use symbol_index::path::SourcePath;
use symbol_index::recognize::SymbolKind;
use symbol_index::scan::{add_record, scan_file, Location, SymbolRecord};
use symbol_index::store::{state_initialize, SourceFile, State, Workspace};

fn path(parts: &[&str]) -> SourcePath {
    SourcePath::from_components(parts.iter().map(|part| part.to_string()).collect())
}

fn file(parts: &[&str], lines: &[&str]) -> SourceFile {
    SourceFile { path: path(parts), lines: lines.iter().map(|line| line.to_string()).collect() }
}

fn workspace() -> Workspace {
    Workspace { root: path(&["/", "ws"]), library_root: None }
}

fn indexed(files: Vec<SourceFile>) -> State {
    let mut state = State::new(workspace());
    state_initialize(&mut state, &files);
    state
}

fn record(name: &str, kind: SymbolKind, container: Option<&str>, at: &[&str], line: usize) -> SymbolRecord {
    SymbolRecord {
        name: name.to_string(),
        name_lower: name.to_lowercase(),
        container: container.map(|c| c.to_string()),
        kind,
        location: Location { file: path(at), line, column: 0 },
    }
}

#[test]
fn struct_with_field_gives_two_records() {
    let at = ["/", "ws", "src", "lib.rs"];
    let state = indexed(vec![file(&at, &["", "", "pub struct Foo {", "    pub bar: i32,", "}"])]);
    assert_eq!(
        state.symbols,
        vec![
            record("Foo", SymbolKind::Struct, None, &at, 2),
            record("bar", SymbolKind::Field, Some("Foo"), &at, 3),
        ]
    );
    assert_eq!(state.symbols_in_file(&path(&at)), Some(state.symbols.clone()));
}

#[test]
fn lower_case_name_is_kept_with_the_record() {
    let at = ["/", "ws", "a.rs"];
    let state = indexed(vec![file(&at, &["struct ÄbC;"])]);
    assert_eq!(state.symbols.len(), 1);
    assert_eq!(state.symbols[0].name, "ÄbC");
    assert_eq!(state.symbols[0].name_lower, "äbc");
    let state = indexed(vec![file(&at, &["fn FooBAR() {}", "fn İ() {}", "fn plain() {}"])]);
    let lowered: Vec<&str> = state.symbols.iter().map(|r| r.name_lower.as_str()).collect();
    assert_eq!(lowered, vec!["foobar", "i\u{307}", "plain"]);
}

#[test]
fn scan_file_reads_every_line() {
    let at = ["/", "anywhere", "x.rs"];
    let lines: Vec<String> =
        ["fn a() {}", "", "  enum E {", "  pub v: u8,", "}", "pub w: u8,", "struct S;", "pub z: S,"]
            .iter()
            .map(|line| line.to_string())
            .collect();
    assert_eq!(
        scan_file(&path(&at), &lines),
        vec![
            record("a", SymbolKind::Function, None, &at, 0),
            record("E", SymbolKind::Enum, None, &at, 2),
            record("v", SymbolKind::Field, Some("E"), &at, 3),
            record("w", SymbolKind::Field, Some("E"), &at, 5),
            record("S", SymbolKind::Struct, None, &at, 6),
            record("z", SymbolKind::Field, Some("S"), &at, 7),
        ]
    );
}

#[test]
fn container_does_not_carry_over_to_the_next_file() {
    let state = indexed(vec![
        file(&["/", "ws", "a.rs"], &["struct A {"]),
        file(&["/", "ws", "b.rs"], &["pub x: u8,"]),
    ]);
    assert_eq!(state.symbols.len(), 2);
    assert_eq!(state.symbols[1].name, "x");
    assert_eq!(state.symbols[1].container, None);
}

#[test]
fn add_record_gives_the_position() {
    let mut table = Vec::new();
    let at = ["/", "ws", "a.rs"];
    assert_eq!(add_record(&mut table, record("a", SymbolKind::Function, None, &at, 0)), 0);
    assert_eq!(add_record(&mut table, record("b", SymbolKind::Function, None, &at, 1)), 1);
    assert_eq!(table.len(), 2);
    assert_eq!(table[1].name, "b");
}

#[test]
fn symbols_of_a_file_are_in_ascending_order_of_line() {
    let at = ["/", "ws", "src", "lib.rs"];
    let state = indexed(vec![
        file(&["/", "ws", "other.rs"], &["fn z() {}", "fn y() {}"]),
        file(&at, &["fn c() {}", "// nothing", "struct B;", "pub a: u8,", "mod m;"]),
    ]);
    let found = state.symbols_in_file(&path(&at)).unwrap();
    let lines: Vec<usize> = found.iter().map(|r| r.location.line).collect();
    assert_eq!(lines, vec![0, 2, 3, 4]);
    let names: Vec<&str> = found.iter().map(|r| r.name.as_str()).collect();
    assert_eq!(names, vec!["c", "B", "a", "m"]);
    assert!(found.iter().all(|r| r.location.column == 0));
}

#[test]
fn unknown_file_differs_from_empty_file() {
    let empty = ["/", "ws", "empty.rs"];
    let state = indexed(vec![file(&empty, &["// no declarations", ""])]);
    assert_eq!(state.symbols_in_file(&path(&empty)), Some(Vec::new()));
    assert_eq!(state.symbols_in_file(&path(&["/", "ws", "missing.rs"])), None);
    assert_eq!(state.completion(&path(&empty)), Some(Vec::new()));
    assert_eq!(state.completion(&path(&["/", "ws", "missing.rs"])), None);
}

#[test]
fn completion_offers_every_symbol_of_the_file() {
    let at = ["/", "ws", "src", "lib.rs"];
    let state = indexed(vec![
        file(&["/", "ws", "other.rs"], &["fn elsewhere() {}"]),
        file(&at, &["pub struct Foo {", "pub bar: i32,", "}", "fn run() {}"]),
    ]);
    assert_eq!(
        state.completion(&path(&at)),
        Some(vec!["Foo".to_string(), "bar".to_string(), "run".to_string()])
    );
}

#[test]
fn test_module_file_yields_nothing() {
    let at = ["/", "ws", "src", "tests.rs"];
    let state = indexed(vec![file(&at, &["pub struct Foo {", "pub bar: i32,", "fn t() {}"])]);
    assert!(state.symbols.is_empty());
    assert_eq!(state.symbols_in_file(&path(&at)), None);
}

#[test]
fn files_below_denied_directories_yield_nothing() {
    let state = indexed(vec![
        file(&["/", "ws", "target", "debug", "build", "gen.rs"], &["fn generated() {}"]),
        file(&["/", "ws", "sub", ".git", "hook.rs"], &["fn hook() {}"]),
        file(&["/", "ws", "sub", "tests", "deep", "er", "case.rs"], &["fn case() {}"]),
        file(&["/", "ws", "sub", "kept.rs"], &["fn kept() {}"]),
    ]);
    let names: Vec<&str> = state.symbols.iter().map(|r| r.name.as_str()).collect();
    assert_eq!(names, vec!["kept"]);
}

#[test]
fn files_outside_the_roots_yield_nothing() {
    let state = indexed(vec![
        file(&["/", "elsewhere", "a.rs"], &["fn a() {}"]),
        file(&["/", "ws"], &["fn b() {}"]),
        file(&["/", "ws", "notes.txt"], &["fn c() {}"]),
    ]);
    assert!(state.symbols.is_empty());
    assert!(state.symbol_lookup.is_empty());
}

#[test]
fn library_root_is_indexed_too() {
    let ws = Workspace {
        root: path(&["/", "ws"]),
        library_root: Some(path(&["/", "toolchain", "library"])),
    };
    let mut state = State::new(ws);
    state_initialize(
        &mut state,
        &vec![
            file(&["/", "toolchain", "library", "core", "src", "lib.rs"], &["pub fn core_fn() {}"]),
            file(&["/", "toolchain", "library", "stdarch", "x.rs"], &["pub fn arch() {}"]),
            file(&["/", "ws", "main.rs"], &["fn main() {}"]),
        ],
    );
    let names: Vec<&str> = state.symbols.iter().map(|r| r.name.as_str()).collect();
    assert_eq!(names, vec!["core_fn", "main"]);
}

#[test]
fn a_path_listed_twice_is_indexed_once() {
    let at = ["/", "ws", "a.rs"];
    let state = indexed(vec![
        file(&at, &["fn first() {}"]),
        file(&["/", "ws", "b.rs"], &["fn other() {}"]),
        file(&at, &["fn second() {}", "fn third() {}"]),
    ]);
    let names: Vec<&str> = state.symbols.iter().map(|r| r.name.as_str()).collect();
    assert_eq!(names, vec!["first", "other"]);
    assert_eq!(state.symbol_lookup.len(), 2);
}

#[test]
fn index_file_says_whether_it_scanned() {
    let mut state = State::new(workspace());
    assert!(state.index_file(&file(&["/", "ws", "a.rs"], &["fn a() {}"])));
    assert!(!state.index_file(&file(&["/", "ws", "a.rs"], &["fn again() {}"])));
    assert!(!state.index_file(&file(&["/", "ws", "tests.rs"], &["fn t() {}"])));
    assert!(state.index_file(&file(&["/", "ws", "b.rs"], &[])));
    assert_eq!(state.symbols.len(), 1);
    assert_eq!(state.find_file(&path(&["/", "ws", "b.rs"])), Some(1));
    assert_eq!(state.find_file(&path(&["/", "ws", "c.rs"])), None);
}

#[test]
fn per_file_index_lists_the_ids_of_each_file() {
    let state = indexed(vec![
        file(&["/", "ws", "a.rs"], &["fn a1() {}", "fn a2() {}"]),
        file(&["/", "ws", "b.rs"], &[]),
        file(&["/", "ws", "c.rs"], &["fn c1() {}"]),
    ]);
    assert_eq!(state.symbol_lookup.len(), 3);
    assert_eq!(state.symbol_lookup[0].ids, vec![0, 1]);
    assert_eq!(state.symbol_lookup[1].ids, Vec::<usize>::new());
    assert_eq!(state.symbol_lookup[2].ids, vec![2]);
    assert_eq!(state.symbol_lookup[2].path, path(&["/", "ws", "c.rs"]));
}

#[test]
fn name_index_lists_records_in_the_order_found() {
    let state = indexed(vec![
        file(&["/", "ws", "a.rs"], &["fn new() {}", "struct Other;"]),
        file(&["/", "ws", "b.rs"], &["pub fn new() -> Self {", "fn New() {}"]),
    ]);
    let found = state.symbols_named("new");
    assert_eq!(found.len(), 2);
    assert_eq!(found[0].location.file, path(&["/", "ws", "a.rs"]));
    assert_eq!(found[1].location.file, path(&["/", "ws", "b.rs"]));
    assert_eq!(state.symbols_named("Other").len(), 1);
    assert!(state.symbols_named("absent").is_empty());
    assert!(state.symbols_named("ne").is_empty());
}

#[test]
fn initialising_again_replaces_the_store() {
    let mut state = State::new(workspace());
    state_initialize(&mut state, &vec![file(&["/", "ws", "a.rs"], &["fn old() {}"])]);
    assert_eq!(state.symbols.len(), 1);
    state_initialize(&mut state, &vec![file(&["/", "ws", "b.rs"], &["fn new_one() {}", "fn two() {}"])]);
    let names: Vec<&str> = state.symbols.iter().map(|r| r.name.as_str()).collect();
    assert_eq!(names, vec!["new_one", "two"]);
    assert_eq!(state.symbols_in_file(&path(&["/", "ws", "a.rs"])), None);
    assert!(state.symbols_named("old").is_empty());
    assert_eq!(state.init.root, path(&["/", "ws"]));
}

#[test]
fn indexing_again_in_another_order_gives_the_same_records() {
    let a = || file(&["/", "ws", "a.rs"], &["struct A {", "pub x: u8,", "}"]);
    let b = || file(&["/", "ws", "b.rs"], &["fn b() {}", "pub y: u8,"]);
    let c = || file(&["/", "ws", "sub", "c.rs"], &["enum C {", "pub x: u8,"]);
    let describe = |state: &State| {
        let mut all: Vec<String> = state.symbols.iter().map(|r| format!("{r:?}")).collect();
        all.sort();
        all
    };
    let first = indexed(vec![a(), b(), c()]);
    let second = indexed(vec![c(), a(), b()]);
    let again = indexed(vec![a(), b(), c()]);
    assert_eq!(first.symbols.len(), 6);
    assert_eq!(describe(&first), describe(&second));
    assert_eq!(first.symbols, again.symbols);
}

#[test]
fn empty_store_knows_no_file() {
    let state = State::new(workspace());
    assert!(state.symbols.is_empty());
    assert_eq!(state.symbols_in_file(&path(&["/", "ws", "a.rs"])), None);
    assert!(state.workspace_search("").is_empty());
    assert!(state.workspace_search("x").is_empty());
    assert!(state.symbols_named("x").is_empty());
}
