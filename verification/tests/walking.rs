use symbol_index::path::SourcePath;
use symbol_index::store::Workspace;
use symbol_index::walk::{DirEntry, Walker};

fn path(parts: &[&str]) -> SourcePath {
    SourcePath::from_components(parts.iter().map(|part| part.to_string()).collect())
}

fn dir(name: &str) -> DirEntry {
    DirEntry { name: name.to_string(), is_file: false }
}

fn plain(name: &str) -> DirEntry {
    DirEntry { name: name.to_string(), is_file: true }
}

fn listing(at: &SourcePath) -> Option<Vec<DirEntry>> {
    let at: Vec<&str> = at.components.iter().map(|part| part.as_str()).collect();
    match at.as_slice() {
        ["/", "ws"] => Some(vec![
            plain("main.rs"),
            plain("README.md"),
            dir("src"),
            dir("target"),
            dir(".git"),
            dir("locked"),
        ]),
        ["/", "ws", "src"] => Some(vec![plain("lib.rs"), plain("tests.rs"), dir("tests"), dir("deep")]),
        ["/", "ws", "src", "deep"] => Some(vec![plain("inner.rs"), plain(".rs"), dir("scenes")]),
        ["/", "lib"] => Some(vec![dir("core"), dir("stdarch"), dir("backtrace")]),
        ["/", "lib", "core"] => Some(vec![plain("lib.rs")]),
        ["/", "ws", "locked"] => None,
        other => panic!("the walk listed {other:?}"),
    }
}

fn walk(workspace: &Workspace) -> Vec<SourcePath> {
    let mut walker = Walker::new(workspace);
    while let Some(at) = walker.next_directory() {
        match listing(&at) {
            Some(entries) => walker.record_entries(&entries),
            None => {},
        }
    }
    assert!(walker.is_done());
    let mut files = walker.into_files();
    files.sort_by_key(|file| file.components.clone());
    files
}

#[test]
fn walk_finds_the_eligible_files_of_both_roots() {
    let ws = Workspace { root: path(&["/", "ws"]), library_root: Some(path(&["/", "lib"])) };
    assert_eq!(
        walk(&ws),
        vec![
            path(&["/", "lib", "core", "lib.rs"]),
            path(&["/", "ws", "main.rs"]),
            path(&["/", "ws", "src", "deep", "inner.rs"]),
            path(&["/", "ws", "src", "lib.rs"]),
        ]
    );
}

#[test]
fn walk_without_library_root() {
    let ws = Workspace { root: path(&["/", "ws"]), library_root: None };
    assert_eq!(
        walk(&ws),
        vec![
            path(&["/", "ws", "main.rs"]),
            path(&["/", "ws", "src", "deep", "inner.rs"]),
            path(&["/", "ws", "src", "lib.rs"]),
        ]
    );
}

#[test]
fn walk_from_a_denied_root_lists_nothing() {
    let ws = Workspace { root: path(&["/", "home", "target"]), library_root: None };
    let mut walker = Walker::new(&ws);
    assert_eq!(walker.next_directory(), None);
    assert!(walker.is_done());
    assert!(walker.into_files().is_empty());
}

#[test]
fn next_directory_takes_the_last_pending_first() {
    let ws = Workspace { root: path(&["/", "ws"]), library_root: Some(path(&["/", "lib"])) };
    let mut walker = Walker::new(&ws);
    assert!(!walker.is_done());
    assert_eq!(walker.next_directory(), Some(path(&["/", "lib"])));
    assert_eq!(walker.current, Some(path(&["/", "lib"])));
    walker.record_entries(&vec![dir("a"), dir("tests"), plain("x.rs"), plain("tests.rs")]);
    assert_eq!(walker.current, None);
    assert_eq!(walker.files, vec![path(&["/", "lib", "x.rs"])]);
    assert_eq!(
        walker.pending,
        vec![path(&["/", "ws"]), path(&["/", "lib", "a"]), path(&["/", "lib", "tests"])]
    );
    assert_eq!(walker.next_directory(), Some(path(&["/", "lib", "a"])));
    assert_eq!(walker.pending, vec![path(&["/", "ws"])]);
}

#[test]
fn entries_without_a_listed_directory_are_ignored() {
    let ws = Workspace { root: path(&["/", "ws"]), library_root: None };
    let mut walker = Walker::new(&ws);
    walker.record_entries(&vec![dir("a"), plain("x.rs")]);
    assert!(walker.files.is_empty());
    assert_eq!(walker.pending, vec![path(&["/", "ws"])]);
    assert_eq!(walker.next_directory(), Some(path(&["/", "ws"])));
    walker.record_entries(&vec![plain("x.rs")]);
    walker.record_entries(&vec![plain("y.rs")]);
    assert_eq!(walker.files, vec![path(&["/", "ws", "x.rs"])]);
}
