//! Changed lines and the symbols that they touch, and what is kept of parsed files.
use pyrisk::git::{
    changed_files, changed_symbols, drop_excluded, find_default_branch, ranges_overlap,
    touched_symbols, Hunk, SourceFile,
};
use pyrisk::index::{dirs_cache_path, entry, lookup};
use pyrisk::parser::{FileSymbols, Symbol};

fn hunk(path: &str, new_start: u32, new_lines: u32) -> Hunk {
    Hunk { path: path.to_string(), new_start, new_lines }
}

fn sym(name: &str, line: usize, end_line: usize) -> Symbol {
    Symbol {
        module: "m".to_string(),
        qualname: name.to_string(),
        file: format!("/repo/{}/m.py", name),
        line,
        end_line,
    }
}

fn names(symbols: &[Symbol]) -> Vec<&str> {
    symbols.iter().map(|s| s.qualname.as_str()).collect()
}

#[test]
fn hunks_are_gathered_by_file() {
    let hunks = vec![
        hunk("/repo/a.py", 3, 2),
        hunk("/repo/b.txt", 1, 1),
        hunk("/repo/c.py", 10, 1),
        hunk("/repo/a.py", 20, 0),
        hunk("/repo/d.py", u32::MAX, u32::MAX),
    ];
    let added = vec!["/repo/c.py".to_string(), "/repo/new.py".to_string(), "/repo/new.md".to_string()];
    let files = changed_files(&hunks, &added);
    assert_eq!(files.len(), 4);
    assert_eq!(files.get("/repo/a.py").unwrap(), &vec![(3, 4), (20, 20)]);
    assert_eq!(files.get("/repo/c.py").unwrap(), &vec![(10, 10)]);
    assert_eq!(files.get("/repo/new.py").unwrap(), &vec![(1, 999999)]);
    assert_eq!(files.get("/repo/d.py").unwrap(), &vec![(4294967295, 8589934589)]);
    assert!(files.get("/repo/b.txt").is_none());
    assert!(files.get("/repo/new.md").is_none());
    assert_eq!(changed_files(&[], &[]).len(), 0);
}

#[test]
fn ranges_overlap_at_their_ends() {
    let changed = vec![(5, 7), (20, 20)];
    assert!(!ranges_overlap(&changed, 1, 4));
    assert!(ranges_overlap(&changed, 1, 5));
    assert!(ranges_overlap(&changed, 6, 6));
    assert!(ranges_overlap(&changed, 7, 9));
    assert!(!ranges_overlap(&changed, 8, 19));
    assert!(ranges_overlap(&changed, 20, 30));
    assert!(!ranges_overlap(&[], 1, 100));
}

#[test]
fn touched_symbols_are_found_in_order() {
    let defined = vec![sym("a", 1, 4), sym("b", 6, 9), sym("c", 11, 12)];
    assert_eq!(names(&touched_symbols(&defined, &[(2, 2), (12, 15)])), vec!["a", "c"]);
    assert!(touched_symbols(&defined, &[(5, 5), (10, 10)]).is_empty());
    // A new file is changed up to the line that stands for its end.
    let new = vec![sym("f", 1, 2), sym("g", 999999, 1000001), sym("h", 1000000, 1000001)];
    assert_eq!(names(&touched_symbols(&new, &[(1, 999999)])), vec!["f", "g"]);
}

fn source(path: &str, text: &str) -> SourceFile {
    SourceFile { path: path.to_string(), source: text.to_string() }
}

#[test]
fn changed_symbols_come_from_changed_files() {
    let hunks = vec![hunk("/repo/pkg/a.py", 5, 1), hunk("/repo/b.py", 1, 1), hunk("/repo/b.py", 9, 0)];
    let changed = changed_files(&hunks, &["/repo/new.py".to_string()]);
    let files = vec![
        source("/repo/pkg/a.py", "def f():\n    pass\n\ndef g():\n    f()\n\ndef h():\n    g()\n"),
        source("/repo/b.py", "import os\n\n\nclass C:\n    def m(self):\n        pass\n"),
        source("/repo/new.py", "def x():\n    pass\n\ndef y():\n    pass\n"),
        source("/repo/same.py", "def z():\n    pass\n"),
    ];
    let found = changed_symbols(&files, &changed, "/repo");
    let full: Vec<String> = found.symbols.iter().map(|s| s.full_name()).collect();
    assert_eq!(full, vec!["pkg.a.g", "new.x", "new.y"]);
    assert_eq!(found.symbols[0].file, "/repo/pkg/a.py");
    assert!(found.failures.is_empty());
    let none = changed_symbols(&[], &changed, "/repo");
    assert!(none.symbols.is_empty() && none.failures.is_empty());
}

#[test]
fn symbols_of_excluded_files_are_dropped() {
    let all = vec![sym("a", 1, 2), sym("tests", 1, 2), sym("b", 1, 2)];
    let kept = drop_excluded(&all, &["tests".to_string()]);
    assert_eq!(names(&kept), vec!["a", "b"]);
    assert_eq!(drop_excluded(&all, &[]).len(), 3);
    // The empty pattern stands in every path.
    assert!(drop_excluded(&all, &[String::new()]).is_empty());
}

#[test]
fn main_comes_before_master() {
    assert_eq!(find_default_branch(true, true).as_deref(), Some("main"));
    assert_eq!(find_default_branch(true, false).as_deref(), Some("main"));
    assert_eq!(find_default_branch(false, true).as_deref(), Some("master"));
    assert_eq!(find_default_branch(false, false), None);
}

#[test]
fn entries_are_given_back_until_the_file_changes() {
    let fs = FileSymbols {
        defined: vec![sym("a", 1, 4)],
        calls: vec![("a".to_string(), "b".to_string())],
    };
    let back = lookup(Some(entry(17, &fs)), 17).unwrap();
    assert_eq!(back.defined, fs.defined);
    assert_eq!(back.calls, fs.calls);
    assert!(lookup(Some(entry(17, &fs)), 18).is_none());
    assert!(lookup(None, 17).is_none());
}

#[test]
fn entries_have_a_directory_for_each_repository() {
    let parts = dirs_cache_path(Some("/home/me".to_string()), Some("proj".to_string()));
    assert_eq!(parts, vec!["/home/me", ".cache", "pyrisk", "proj", "index"]);
    let parts = dirs_cache_path(None, None);
    assert_eq!(parts, vec!["/tmp", ".cache", "pyrisk", "unknown", "index"]);
}
