use tree_rs::filter::{prune_entries, FilteredIterator};
use tree_rs::glob::GlobPattern;
use tree_rs::pathiterator::{FileIteratorConfig, FileKind, IteratorItem};

fn glob(pattern: &str) -> GlobPattern {
    GlobPattern::compile(pattern).unwrap()
}

fn dir_entry(name: &str, level: usize, is_last: bool) -> IteratorItem {
    IteratorItem {
        file_name: name.to_string(),
        path: name.to_string(),
        metadata: Ok(FileKind::Directory),
        level,
        is_last,
    }
}

fn file_entry(name: &str, level: usize, is_last: bool) -> IteratorItem {
    IteratorItem {
        file_name: name.to_string(),
        path: name.to_string(),
        metadata: Ok(FileKind::File),
        level,
        is_last,
    }
}

#[test]
fn test_glob_predicate() {
    // The include/exclude rule on file names, exclusion taking precedence.
    let config = FileIteratorConfig {
        show_hidden: false,
        show_only_dirs: false,
        max_level: usize::MAX,
        include_globs: vec![glob("*.txt")],
        exclude_globs: vec![glob("a*.txt")],
    };
    assert!(config.is_glob_included("note.txt"));
    assert!(!config.is_glob_included("archive.txt"));
    assert!(!config.is_glob_included("note.md"));
}

#[test]
fn test_glob_predicate_empty_sets() {
    // With no patterns every name passes.
    let config = FileIteratorConfig {
        show_hidden: false,
        show_only_dirs: false,
        max_level: usize::MAX,
        include_globs: Vec::new(),
        exclude_globs: Vec::new(),
    };
    assert!(config.is_glob_included("anything"));
}

#[test]
fn test_filter_predicate_rules() {
    // Hidden names are rejected for files and directories alike; a
    // directory is never tested against the glob sets.
    let config = FileIteratorConfig {
        show_hidden: false,
        show_only_dirs: false,
        max_level: usize::MAX,
        include_globs: vec![glob("*.txt")],
        exclude_globs: Vec::new(),
    };
    assert!(!config.is_included(".git", true));
    assert!(!config.is_included(".profile", false));
    assert!(config.is_included("src", true));
    assert!(config.is_included("readme.txt", false));
    assert!(!config.is_included("readme.md", false));
}

#[test]
fn test_pruner_discards_empty_directory() {
    // A directory followed by nothing deeper is dropped at end of stream.
    let mut pruner = FilteredIterator::new(false);
    assert!(pruner.accept(dir_entry("root", 0, true)).is_empty());
    assert!(pruner.accept(dir_entry("empty", 1, true)).is_empty());
    pruner.finish();
}

#[test]
fn test_pruner_flushes_on_file() {
    // A file flushes all buffered ancestors in order, then itself.
    let mut pruner = FilteredIterator::new(false);
    assert!(pruner.accept(dir_entry("root", 0, true)).is_empty());
    assert!(pruner.accept(dir_entry("sub", 1, true)).is_empty());
    let out = pruner.accept(file_entry("hit", 2, true));
    let names: Vec<&str> = out.iter().map(|e| e.file_name.as_str()).collect();
    assert_eq!(names, vec!["root", "sub", "hit"]);
}

#[test]
fn test_pruner_backtrack_discard() {
    // When the stream moves to an entry at or above a buffered directory's
    // level, that directory is dropped without being emitted.
    let mut pruner = FilteredIterator::new(false);
    assert!(pruner.accept(dir_entry("root", 0, true)).is_empty());
    assert!(pruner.accept(dir_entry("a", 1, false)).is_empty());
    assert!(pruner.accept(dir_entry("b", 1, true)).is_empty());
    let out = pruner.accept(file_entry("hit", 2, true));
    let names: Vec<&str> = out.iter().map(|e| e.file_name.as_str()).collect();
    // "a" concluded without a file and is gone; "b" is the ancestor.
    assert_eq!(names, vec!["root", "b", "hit"]);
}

#[test]
fn test_pruner_skip_mode_is_passthrough() {
    let mut pruner = FilteredIterator::new(true);
    let out = pruner.accept(dir_entry("root", 0, true));
    assert_eq!(out.len(), 1);
    assert_eq!(out[0].file_name, "root");
}

#[test]
fn test_prune_entries_stream() {
    // End to end over a stream: directories without a qualifying file
    // anywhere below are absent from the pruned stream.
    let stream = vec![
        dir_entry("root", 0, true),
        dir_entry("empty", 1, false),
        dir_entry("full", 1, true),
        file_entry("keep", 2, true),
    ];
    let out = prune_entries(stream, false);
    let names: Vec<&str> = out.iter().map(|e| e.file_name.as_str()).collect();
    assert_eq!(names, vec!["root", "full", "keep"]);

    let stream = vec![dir_entry("root", 0, true), dir_entry("empty", 1, true)];
    let out = prune_entries(stream, false);
    assert!(out.is_empty());
}
