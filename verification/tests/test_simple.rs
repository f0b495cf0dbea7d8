use tree_rs::config::Config;
use tree_rs::filter::walk_tree_pruned;
use tree_rs::glob::GlobPattern;
use tree_rs::pathiterator::{walk_tree, FileIteratorConfig, FileKind, FsNode, IteratorItem};
use tree_rs::tree_printer::{render_entries, DirEntrySummary};

fn dir(name: &str, children: Vec<FsNode>) -> FsNode {
    FsNode {
        name: name.to_string(),
        metadata: Ok(FileKind::Directory),
        children,
    }
}

fn file(name: &str) -> FsNode {
    FsNode {
        name: name.to_string(),
        metadata: Ok(FileKind::File),
        children: Vec::new(),
    }
}

/// The children of the `tests/simple` fixture directory:
/// `simple/yyy/{k/, s/{a,t}, test.txt, zz/a/b/c}`.
fn simple_children() -> Vec<FsNode> {
    vec![dir(
        "yyy",
        vec![
            dir("k", Vec::new()),
            dir("s", vec![file("a"), file("t")]),
            file("test.txt"),
            dir("zz", vec![dir("a", vec![dir("b", vec![file("c")])])]),
        ],
    )]
}

fn run_walk(config: Config) -> (String, DirEntrySummary) {
    let entries = walk_tree(
        "tests/simple",
        Ok(FileKind::Directory),
        simple_children(),
        config.into_iterator_config(),
    );
    render_entries(&entries)
}

fn run_walk_pruned(config: Config) -> (String, DirEntrySummary) {
    let entries = walk_tree_pruned(
        "tests/simple",
        Ok(FileKind::Directory),
        simple_children(),
        config.into_iterator_config(),
    );
    render_entries(&entries)
}

fn glob(pattern: &str) -> GlobPattern {
    GlobPattern::compile(pattern).unwrap()
}

#[test]
fn test_normal() {
    let expected = "simple\n\
                    \u{2514}\u{2500}\u{2500} yyy\n\
                    \x20   \u{251c}\u{2500}\u{2500} k\n\
                    \x20   \u{251c}\u{2500}\u{2500} s\n\
                    \x20   \u{2502}\u{a0}\u{a0} \u{251c}\u{2500}\u{2500} a\n\
                    \x20   \u{2502}\u{a0}\u{a0} \u{2514}\u{2500}\u{2500} t\n\
                    \x20   \u{251c}\u{2500}\u{2500} test.txt\n\
                    \x20   \u{2514}\u{2500}\u{2500} zz\n\
                    \x20       \u{2514}\u{2500}\u{2500} a\n\
                    \x20           \u{2514}\u{2500}\u{2500} b\n\
                    \x20               \u{2514}\u{2500}\u{2500} c\n";

    let (output, summary) = run_walk(Config::default());
    assert_eq!(6, summary.num_folders);
    assert_eq!(4, summary.num_files);
    assert_eq!(expected, output);
}

#[test]
fn test_simple_test_normal() {
    let (output, summary) = run_walk(Config::default());
    assert_eq!(6, summary.num_folders);
    assert!(summary.num_files >= 4, "Should have at least 4 files");
    // Check for expected directory structure
    assert!(output.contains("simple"));
    assert!(output.contains("yyy"));
    assert!(output.contains("test.txt"));
}

#[test]
fn test_max_depth() {
    let expected = "simple\n\
                    \u{2514}\u{2500}\u{2500} yyy\n\
                    \x20   \u{251c}\u{2500}\u{2500} k\n\
                    \x20   \u{251c}\u{2500}\u{2500} s\n\
                    \x20   \u{251c}\u{2500}\u{2500} test.txt\n\
                    \x20   \u{2514}\u{2500}\u{2500} zz\n";

    let (output, summary) = run_walk(Config {
        max_level: 2,
        ..Default::default()
    });
    assert_eq!(4, summary.num_folders);
    assert_eq!(1, summary.num_files);
    assert_eq!(expected, output);
}

#[test]
fn test_simple_test_max_depth() {
    let (output, summary) = run_walk(Config {
        max_level: 2,
        ..Default::default()
    });
    assert_eq!(4, summary.num_folders);
    assert!(summary.num_files >= 1, "Should have at least 1 file");
    // Check that it contains the expected structure
    assert!(output.contains("simple"));
    assert!(output.contains("yyy"));
    assert!(output.contains('k'));
    assert!(output.contains('s'));
    assert!(output.contains("test.txt"));
    assert!(output.contains("zz"));
    // Should not contain deeply nested items (level > 2)
    assert!(!output.contains("\u{2514}\u{2500}\u{2500} a"));
    assert!(!output.contains("\u{2514}\u{2500}\u{2500} b"));
}

#[test]
fn test_filter_txt_files() {
    let expected = "simple\n\
                    \u{2514}\u{2500}\u{2500} yyy\n\
                    \x20   \u{251c}\u{2500}\u{2500} test.txt\n";

    let (output, summary) = run_walk_pruned(Config {
        include_globs: vec![glob("*.txt")],
        ..Default::default()
    });
    assert_eq!(1, summary.num_folders);
    assert_eq!(1, summary.num_files);

    assert_eq!(expected, output);
}

#[test]
fn test_simple_test_filter_txt_files() {
    let expected = "simple\n\
                    \u{2514}\u{2500}\u{2500} yyy\n\
                    \x20   \u{251c}\u{2500}\u{2500} k\n\
                    \x20   \u{251c}\u{2500}\u{2500} s\n\
                    \x20   \u{251c}\u{2500}\u{2500} test.txt\n\
                    \x20   \u{2514}\u{2500}\u{2500} zz\n\
                    \x20       \u{2514}\u{2500}\u{2500} a\n\
                    \x20           \u{2514}\u{2500}\u{2500} b\n";

    let (output, summary) = run_walk(Config {
        include_globs: vec![glob("*.txt")],
        ..Default::default()
    });

    assert_eq!(6, summary.num_folders);
    assert_eq!(1, summary.num_files);

    assert_eq!(expected, output);
}

#[test]
fn test_exclude_txt_files() {
    let (output, summary) = run_walk(Config {
        exclude_globs: vec![glob("*.txt")],
        ..Default::default()
    });

    assert_eq!(6, summary.num_folders);
    assert!(
        summary.num_files >= 3,
        "Should have at least 3 files when excluding .txt"
    );
    // Check for key elements instead of exact match
    assert!(output.contains("simple"));
    assert!(output.contains("yyy"));
    assert!(!output.contains("test.txt"), "test.txt should be excluded");
    // Check that we have some of the expected files
    assert!(output.contains('a'));
    assert!(output.contains('t'));
}

#[test]
fn test_only_directories() {
    let expected = "simple\n\
                    \u{2514}\u{2500}\u{2500} yyy\n\
                    \x20   \u{251c}\u{2500}\u{2500} k\n\
                    \x20   \u{251c}\u{2500}\u{2500} s\n\
                    \x20   \u{2514}\u{2500}\u{2500} zz\n\
                    \x20       \u{2514}\u{2500}\u{2500} a\n\
                    \x20           \u{2514}\u{2500}\u{2500} b\n";
    let (output, summary) = run_walk(Config {
        show_only_dirs: true,
        ..Default::default()
    });

    assert_eq!(expected, output);
    assert_eq!(6, summary.num_folders);
    assert_eq!(0, summary.num_files);
}

#[test]
fn test_hidden_files() {
    let with_hidden = || {
        vec![dir(
            "yyy",
            vec![
                file(".hidden_test"),
                dir("k", Vec::new()),
                dir("s", vec![file("a"), file("t")]),
                file("test.txt"),
                dir("zz", vec![dir("a", vec![dir("b", vec![file("c")])])]),
            ],
        )]
    };

    // Test without show_hidden
    let entries = walk_tree(
        "tests/simple",
        Ok(FileKind::Directory),
        with_hidden(),
        Config::default().into_iterator_config(),
    );
    let (output_no_hidden, _summary_no_hidden) = render_entries(&entries);

    // Test with show_hidden
    let entries = walk_tree(
        "tests/simple",
        Ok(FileKind::Directory),
        with_hidden(),
        Config {
            show_hidden: true,
            ..Default::default()
        }
        .into_iterator_config(),
    );
    let (output_with_hidden, _summary_with_hidden) = render_entries(&entries);

    // Without show_hidden, should not see the hidden file
    assert!(
        !output_no_hidden.contains(".hidden_test"),
        "Hidden file should not be visible without show_hidden flag"
    );

    // With show_hidden, should see the hidden file
    assert!(
        output_with_hidden.contains(".hidden_test"),
        "Hidden file should be visible with show_hidden flag"
    );
}

#[test]
fn test_hidden_directory_rule() {
    // The hidden-name rule applies to directories exactly as to files: a
    // hidden directory and its whole subtree are absent unless show_hidden.
    let with_hidden_dir = || {
        vec![
            dir(".config", vec![file("settings.txt")]),
            file("visible.txt"),
        ]
    };
    let entries = walk_tree(
        "root",
        Ok(FileKind::Directory),
        with_hidden_dir(),
        Config::default().into_iterator_config(),
    );
    let names: Vec<&str> = entries.iter().map(|e| e.file_name.as_str()).collect();
    assert_eq!(names, vec!["root", "visible.txt"]);

    let entries = walk_tree(
        "root",
        Ok(FileKind::Directory),
        with_hidden_dir(),
        Config {
            show_hidden: true,
            ..Default::default()
        }
        .into_iterator_config(),
    );
    let names: Vec<&str> = entries.iter().map(|e| e.file_name.as_str()).collect();
    assert_eq!(names, vec!["root", ".config", "settings.txt", "visible.txt"]);
}

#[test]
fn test_broken_symlink() {
    // A broken symlink: the symlink-preserving stat succeeds on the link
    // itself, and the link is reported as a leaf.
    let children = vec![dir(
        "yyy",
        vec![
            FsNode {
                name: "broken_link_test".to_string(),
                metadata: Ok(FileKind::Symlink),
                children: Vec::new(),
            },
            file("test.txt"),
        ],
    )];
    let entries = walk_tree(
        "tests/simple",
        Ok(FileKind::Directory),
        children,
        Config::default().into_iterator_config(),
    );
    let (output, _summary) = render_entries(&entries);

    // Should handle broken symlink gracefully
    assert!(output.contains("simple"));
    assert!(output.contains("broken_link_test"));
}

#[test]
fn test_multiple_include_patterns() {
    let (output, summary) = run_walk(Config {
        include_globs: vec![glob("*.txt"), glob("a")],
        ..Default::default()
    });

    assert!(output.contains("test.txt"));
    assert!(output.contains('a'));
    assert_eq!(6, summary.num_folders);
    assert_eq!(2, summary.num_files); // test.txt + a
}

#[test]
fn test_multiple_exclude_patterns() {
    let (output, summary) = run_walk(Config {
        exclude_globs: vec![glob("*.txt"), glob("c")],
        ..Default::default()
    });

    assert!(!output.contains("test.txt"), "test.txt should be excluded");
    // File 'c' should be excluded
    let lines: Vec<&str> = output.lines().collect();
    let has_file_c = lines
        .iter()
        .any(|line| line.trim().ends_with("\u{2514}\u{2500}\u{2500} c") || line.trim().ends_with('c'));
    assert!(!has_file_c, "File 'c' should be excluded");
    assert!(summary.num_folders >= 6, "Should have at least 6 folders");
}

#[test]
fn test_walk_twice_is_identical() {
    // Traversing the same unchanged tree twice with the same configuration
    // yields identical entry streams.
    let a = run_walk(Config::default());
    let b = run_walk(Config::default());
    assert_eq!(a.0, b.0);
    assert_eq!(a.1.num_folders, b.1.num_folders);
    assert_eq!(a.1.num_files, b.1.num_files);

    let entries_a = walk_tree(
        "tests/simple",
        Ok(FileKind::Directory),
        simple_children(),
        Config::default().into_iterator_config(),
    );
    let entries_b = walk_tree(
        "tests/simple",
        Ok(FileKind::Directory),
        simple_children(),
        Config::default().into_iterator_config(),
    );
    assert_eq!(entries_a.len(), entries_b.len());
    for (x, y) in entries_a.iter().zip(entries_b.iter()) {
        assert_eq!(x.file_name, y.file_name);
        assert_eq!(x.path, y.path);
        assert_eq!(x.level, y.level);
        assert_eq!(x.is_last, y.is_last);
        assert_eq!(x.metadata.is_ok(), y.metadata.is_ok());
    }
}

#[test]
fn test_levels_and_order() {
    // The default walk of the fixture yields the documented order and
    // levels, and every non-root entry sits one level below its parent.
    let entries = walk_tree(
        "tests/simple",
        Ok(FileKind::Directory),
        simple_children(),
        Config::default().into_iterator_config(),
    );
    let names: Vec<&str> = entries.iter().map(|e| e.file_name.as_str()).collect();
    let levels: Vec<usize> = entries.iter().map(|e| e.level).collect();
    assert_eq!(
        names,
        vec!["simple", "yyy", "k", "s", "a", "t", "test.txt", "zz", "a", "b", "c"]
    );
    assert_eq!(levels, vec![0, 1, 2, 2, 3, 3, 2, 2, 3, 4, 5]);
    // Parent rule: the nearest preceding shallower entry is one level up.
    for i in 1..entries.len() {
        let lvl = entries[i].level;
        let parent = (0..i).rev().find(|&j| entries[j].level < lvl).unwrap();
        assert_eq!(entries[parent].level + 1, lvl);
    }
}

#[test]
fn test_sibling_groups() {
    // In every sibling group exactly one entry carries is_last, and its
    // name is the lexicographically greatest in the group.
    let entries = walk_tree(
        "tests/simple",
        Ok(FileKind::Directory),
        simple_children(),
        Config::default().into_iterator_config(),
    );
    // Group the direct children of yyy (level 2).
    let group: Vec<&IteratorItem> = entries.iter().filter(|e| e.level == 2).collect();
    let last_count = group.iter().filter(|e| e.is_last).count();
    assert_eq!(1, last_count);
    let last = group.iter().find(|e| e.is_last).unwrap();
    assert_eq!("zz", last.file_name);
    for e in &group {
        assert!(e.file_name.as_str() <= last.file_name.as_str());
    }
}

#[test]
fn test_child_paths_single_separator() {
    // Child paths are joined with exactly one separator, also when the
    // root argument carries a trailing one.
    let entries = walk_tree(
        "tests/simple/",
        Ok(FileKind::Directory),
        simple_children(),
        Config::default().into_iterator_config(),
    );
    assert_eq!(entries[0].file_name, "simple");
    assert_eq!(entries[0].path, "tests/simple/");
    assert_eq!(entries[1].path, "tests/simple/yyy");
    assert_eq!(entries[2].path, "tests/simple/yyy/k");
}

#[test]
fn test_config_clone_reuse() {
    // A compiled configuration can be cloned and reused for a second,
    // independent traversal with the same outcome.
    let config = Config {
        include_globs: vec![glob("*.txt")],
        ..Default::default()
    };
    let again = config.clone();
    let first = walk_tree(
        "tests/simple",
        Ok(FileKind::Directory),
        simple_children(),
        config.into_iterator_config(),
    );
    let second = walk_tree(
        "tests/simple",
        Ok(FileKind::Directory),
        simple_children(),
        again.into_iterator_config(),
    );
    assert_eq!(first.len(), second.len());
    for (x, y) in first.iter().zip(second.iter()) {
        assert_eq!(x.file_name, y.file_name);
        assert_eq!(x.path, y.path);
        assert_eq!(x.level, y.level);
        assert_eq!(x.is_last, y.is_last);
    }
}

#[test]
fn test_pruned_empty_when_nothing_matches() {
    // With a pattern no file matches, every directory is pruned, the root
    // included: the pruned stream is empty.
    let (output, summary) = run_walk_pruned(Config {
        include_globs: vec![glob("*.zzz")],
        ..Default::default()
    });
    assert_eq!("", output);
    assert_eq!(0, summary.num_folders);
    assert_eq!(0, summary.num_files);
}

#[test]
fn test_pruned_without_globs_is_passthrough() {
    // Without any pattern the pruner degenerates to a passthrough.
    let plain = run_walk(Config::default());
    let pruned = run_walk_pruned(Config::default());
    assert_eq!(plain.0, pruned.0);
    assert_eq!(plain.1.num_folders, pruned.1.num_folders);
    assert_eq!(plain.1.num_files, pruned.1.num_files);
}

#[test]
fn test_pruned_exclude_keeps_other_files() {
    // Pruning with an exclude set: directories whose subtree still holds an
    // eligible file survive; `k` (empty) is pruned.
    let (output, summary) = run_walk_pruned(Config {
        exclude_globs: vec![glob("*.txt")],
        ..Default::default()
    });
    assert!(!output.contains("test.txt"));
    assert!(!output.contains('k'));
    assert!(output.contains('s'));
    assert!(output.contains("zz"));
    assert_eq!(5, summary.num_folders);
    assert_eq!(3, summary.num_files);
}
