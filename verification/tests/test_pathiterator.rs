use tree_rs::pathiterator::{
    path_to_str, FileIterator, FileIteratorConfig, FileKind, FsNode, IteratorItem,
};

fn default_config() -> FileIteratorConfig {
    FileIteratorConfig {
        show_hidden: false,
        show_only_dirs: false,
        max_level: usize::MAX,
        include_globs: Vec::new(),
        exclude_globs: Vec::new(),
    }
}

fn dir(name: &str, children: Vec<FsNode>) -> FsNode {
    FsNode {
        name: name.to_string(),
        metadata: Ok(FileKind::Directory),
        children,
    }
}

fn file(name: &str) -> FsNode {
    FsNode {
        name: name.to_string(),
        metadata: Ok(FileKind::File),
        children: Vec::new(),
    }
}

#[test]
fn test_path_to_str_with_root_path() {
    // Test with a path that has no filename (e.g., "/")
    let path = "/";
    let result = path_to_str(path);
    // Should fallback to the whole path when no filename exists
    assert!(!result.is_empty());
}

#[test]
fn test_path_to_str_with_normal_path() {
    let path = "/some/path/file.txt";
    let result = path_to_str(path);
    assert_eq!(result, "file.txt");
}

#[test]
fn test_path_to_str_trailing_separator() {
    assert_eq!(path_to_str("some/dir/"), "dir");
    assert_eq!(path_to_str("name"), "name");
    assert_eq!(path_to_str(""), "");
}

#[test]
fn test_path_to_str_dot_components() {
    // A trailing `.` names its parent, as std's path parsing has it; a
    // path ending in `..` has no final component and falls back whole.
    assert_eq!(path_to_str("a/."), "a");
    assert_eq!(path_to_str("a/./"), "a");
    assert_eq!(path_to_str("a/././"), "a");
    assert_eq!(path_to_str("a/.."), "a/..");
    assert_eq!(path_to_str(".."), "..");
    assert_eq!(path_to_str("."), ".");
    assert_eq!(path_to_str("/."), "/.");
    assert_eq!(path_to_str("a/.b"), ".b");
    assert_eq!(path_to_str("a/..."), "...");
}

#[test]
fn test_iterator_with_empty_directory() {
    let items = tree_rs::pathiterator::walk_tree(
        "tests/empty_test_dir",
        Ok(FileKind::Directory),
        Vec::new(),
        default_config(),
    );

    // Should contain only the root directory itself
    assert_eq!(items.len(), 1);
    assert_eq!(items[0].level, 0);
}

#[test]
fn test_unreadable_directory() {
    // A subdirectory whose listing fails: the driver never hands children
    // for it, and traversal continues instead of aborting.
    let mut iterator = FileIterator::new("tests/unreadable_test", Ok(FileKind::Directory), default_config());

    let mut items: Vec<IteratorItem> = Vec::new();
    while let Some(item) = iterator.next() {
        if iterator.wants_children(&item) {
            if item.level == 0 {
                iterator.push_dir(&item, vec![dir("subdir", Vec::new())]);
            }
            // The listing of "subdir" fails: no push_dir call for it.
        }
        items.push(item);
    }

    // Should still iterate, but handle the error gracefully
    assert!(!items.is_empty()); // At least the root
    assert_eq!(items.len(), 2);
}

#[test]
fn test_iterator_max_level_zero() {
    let config = FileIteratorConfig {
        show_hidden: false,
        show_only_dirs: false,
        max_level: 0,
        include_globs: Vec::new(),
        exclude_globs: Vec::new(),
    };

    let children = vec![dir("yyy", vec![file("test.txt")])];
    let items = tree_rs::pathiterator::walk_tree(
        "tests/simple",
        Ok(FileKind::Directory),
        children,
        config,
    );

    // Should only return root directory at level 0
    assert_eq!(items.len(), 1);
    assert_eq!(items[0].level, 0);
}

#[test]
fn test_iterator_with_hidden_files() {
    let make_children = || vec![file(".hidden"), file("visible.txt")];

    // Test without showing hidden files
    let items = tree_rs::pathiterator::walk_tree(
        "tests/hidden_test_dir",
        Ok(FileKind::Directory),
        make_children(),
        default_config(),
    );
    let visible_only = items.iter().any(|item| item.file_name == ".hidden");

    // Test with showing hidden files
    let config_with_hidden = FileIteratorConfig {
        show_hidden: true,
        show_only_dirs: false,
        max_level: usize::MAX,
        include_globs: Vec::new(),
        exclude_globs: Vec::new(),
    };
    let items_with_hidden = tree_rs::pathiterator::walk_tree(
        "tests/hidden_test_dir",
        Ok(FileKind::Directory),
        make_children(),
        config_with_hidden,
    );
    let has_hidden = items_with_hidden
        .iter()
        .any(|item| item.file_name == ".hidden");

    assert!(
        !visible_only,
        "Hidden file should not be visible without show_hidden"
    );
    assert!(has_hidden, "Hidden file should be visible with show_hidden");
}

#[test]
fn test_walker_protocol_preorder() {
    // Driving the pull-based walker by hand yields sorted pre-order with
    // levels and last-sibling flags.
    let mut iterator = FileIterator::new("root", Ok(FileKind::Directory), default_config());
    let mut names: Vec<String> = Vec::new();
    let mut levels: Vec<usize> = Vec::new();
    let mut lasts: Vec<bool> = Vec::new();
    while let Some(item) = iterator.next() {
        if iterator.wants_children(&item) {
            if item.file_name == "root" {
                iterator.push_dir(&item, vec![file("zeta"), dir("beta", Vec::new()), file("alpha")]);
            }
        }
        names.push(item.file_name.clone());
        levels.push(item.level);
        lasts.push(item.is_last);
    }
    assert_eq!(names, vec!["root", "alpha", "beta", "zeta"]);
    assert_eq!(levels, vec![0, 1, 1, 1]);
    assert_eq!(lasts, vec![true, false, false, true]);
}

#[test]
fn test_walker_symlink_is_leaf() {
    // A symlink to a directory is reported once and never expanded.
    let mut iterator = FileIterator::new("root", Ok(FileKind::Directory), default_config());
    let mut count = 0;
    while let Some(item) = iterator.next() {
        if iterator.wants_children(&item) {
            assert_ne!(item.file_name, "link");
            if item.file_name == "root" {
                iterator.push_dir(
                    &item,
                    vec![FsNode {
                        name: "link".to_string(),
                        metadata: Ok(FileKind::Symlink),
                        children: Vec::new(),
                    }],
                );
            }
        }
        count += 1;
    }
    assert_eq!(count, 2);
}

#[test]
fn test_walk_with_failed_root_metadata() {
    // A root whose stat failed is still emitted, carrying the error, and is
    // never expanded.
    let items = tree_rs::pathiterator::walk_tree(
        "/nonexistent/path/that/does/not/exist",
        Err("No such file or directory".to_string()),
        Vec::new(),
        default_config(),
    );
    assert_eq!(items.len(), 1);
    assert!(items[0].metadata.is_err());
    assert_eq!(items[0].level, 0);
}
