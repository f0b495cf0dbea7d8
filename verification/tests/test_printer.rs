use tree_rs::pathiterator::{FileKind, IteratorItem};
use tree_rs::tree_printer::{render_entries, set_line_prefix, update_levels, DirEntrySummary};

fn entry(name: &str, kind: FileKind, level: usize, is_last: bool) -> IteratorItem {
    IteratorItem {
        file_name: name.to_string(),
        path: name.to_string(),
        metadata: Ok(kind),
        level,
        is_last,
    }
}

#[test]
fn test_summary_new_is_zero() {
    let summary = DirEntrySummary::new();
    assert_eq!(summary.num_folders, 0);
    assert_eq!(summary.num_files, 0);
}

#[test]
fn test_update_levels_truncates_and_marks() {
    let mut levels: Vec<bool> = Vec::new();
    update_levels(&mut levels, 0, true);
    assert_eq!(levels, Vec::<bool>::new());
    update_levels(&mut levels, 1, false);
    assert_eq!(levels, vec![true]);
    update_levels(&mut levels, 2, true);
    assert_eq!(levels, vec![true, false]);
    update_levels(&mut levels, 1, true);
    assert_eq!(levels, vec![false]);
}

#[test]
fn test_set_line_prefix_glyphs() {
    let mut prefix = String::new();
    set_line_prefix(&Vec::new(), &mut prefix);
    assert_eq!(prefix, "");

    set_line_prefix(&vec![true], &mut prefix);
    assert_eq!(prefix, "\u{251c}\u{2500}\u{2500} ");

    set_line_prefix(&vec![false], &mut prefix);
    assert_eq!(prefix, "\u{2514}\u{2500}\u{2500} ");

    set_line_prefix(&vec![true, false], &mut prefix);
    assert_eq!(prefix, "\u{2502}\u{a0}\u{a0} \u{2514}\u{2500}\u{2500} ");

    set_line_prefix(&vec![false, true], &mut prefix);
    assert_eq!(prefix, "    \u{251c}\u{2500}\u{2500} ");
}

#[test]
fn test_render_counts_exclude_root() {
    let entries = vec![
        entry("root", FileKind::Directory, 0, true),
        entry("sub", FileKind::Directory, 1, false),
        entry("file", FileKind::File, 1, true),
    ];
    let (output, summary) = render_entries(&entries);
    assert_eq!(summary.num_folders, 1);
    assert_eq!(summary.num_files, 1);
    assert_eq!(
        output,
        "root\n\u{251c}\u{2500}\u{2500} sub\n\u{2514}\u{2500}\u{2500} file\n"
    );
}

#[test]
fn test_render_failed_metadata_line_is_blank() {
    // An entry whose metadata lookup failed keeps its place in the stream,
    // but its line carries no name; the failure is a side-channel concern.
    let entries = vec![IteratorItem {
        file_name: "gone".to_string(),
        path: "gone".to_string(),
        metadata: Err("No such file or directory".to_string()),
        level: 0,
        is_last: true,
    }];
    let (output, summary) = render_entries(&entries);
    assert_eq!(output, "\n");
    assert_eq!(summary.num_folders, 0);
    assert_eq!(summary.num_files, 0);
}

#[test]
fn test_symlink_counts_as_file() {
    let entries = vec![
        entry("root", FileKind::Directory, 0, true),
        entry("link", FileKind::Symlink, 1, true),
    ];
    let (_, summary) = render_entries(&entries);
    assert_eq!(summary.num_folders, 0);
    assert_eq!(summary.num_files, 1);
}
