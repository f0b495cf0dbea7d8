//! The line-prefix renderer helpers: the boolean level stack, the connector
//! glyph prefix of each line, and the summary counters. The terminal layer
//! that adds colour is a thin consumer of these.

use vstd::prelude::*;

use crate::pathiterator::{model_is_dir, EntryModel, IteratorItem};

verus! {

/// The four characters drawn for an ancestor level: a vertical bar with
/// padding when that ancestor has more siblings below, blanks otherwise.
pub open spec fn spec_level_seg(more_siblings: bool) -> Seq<char> {
    if more_siblings {
        seq!['\u{2502}', '\u{a0}', '\u{a0}', ' ']
    } else {
        seq![' ', ' ', ' ', ' ']
    }
}

/// The four characters drawn directly before a name: a cross connector when
/// more siblings follow, a corner connector for the last sibling.
pub open spec fn spec_connector(more_siblings: bool) -> Seq<char> {
    if more_siblings {
        seq!['\u{251c}', '\u{2500}', '\u{2500}', ' ']
    } else {
        seq!['\u{2514}', '\u{2500}', '\u{2500}', ' ']
    }
}

/// The segments drawn for a stack of ancestor levels.
pub open spec fn spec_segs(levels: Seq<bool>) -> Seq<char>
    decreases levels.len(),
{
    if levels.len() == 0 {
        Seq::empty()
    } else {
        spec_segs(levels.drop_last()) + spec_level_seg(levels.last())
    }
}

/// The whole prefix of a line: one segment for each ancestor level, then the
/// connector chosen by the entry's own level flag.
pub open spec fn spec_line_prefix(levels: Seq<bool>) -> Seq<char> {
    if levels.len() == 0 {
        Seq::empty()
    } else {
        spec_segs(levels.drop_last()) + spec_connector(levels.last())
    }
}

/// The level stack after one entry: levels deeper than the entry are
/// dropped, a new level is opened when the entry goes one step deeper, and
/// the innermost flag records whether the entry has more siblings below.
pub open spec fn spec_update_levels(levels: Seq<bool>, level: nat, is_last: bool) -> Seq<bool> {
    let t = if levels.len() > level {
        levels.take(level as int)
    } else {
        levels
    };
    let p = if level > t.len() {
        t.push(!is_last)
    } else {
        t
    };
    if p.len() > 0 {
        p.update(p.len() - 1, !is_last)
    } else {
        p
    }
}

/// Maintains the boolean stack that the renderer keeps per level: truncate
/// to the entry's level, open a new level when the entry goes deeper, and
/// set the innermost flag to "has more siblings".
pub fn update_levels(levels: &mut Vec<bool>, level: usize, is_last: bool)
    ensures
        final(levels)@ == spec_update_levels(old(levels)@, level as nat, is_last),
{
    let ghost orig = levels@;
    proof {
        assert(orig.take(orig.len() as int) =~= orig);
    }
    while levels.len() > level
        invariant
            levels@.len() <= orig.len(),
            levels@ == orig.take(levels@.len() as int),
            orig.len() >= level ==> levels@.len() >= level,
            orig.len() < level ==> levels@ == orig,
        decreases levels@.len(),
    {
        let ghost before = levels@;
        levels.pop();
        proof {
            assert(before.drop_last() =~= orig.take(levels@.len() as int));
        }
    }
    proof {
        if orig.len() > level {
            assert(levels@.len() == level);
        } else {
            assert(levels@.len() == orig.len());
            assert(levels@ =~= orig);
        }
    }
    if level > levels.len() {
        levels.push(!is_last);
    }
    let n = levels.len();
    if n > 0 {
        levels.set(n - 1, !is_last);
    }
}

/// The text of one rendered line: the connector prefix, the name (omitted
/// when the metadata lookup failed; the failure goes to the diagnostic side
/// channel, not into the stream), and a newline.
pub open spec fn spec_line(levels: Seq<bool>, e: EntryModel) -> Seq<char> {
    spec_line_prefix(levels) + (match e.metadata {
        Ok(_) => e.name,
        Err(_) => Seq::empty(),
    }) + seq!['\n']
}

/// The rendered text of a whole entry stream, threading the level stack.
pub open spec fn spec_render(s: Seq<EntryModel>, levels: Seq<bool>) -> Seq<char>
    decreases s.len(),
{
    if s.len() == 0 {
        Seq::empty()
    } else {
        let lv = spec_update_levels(levels, s.first().level, s.first().is_last);
        spec_line(lv, s.first()) + spec_render(s.drop_first(), lv)
    }
}

/// Writes the connector prefix for the given level stack into `prefix`,
/// replacing its previous contents.
pub fn set_line_prefix(levels: &Vec<bool>, prefix: &mut String)
    ensures
        final(prefix)@ == spec_line_prefix(levels@),
{
    let len = levels.len();
    let index = if len > 0 {
        len - 1
    } else {
        0
    };
    let mut s = String::new();
    let mut i: usize = 0;
    proof {
        assert(levels@.take(0) =~= Seq::<bool>::empty());
    }
    while i < index
        invariant
            index <= levels@.len(),
            len == levels@.len(),
            index == (if len > 0 {
                len - 1
            } else {
                0
            }),
            s@ == spec_segs(levels@.take(i as int)),
            i <= index,
        decreases index - i,
    {
        if levels[i] {
            s.append("\u{2502}\u{a0}\u{a0} ");
            proof {
                reveal_strlit("\u{2502}\u{a0}\u{a0} ");
                assert("\u{2502}\u{a0}\u{a0} "@ =~= spec_level_seg(true));
            }
        } else {
            s.append("    ");
            proof {
                reveal_strlit("    ");
                assert("    "@ =~= spec_level_seg(false));
            }
        }
        proof {
            assert(levels@.take(i + 1).drop_last() =~= levels@.take(i as int));
            assert(levels@.take(i + 1).last() == levels@[i as int]);
        }
        i = i + 1;
    }
    if len > 0 {
        if levels[len - 1] {
            s.append("\u{251c}\u{2500}\u{2500} ");
            proof {
                reveal_strlit("\u{251c}\u{2500}\u{2500} ");
                assert("\u{251c}\u{2500}\u{2500} "@ =~= spec_connector(true));
            }
        } else {
            s.append("\u{2514}\u{2500}\u{2500} ");
            proof {
                reveal_strlit("\u{2514}\u{2500}\u{2500} ");
                assert("\u{2514}\u{2500}\u{2500} "@ =~= spec_connector(false));
            }
        }
        proof {
            assert(levels@.take(index as int) =~= levels@.drop_last());
            assert(levels@.last() == levels@[index as int]);
        }
    }
    *prefix = s;
}

/// The number of directory entries below the root in a stream.
pub open spec fn spec_num_folders(s: Seq<EntryModel>) -> nat
    decreases s.len(),
{
    if s.len() == 0 {
        0
    } else {
        (if s.first().level > 0 && model_is_dir(s.first()) {
            1nat
        } else {
            0nat
        }) + spec_num_folders(s.drop_first())
    }
}

/// The number of non-directory entries below the root in a stream.
pub open spec fn spec_num_files(s: Seq<EntryModel>) -> nat
    decreases s.len(),
{
    if s.len() == 0 {
        0
    } else {
        (if s.first().level > 0 && !model_is_dir(s.first()) {
            1nat
        } else {
            0nat
        }) + spec_num_files(s.drop_first())
    }
}

/// The consumer's two counters: folders and files seen below the root.
pub struct DirEntrySummary {
    pub num_folders: usize,
    pub num_files: usize,
}

impl DirEntrySummary {
    /// A summary with both counters at zero.
    pub fn new() -> (r: DirEntrySummary)
        ensures
            r.num_folders == 0,
            r.num_files == 0,
    {
        DirEntrySummary { num_folders: 0, num_files: 0 }
    }
}

proof fn lemma_counts_le_len(s: Seq<EntryModel>)
    ensures
        spec_num_folders(s) + spec_num_files(s) <= s.len(),
    decreases s.len(),
{
    if s.len() > 0 {
        lemma_counts_le_len(s.drop_first());
    }
}

/// Renders a complete entry stream: the tree text (one line per entry, the
/// name omitted for entries whose metadata lookup failed) and the folder and
/// file counters, which exclude the root entry.
pub fn render_entries(entries: &Vec<IteratorItem>) -> (r: (String, DirEntrySummary))
    ensures
        r.0@ == spec_render(entries@.map_values(|it: IteratorItem| it@), Seq::empty()),
        r.1.num_folders == spec_num_folders(entries@.map_values(|it: IteratorItem| it@)),
        r.1.num_files == spec_num_files(entries@.map_values(|it: IteratorItem| it@)),
{
    let ghost all = entries@.map_values(|it: IteratorItem| it@);
    let mut out = String::new();
    let mut levels: Vec<bool> = Vec::new();
    let mut prefix = String::new();
    let mut summary = DirEntrySummary::new();
    let mut i: usize = 0;
    proof {
        assert(all.skip(0) =~= all);
        lemma_counts_le_len(all);
    }
    while i < entries.len()
        invariant
            i <= entries@.len(),
            all == entries@.map_values(|it: IteratorItem| it@),
            all.len() == entries@.len(),
            spec_render(all, Seq::empty()) == out@ + spec_render(all.skip(i as int), levels@),
            summary.num_folders + spec_num_folders(all.skip(i as int)) == spec_num_folders(all),
            summary.num_files + spec_num_files(all.skip(i as int)) == spec_num_files(all),
            spec_num_folders(all) + spec_num_files(all) <= all.len(),
        decreases entries@.len() - i,
    {
        let ghost rem = all.skip(i as int);
        let entry = &entries[i];
        proof {
            assert(rem.first() == entry@);
            assert(rem.drop_first() =~= all.skip(i + 1));
        }
        update_levels(&mut levels, entry.level, entry.is_last);
        if entry.level > 0 {
            if entry.is_dir() {
                summary.num_folders = summary.num_folders + 1;
            } else {
                summary.num_files = summary.num_files + 1;
            }
        }
        set_line_prefix(&levels, &mut prefix);
        let ghost out0 = out@;
        out.append(prefix.as_str());
        match &entry.metadata {
            Ok(_) => {
                out.append(entry.file_name.as_str());
            },
            Err(_) => {
            },
        }
        out.append("\n");
        proof {
            reveal_strlit("\n");
            assert("\n"@ =~= seq!['\n']);
            assert(out@ =~= out0 + spec_line(levels@, entry@));
            assert(out0 + spec_line(levels@, entry@) + spec_render(all.skip(i + 1), levels@)
                =~= out0 + (spec_line(levels@, entry@) + spec_render(all.skip(i + 1), levels@)));
            lemma_counts_le_len(all.skip(i + 1));
        }
        i = i + 1;
    }
    proof {
        assert(all.skip(all.len() as int) =~= Seq::<EntryModel>::empty());
        assert(out@ + Seq::<char>::empty() =~= out@);
    }
    (out, summary)
}

} // verus!
