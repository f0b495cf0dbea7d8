//! The traversal's general guarantees, stated and proved over the
//! specification functions that the executable functions are verified
//! against: depth structure, sibling positions, determinism, the depth
//! limit, and the hidden-name rule.

use vstd::prelude::*;

use crate::filter::{spec_discard, spec_prune, spec_prune_from, spec_step_buffer, spec_step_out};

use crate::pathiterator::{
    entry_of, items_of, lemma_node_height_le, lemma_nodes_height_subset, model_is_dir,
    lemma_prepare_sorted, lemma_prepare_subset, lemma_sort_nodes_contains, lex_le, meta_is_dir,
    node_height, nodes_height, spec_child_kept, spec_eligible, spec_prepare, spec_sorted_by_name,
    spec_join_path, spec_walk_from_root, walk_node, walk_nodes, EntryModel, FileIteratorConfig,
    FileKind, FsNode,
};

verus! {

/// Traversal is deterministic: two traversals of the same unchanged tree
/// with the same configuration yield identical entry streams, in identical
/// order. Every walk result is pinned to the one specification stream, so
/// any two are the same.
pub proof fn lemma_traversal_deterministic(
    a: Seq<EntryModel>,
    b: Seq<EntryModel>,
    path: Seq<char>,
    metadata: Result<FileKind, Seq<char>>,
    children: Seq<FsNode>,
    cfg: FileIteratorConfig,
)
    requires
        a == spec_walk_from_root(path, metadata, children, cfg),
        b == spec_walk_from_root(path, metadata, children, cfg),
    ensures
        a == b,
{
}

/// A depth limit of zero yields exactly one entry, the root, whatever the
/// subtree holds.
pub proof fn lemma_max_level_zero(
    path: Seq<char>,
    metadata: Result<FileKind, Seq<char>>,
    children: Seq<FsNode>,
    cfg: FileIteratorConfig,
)
    requires
        cfg.max_level == 0,
    ensures
        spec_walk_from_root(path, metadata, children, cfg) =~= seq![
            EntryModel {
                name: crate::pathiterator::spec_last_component(path),
                path,
                metadata,
                level: 0,
                is_last: true,
            },
        ],
{
}

/// Sibling groups: among the entries a directory contributes for its
/// children, exactly one is flagged last, it comes last, and its name is
/// the lexicographically greatest among the eligible children. Moreover
/// the group holds exactly the eligible children, in sorted order.
pub proof fn lemma_last_sibling(
    children: Seq<FsNode>,
    cfg: FileIteratorConfig,
    dir_path: Seq<char>,
    level: nat,
)
    ensures
        ({
            let pre = spec_prepare(children, cfg);
            let items = items_of(pre, dir_path, level);
            &&& spec_sorted_by_name(pre)
            &&& forall|i: int| 0 <= i < pre.len() ==> spec_child_kept(cfg, #[trigger] pre[i])
            &&& forall|c: FsNode|
                children.contains(c) && spec_child_kept(cfg, c) ==> pre.contains(c)
            &&& forall|i: int|
                0 <= i < items.len() ==> ((#[trigger] items[i].is_last) <==> i == items.len() - 1)
            &&& forall|i: int|
                0 <= i < pre.len() ==> lex_le(#[trigger] pre[i].name@, pre[pre.len() - 1].name@)
        }),
{
    let pred = |c: FsNode| spec_child_kept(cfg, c);
    let kept = children.filter(pred);
    let pre = spec_prepare(children, cfg);
    lemma_prepare_sorted(children, cfg);
    assert forall|i: int| 0 <= i < pre.len() implies spec_child_kept(cfg, #[trigger] pre[i]) by {
        assert(pre.contains(pre[i]));
        lemma_sort_nodes_contains(kept, pre[i]);
        let j = choose|j: int| 0 <= j < kept.len() && kept[j] == pre[i];
        children.lemma_filter_pred(pred, j);
    }
    assert forall|c: FsNode|
        children.contains(c) && spec_child_kept(cfg, c) implies pre.contains(c) by {
        let i = choose|i: int| 0 <= i < children.len() && children[i] == c;
        children.lemma_filter_contains(pred, i);
        lemma_sort_nodes_contains(kept, c);
    }
    assert forall|i: int| 0 <= i < pre.len() implies lex_le(
        #[trigger] pre[i].name@,
        pre[pre.len() - 1].name@,
    ) by {
        if i < pre.len() - 1 {
            assert(lex_le(pre[i].name@, pre[pre.len() - 1].name@));
        } else {
            crate::pathiterator::lemma_lex_le_refl(pre[i].name@);
        }
    }
}

proof fn lemma_walk_node_levels(
    n: FsNode,
    path: Seq<char>,
    cfg: FileIteratorConfig,
    level: nat,
    is_last: bool,
)
    ensures
        ({
            let w = walk_node(n, path, cfg, level, is_last);
            &&& w.len() >= 1
            &&& w[0] == entry_of(n, path, level, is_last)
            &&& forall|i: int| 1 <= i < w.len() ==> level < #[trigger] w[i].level
            &&& forall|i: int| 1 <= i < w.len() ==> #[trigger] w[i].level <= w[i - 1].level + 1
        }),
    decreases node_height(n), 0nat, 0nat,
{
    let w = walk_node(n, path, cfg, level, is_last);
    if meta_is_dir(n.metadata) && level < cfg.max_level {
        let pre = spec_prepare(n.children@, cfg);
        assert forall|i: int| 0 <= i < pre.len() implies n.children@.contains(pre[i]) by {
            assert(pre.contains(pre[i]));
            lemma_prepare_subset(n.children@, cfg, pre[i]);
        }
        lemma_nodes_height_subset(n.children@, pre);
        lemma_walk_nodes_levels(pre, path, cfg, level + 1);
        let wc = walk_nodes(pre, path, cfg, level + 1);
        assert(w[0] == entry_of(n, path, level, is_last));
        assert forall|i: int| 1 <= i < w.len() implies level < #[trigger] w[i].level by {
            assert(w[i] == wc[i - 1]);
        }
        assert forall|i: int| 1 <= i < w.len() implies #[trigger] w[i].level <= w[i - 1].level
            + 1 by {
            assert(w[i] == wc[i - 1]);
            if i == 1 {
                assert(wc[0].level == level + 1);
                assert(w[0].level == level);
            } else {
                assert(w[i - 1] == wc[i - 2]);
            }
        }
    }
}

proof fn lemma_walk_nodes_levels(
    s: Seq<FsNode>,
    dir_path: Seq<char>,
    cfg: FileIteratorConfig,
    level: nat,
)
    ensures
        ({
            let w = walk_nodes(s, dir_path, cfg, level);
            &&& forall|i: int| 0 <= i < w.len() ==> level <= #[trigger] w[i].level
            &&& (s.len() > 0 ==> w.len() >= 1 && w[0].level == level)
            &&& (s.len() == 0 ==> w.len() == 0)
            &&& forall|i: int| 1 <= i < w.len() ==> #[trigger] w[i].level <= w[i - 1].level + 1
        }),
    decreases nodes_height(s), 1nat, s.len(),
{
    if s.len() > 0 {
        lemma_node_height_le(s, 0);
        let p0 = spec_join_path(dir_path, s[0].name@);
        lemma_walk_node_levels(s[0], p0, cfg, level, s.len() == 1);
        lemma_walk_nodes_levels(s.drop_first(), dir_path, cfg, level);
        let w = walk_nodes(s, dir_path, cfg, level);
        let w1 = walk_node(s[0], p0, cfg, level, s.len() == 1);
        let w2 = walk_nodes(s.drop_first(), dir_path, cfg, level);
        assert(w[0] == w1[0]);
        assert(w[0].level == level);
        assert forall|i: int| 0 <= i < w.len() implies level <= #[trigger] w[i].level by {
            if i < w1.len() {
                assert(w[i] == w1[i]);
            } else {
                assert(w[i] == w2[i - w1.len()]);
            }
        }
        assert forall|i: int| 1 <= i < w.len() implies #[trigger] w[i].level <= w[i - 1].level
            + 1 by {
            if i < w1.len() {
                assert(w[i] == w1[i]);
                assert(w[i - 1] == w1[i - 1]);
            } else if i == w1.len() {
                assert(w[i] == w2[0]);
                assert(w2[0].level == level);
                assert(w[i - 1] == w1[i - 1]);
                assert(level <= w1[i - 1].level);
            } else {
                assert(w[i] == w2[i - w1.len()]);
                assert(w[i - 1] == w2[i - 1 - w1.len()]);
            }
        }
    }
}

/// The nearest entry before `m` (inclusive) whose level is below `lvl`;
/// `-1` when there is none.
pub open spec fn prev_shallower(s: Seq<EntryModel>, lvl: nat, m: int) -> int
    decreases m + 1,
{
    if m < 0 {
        -1
    } else if s[m].level < lvl {
        m
    } else {
        prev_shallower(s, lvl, m - 1)
    }
}

proof fn lemma_prev_shallower(s: Seq<EntryModel>, lvl: nat, m: int)
    requires
        0 <= m < s.len(),
        exists|j: int| 0 <= j <= m && (#[trigger] s[j].level) < lvl,
    ensures
        ({
            let p = prev_shallower(s, lvl, m);
            &&& 0 <= p <= m
            &&& s[p].level < lvl
            &&& forall|t: int| p < t <= m ==> lvl <= #[trigger] s[t].level
        }),
    decreases m + 1,
{
    if s[m].level < lvl {
    } else {
        let j = choose|j: int| 0 <= j <= m && (#[trigger] s[j].level) < lvl;
        assert(j < m);
        lemma_prev_shallower(s, lvl, m - 1);
    }
}

/// Depth structure: the root has level 0, and every other entry of the
/// stream sits exactly one level below its parent, the nearest preceding
/// entry with a smaller level; everything between the two belongs to the
/// parent's subtree and is at least as deep as the entry itself.
pub proof fn lemma_parent_level(
    path: Seq<char>,
    metadata: Result<FileKind, Seq<char>>,
    children: Seq<FsNode>,
    cfg: FileIteratorConfig,
    i: int,
)
    requires
        1 <= i < spec_walk_from_root(path, metadata, children, cfg).len(),
    ensures
        ({
            let s = spec_walk_from_root(path, metadata, children, cfg);
            let j = prev_shallower(s, s[i].level, i - 1);
            &&& s[0].level == 0
            &&& s[i].level >= 1
            &&& 0 <= j < i
            &&& s[j].level + 1 == s[i].level
            &&& forall|m: int| j < m < i ==> s[i].level <= #[trigger] s[m].level
        }),
{
    let s = spec_walk_from_root(path, metadata, children, cfg);
    let root = EntryModel {
        name: crate::pathiterator::spec_last_component(path),
        path,
        metadata,
        level: 0,
        is_last: true,
    };
    assert(s[0] == root);
    if metadata matches Ok(FileKind::Directory) && 0 < cfg.max_level {
        let pre = spec_prepare(children, cfg);
        lemma_walk_nodes_levels(pre, path, cfg, 1);
        let wc = walk_nodes(pre, path, cfg, 1);
        assert forall|t: int| 1 <= t < s.len() implies 1 <= #[trigger] s[t].level by {
            assert(s[t] == wc[t - 1]);
        }
        assert forall|t: int| 1 <= t < s.len() implies #[trigger] s[t].level <= s[t - 1].level
            + 1 by {
            assert(s[t] == wc[t - 1]);
            if t == 1 {
                assert(wc[0].level == 1);
            } else {
                assert(s[t - 1] == wc[t - 2]);
            }
        }
        assert(s[0].level < s[i].level);
        lemma_prev_shallower(s, s[i].level, i - 1);
        let j = prev_shallower(s, s[i].level, i - 1);
        assert(s[j].level < s[i].level);
        if j + 1 == i {
            assert(s[i].level <= s[j].level + 1);
        } else {
            assert(s[i].level <= s[j + 1].level);
            assert(s[j + 1].level <= s[j].level + 1);
        }
    } else {
        assert(s.len() == 1);
    }
}

proof fn lemma_filter_head_only<A>(s: Seq<A>, pred: spec_fn(A) -> bool)
    requires
        s.len() >= 1,
        pred(s[0]),
        forall|i: int| 1 <= i < s.len() ==> !pred(#[trigger] s[i]),
    ensures
        s.filter(pred) == seq![s[0]],
    decreases s.len(),
{
    reveal(Seq::filter);
    if s.len() == 1 {
        assert(s.drop_last().len() == 0);
        assert(s.drop_last().filter(pred) == s.drop_last());
        assert(s.drop_last().push(s.last()) =~= seq![s[0]]);
    } else {
        assert(s.drop_last()[0] == s[0]);
        lemma_filter_head_only(s.drop_last(), pred);
        assert(!pred(s.last()));
    }
}

/// The sibling group of a directory, seen in the stream itself: the entries
/// at the children's own depth within the streams of a prepared sibling
/// sequence are exactly the siblings' entries, in order, with their
/// last-sibling flags — everything else in those streams lies deeper.
pub proof fn lemma_children_in_stream(
    s: Seq<FsNode>,
    dir_path: Seq<char>,
    cfg: FileIteratorConfig,
    level: nat,
)
    ensures
        walk_nodes(s, dir_path, cfg, level).filter(|e: EntryModel| e.level == level) == items_of(
            s,
            dir_path,
            level,
        ),
    decreases s.len(),
{
    let pred = |e: EntryModel| e.level == level;
    let w = walk_nodes(s, dir_path, cfg, level);
    if s.len() == 0 {
        reveal(Seq::filter);
        assert(w.filter(pred) == w);
        assert(items_of(s, dir_path, level).len() == 0);
        assert(w =~= items_of(s, dir_path, level));
    } else {
        let p0 = spec_join_path(dir_path, s[0].name@);
        let w1 = walk_node(s[0], p0, cfg, level, s.len() == 1);
        let w2 = walk_nodes(s.drop_first(), dir_path, cfg, level);
        Seq::filter_distributes_over_add(w1, w2, pred);
        lemma_walk_node_levels(s[0], p0, cfg, level, s.len() == 1);
        assert(w1[0] == entry_of(s[0], p0, level, s.len() == 1));
        assert forall|i: int| 1 <= i < w1.len() implies !pred(#[trigger] w1[i]) by {
            assert(level < w1[i].level);
        }
        lemma_filter_head_only(w1, pred);
        lemma_children_in_stream(s.drop_first(), dir_path, cfg, level);
        assert(seq![w1[0]] + items_of(s.drop_first(), dir_path, level) =~= items_of(
            s,
            dir_path,
            level,
        ));
    }
}

/// Whether an entry would pass the filter predicate, judging directoriness
/// by its captured metadata.
pub open spec fn model_eligible(cfg: FileIteratorConfig, e: EntryModel) -> bool {
    spec_eligible(cfg, e.name, e.metadata matches Ok(FileKind::Directory))
}

proof fn lemma_walk_node_eligible(
    n: FsNode,
    path: Seq<char>,
    cfg: FileIteratorConfig,
    level: nat,
    is_last: bool,
)
    ensures
        ({
            let w = walk_node(n, path, cfg, level, is_last);
            forall|i: int| 1 <= i < w.len() ==> model_eligible(cfg, #[trigger] w[i])
        }),
    decreases node_height(n), 0nat, 0nat,
{
    let w = walk_node(n, path, cfg, level, is_last);
    if meta_is_dir(n.metadata) && level < cfg.max_level {
        let pre = spec_prepare(n.children@, cfg);
        assert forall|i: int| 0 <= i < pre.len() implies n.children@.contains(pre[i]) by {
            assert(pre.contains(pre[i]));
            lemma_prepare_subset(n.children@, cfg, pre[i]);
        }
        lemma_nodes_height_subset(n.children@, pre);
        assert forall|i: int| 0 <= i < pre.len() implies spec_child_kept(
            cfg,
            #[trigger] pre[i],
        ) by {
            let pred = |c: FsNode| spec_child_kept(cfg, c);
            assert(pre.contains(pre[i]));
            lemma_sort_nodes_contains(n.children@.filter(pred), pre[i]);
            let j = choose|j: int|
                0 <= j < n.children@.filter(pred).len() && n.children@.filter(pred)[j] == pre[i];
            n.children@.lemma_filter_pred(pred, j);
        }
        lemma_walk_nodes_eligible(pre, path, cfg, level + 1);
        let wc = walk_nodes(pre, path, cfg, level + 1);
        assert forall|i: int| 1 <= i < w.len() implies model_eligible(cfg, #[trigger] w[i]) by {
            assert(w[i] == wc[i - 1]);
        }
    }
}

proof fn lemma_walk_nodes_eligible(
    s: Seq<FsNode>,
    dir_path: Seq<char>,
    cfg: FileIteratorConfig,
    level: nat,
)
    requires
        forall|i: int| 0 <= i < s.len() ==> spec_child_kept(cfg, #[trigger] s[i]),
    ensures
        ({
            let w = walk_nodes(s, dir_path, cfg, level);
            forall|i: int| 0 <= i < w.len() ==> model_eligible(cfg, #[trigger] w[i])
        }),
    decreases nodes_height(s), 1nat, s.len(),
{
    if s.len() > 0 {
        lemma_node_height_le(s, 0);
        let p0 = spec_join_path(dir_path, s[0].name@);
        lemma_walk_node_eligible(s[0], p0, cfg, level, s.len() == 1);
        assert(forall|i: int|
            0 <= i < s.drop_first().len() ==> spec_child_kept(cfg, #[trigger] s.drop_first()[i]));
        lemma_walk_nodes_eligible(s.drop_first(), dir_path, cfg, level);
        let w = walk_nodes(s, dir_path, cfg, level);
        let w1 = walk_node(s[0], p0, cfg, level, s.len() == 1);
        let w2 = walk_nodes(s.drop_first(), dir_path, cfg, level);
        assert forall|i: int| 0 <= i < w.len() implies model_eligible(cfg, #[trigger] w[i]) by {
            if i < w1.len() {
                assert(w[i] == w1[i]);
                if i == 0 {
                    assert(w1[0] == entry_of(s[0], p0, level, s.len() == 1));
                    assert(spec_child_kept(cfg, s[0]));
                }
            } else {
                assert(w[i] == w2[i - w1.len()]);
            }
        }
    }
}

/// Every entry of a traversal stream except the root passes the filter
/// predicate; in particular no ineligible name ever reaches a consumer.
pub proof fn lemma_stream_eligible(
    path: Seq<char>,
    metadata: Result<FileKind, Seq<char>>,
    children: Seq<FsNode>,
    cfg: FileIteratorConfig,
    i: int,
)
    requires
        1 <= i < spec_walk_from_root(path, metadata, children, cfg).len(),
    ensures
        model_eligible(cfg, spec_walk_from_root(path, metadata, children, cfg)[i]),
{
    let s = spec_walk_from_root(path, metadata, children, cfg);
    if metadata matches Ok(FileKind::Directory) && 0 < cfg.max_level {
        let pre = spec_prepare(children, cfg);
        assert forall|j: int| 0 <= j < pre.len() implies spec_child_kept(
            cfg,
            #[trigger] pre[j],
        ) by {
            let pred = |c: FsNode| spec_child_kept(cfg, c);
            assert(pre.contains(pre[j]));
            lemma_sort_nodes_contains(children.filter(pred), pre[j]);
            let k = choose|k: int|
                0 <= k < children.filter(pred).len() && children.filter(pred)[k] == pre[j];
            children.lemma_filter_pred(pred, k);
        }
        lemma_walk_nodes_eligible(pre, path, cfg, 1);
        let wc = walk_nodes(pre, path, cfg, 1);
        assert(s[i] == wc[i - 1]);
    }
}

/// The hidden-name rule: with `show_hidden` off, no entry below the root of
/// the raw stream has a name starting with `.`, whether it is a file or a
/// directory. `lemma_hidden_rule_pruned` extends this to the pruned stream.
pub proof fn lemma_hidden_rule(
    path: Seq<char>,
    metadata: Result<FileKind, Seq<char>>,
    children: Seq<FsNode>,
    cfg: FileIteratorConfig,
    i: int,
)
    requires
        !cfg.show_hidden,
        1 <= i < spec_walk_from_root(path, metadata, children, cfg).len(),
    ensures
        ({
            let name = spec_walk_from_root(path, metadata, children, cfg)[i].name;
            !(name.len() > 0 && name[0] == '.')
        }),
{
    lemma_stream_eligible(path, metadata, children, cfg, i);
}

/// Whether, after an entry at level `lvl`, the stream `rest` reaches a
/// non-directory entry while still strictly deeper than `lvl` — that is,
/// whether the entry's subtree contains a file entry, since the walker's
/// stream is pre-order and a subtree ends at the first entry at or above
/// its root's level.
pub open spec fn file_before_close(lvl: nat, rest: Seq<EntryModel>) -> bool {
    exists|j: int|
        0 <= j < rest.len() && !model_is_dir(#[trigger] rest[j]) && (forall|m: int|
            0 <= m <= j ==> lvl < rest[m].level)
}

/// The buffered directories that the rest of the stream justifies, in
/// buffer order.
pub open spec fn spec_kept_dirs(buf: Seq<EntryModel>, rest: Seq<EntryModel>) -> Seq<EntryModel>
    decreases buf.len(),
{
    if buf.len() == 0 {
        Seq::empty()
    } else {
        (if file_before_close(buf.first().level, rest) {
            seq![buf.first()]
        } else {
            Seq::empty()
        }) + spec_kept_dirs(buf.drop_first(), rest)
    }
}

/// The entries of a stream that pruning keeps: every non-directory entry,
/// and exactly those directory entries whose subtree holds a file entry.
pub open spec fn spec_kept_stream(s: Seq<EntryModel>) -> Seq<EntryModel>
    decreases s.len(),
{
    if s.len() == 0 {
        Seq::empty()
    } else {
        (if !model_is_dir(s.first()) || file_before_close(s.first().level, s.drop_first()) {
            seq![s.first()]
        } else {
            Seq::empty()
        }) + spec_kept_stream(s.drop_first())
    }
}

proof fn lemma_fbc_dir(lvl: nat, s: Seq<EntryModel>)
    requires
        s.len() > 0,
        model_is_dir(s.first()),
    ensures
        file_before_close(lvl, s) <==> (lvl < s.first().level && file_before_close(
            lvl,
            s.drop_first(),
        )),
{
    if file_before_close(lvl, s) {
        let j = choose|j: int|
            0 <= j < s.len() && !model_is_dir(#[trigger] s[j]) && (forall|m: int|
                0 <= m <= j ==> lvl < s[m].level);
        assert(j != 0);
        assert(lvl < s[0].level);
        assert(!model_is_dir(s.drop_first()[j - 1]));
        assert forall|m: int| 0 <= m <= j - 1 implies lvl < s.drop_first()[m].level by {
            assert(s.drop_first()[m] == s[m + 1]);
        }
        assert(file_before_close(lvl, s.drop_first()));
    }
    if lvl < s.first().level && file_before_close(lvl, s.drop_first()) {
        let j = choose|j: int|
            0 <= j < s.drop_first().len() && !model_is_dir(#[trigger] s.drop_first()[j]) && (
            forall|m: int| 0 <= m <= j ==> lvl < s.drop_first()[m].level);
        assert(!model_is_dir(s[j + 1]));
        assert forall|m: int| 0 <= m <= j + 1 implies lvl < s[m].level by {
            if m > 0 {
                assert(s[m] == s.drop_first()[m - 1]);
            }
        }
        assert(file_before_close(lvl, s));
    }
}

proof fn lemma_fbc_file(lvl: nat, s: Seq<EntryModel>)
    requires
        s.len() > 0,
        !model_is_dir(s.first()),
    ensures
        file_before_close(lvl, s) <==> lvl < s.first().level,
{
    if lvl < s.first().level {
        assert(!model_is_dir(s[0]) && (forall|m: int| 0 <= m <= 0 ==> lvl < s[m].level));
    }
    if file_before_close(lvl, s) {
        let j = choose|j: int|
            0 <= j < s.len() && !model_is_dir(#[trigger] s[j]) && (forall|m: int|
                0 <= m <= j ==> lvl < s[m].level);
        assert(lvl < s[0].level);
    }
}

proof fn lemma_discard_props(buf: Seq<EntryModel>, lvl: nat)
    requires
        forall|i: int, j: int| 0 <= i < j < buf.len() ==> buf[i].level < buf[j].level,
    ensures
        ({
            let d = spec_discard(buf, lvl);
            &&& d.len() <= buf.len()
            &&& d == buf.take(d.len() as int)
            &&& forall|i: int| 0 <= i < d.len() ==> (#[trigger] buf[i].level) < lvl
            &&& forall|i: int| d.len() <= i < buf.len() ==> lvl <= (#[trigger] buf[i].level)
        }),
    decreases buf.len(),
{
    let d = spec_discard(buf, lvl);
    if buf.len() > 0 && buf.last().level >= lvl {
        assert(forall|i: int, j: int|
            0 <= i < j < buf.drop_last().len() ==> buf.drop_last()[i].level
                < buf.drop_last()[j].level);
        lemma_discard_props(buf.drop_last(), lvl);
        assert(buf.drop_last().take(d.len() as int) =~= buf.take(d.len() as int));
        assert forall|i: int| 0 <= i < d.len() implies (#[trigger] buf[i].level) < lvl by {
            assert(buf.drop_last()[i] == buf[i]);
        }
        assert forall|i: int| d.len() <= i < buf.len() implies lvl <= (
        #[trigger] buf[i].level) by {
            if i < buf.len() - 1 {
                assert(buf.drop_last()[i] == buf[i]);
            }
        }
    } else if buf.len() > 0 {
        assert(buf.take(buf.len() as int) =~= buf);
        assert forall|i: int| 0 <= i < d.len() implies (#[trigger] buf[i].level) < lvl by {
            if i < buf.len() - 1 {
                assert(buf[i].level < buf[buf.len() - 1].level);
            }
        }
    } else {
        assert(buf.take(0) =~= buf);
    }
}

proof fn lemma_kept_dirs_push(buf: Seq<EntryModel>, e: EntryModel, rest: Seq<EntryModel>)
    ensures
        spec_kept_dirs(buf.push(e), rest) == spec_kept_dirs(buf, rest) + (if file_before_close(
            e.level,
            rest,
        ) {
            seq![e]
        } else {
            Seq::<EntryModel>::empty()
        }),
    decreases buf.len(),
{
    let tail = if file_before_close(e.level, rest) {
        seq![e]
    } else {
        Seq::<EntryModel>::empty()
    };
    if buf.len() == 0 {
        assert(buf.push(e).first() == e);
        assert(buf.push(e).drop_first() =~= Seq::<EntryModel>::empty());
        assert(spec_kept_dirs(Seq::<EntryModel>::empty(), rest) == Seq::<EntryModel>::empty());
        assert(tail + Seq::<EntryModel>::empty() =~= tail);
        assert(Seq::<EntryModel>::empty() + tail =~= tail);
    } else {
        assert(buf.push(e).first() == buf.first());
        assert(buf.push(e).drop_first() =~= buf.drop_first().push(e));
        lemma_kept_dirs_push(buf.drop_first(), e, rest);
        let head = if file_before_close(buf.first().level, rest) {
            seq![buf.first()]
        } else {
            Seq::<EntryModel>::empty()
        };
        assert(spec_kept_dirs(buf.push(e), rest) == head + (spec_kept_dirs(buf.drop_first(), rest)
            + tail));
        assert(head + (spec_kept_dirs(buf.drop_first(), rest) + tail) =~= (head + spec_kept_dirs(
            buf.drop_first(),
            rest,
        )) + tail);
    }
}

proof fn lemma_kept_dirs_all_true(buf: Seq<EntryModel>, rest: Seq<EntryModel>)
    requires
        forall|i: int| 0 <= i < buf.len() ==> file_before_close((#[trigger] buf[i]).level, rest),
    ensures
        spec_kept_dirs(buf, rest) == buf,
    decreases buf.len(),
{
    if buf.len() > 0 {
        assert(buf[0] == buf.first());
        assert(forall|i: int|
            0 <= i < buf.drop_first().len() ==> file_before_close(
                (#[trigger] buf.drop_first()[i]).level,
                rest,
            ));
        lemma_kept_dirs_all_true(buf.drop_first(), rest);
        assert(seq![buf.first()] + buf.drop_first() =~= buf);
    }
}

proof fn lemma_kept_dirs_prefix(
    buf: Seq<EntryModel>,
    k: int,
    rest: Seq<EntryModel>,
    rest2: Seq<EntryModel>,
)
    requires
        0 <= k <= buf.len(),
        forall|i: int|
            0 <= i < k ==> (file_before_close((#[trigger] buf[i]).level, rest)
                <==> file_before_close(buf[i].level, rest2)),
        forall|i: int| k <= i < buf.len() ==> !file_before_close((#[trigger] buf[i]).level, rest),
    ensures
        spec_kept_dirs(buf, rest) == spec_kept_dirs(buf.take(k), rest2),
    decreases buf.len(),
{
    if buf.len() == 0 {
        assert(buf.take(k) =~= buf);
    } else if k == 0 {
        assert(buf.take(0).len() == 0);
        assert(forall|i: int|
            0 <= i < buf.drop_first().len() ==> !file_before_close(
                (#[trigger] buf.drop_first()[i]).level,
                rest,
            ));
        lemma_kept_dirs_prefix(buf.drop_first(), 0, rest, rest2);
        assert(buf.drop_first().take(0) =~= buf.take(0));
        assert(!file_before_close(buf.first().level, rest));
        assert(Seq::<EntryModel>::empty() + spec_kept_dirs(buf.drop_first(), rest)
            =~= spec_kept_dirs(buf.drop_first(), rest));
    } else {
        assert(buf[0] == buf.first());
        assert forall|i: int|
            0 <= i < k - 1 implies (file_before_close(
            (#[trigger] buf.drop_first()[i]).level,
            rest,
        ) <==> file_before_close(buf.drop_first()[i].level, rest2)) by {
            assert(buf.drop_first()[i] == buf[i + 1]);
        }
        assert forall|i: int| k - 1 <= i < buf.drop_first().len() implies !file_before_close(
            (#[trigger] buf.drop_first()[i]).level,
            rest,
        ) by {
            assert(buf.drop_first()[i] == buf[i + 1]);
        }
        lemma_kept_dirs_prefix(buf.drop_first(), k - 1, rest, rest2);
        assert(buf.drop_first().take(k - 1) =~= buf.take(k).drop_first());
        assert(buf.take(k).first() == buf.first());
        assert(buf.take(k).len() > 0);
    }
}

/// Pruning correctness, generalized over a reachable pruner state: a buffer
/// of still-undecided directories at strictly increasing levels. What the
/// machine will emit is the justified buffered directories followed by the
/// kept part of the remaining stream.
#[verifier::rlimit(100)]
pub proof fn lemma_prune_from_characterized(buf: Seq<EntryModel>, s: Seq<EntryModel>)
    requires
        forall|i: int| 0 <= i < buf.len() ==> model_is_dir(#[trigger] buf[i]),
        forall|i: int, j: int| 0 <= i < j < buf.len() ==> buf[i].level < buf[j].level,
    ensures
        spec_prune_from(buf, s) == spec_kept_dirs(buf, s) + spec_kept_stream(s),
    decreases s.len(),
{
    if s.len() == 0 {
        assert forall|i: int| 0 <= i < buf.len() implies !file_before_close(
            (#[trigger] buf[i]).level,
            s,
        ) by {}
        lemma_kept_dirs_prefix(buf, 0, s, s);
        assert(buf.take(0).len() == 0);
        assert(spec_kept_dirs(buf.take(0), s) == Seq::<EntryModel>::empty());
        assert(Seq::<EntryModel>::empty() + Seq::<EntryModel>::empty() =~= Seq::<
            EntryModel,
        >::empty());
    } else {
        let e = s.first();
        let s2 = s.drop_first();
        let d = spec_discard(buf, e.level);
        lemma_discard_props(buf, e.level);
        let k = d.len() as int;
        assert(d == buf.take(k));
        assert(forall|i: int| 0 <= i < k ==> (#[trigger] buf[i].level) < e.level);
        assert(forall|i: int| k <= i < buf.len() ==> e.level <= (#[trigger] buf[i].level));
        if model_is_dir(e) {
            assert forall|i: int|
                0 <= i < k implies (file_before_close((#[trigger] buf[i]).level, s)
                    <==> file_before_close(buf[i].level, s2)) by {
                lemma_fbc_dir(buf[i].level, s);
            }
            assert forall|i: int| k <= i < buf.len() implies !file_before_close(
                (#[trigger] buf[i]).level,
                s,
            ) by {
                lemma_fbc_dir(buf[i].level, s);
            }
            lemma_kept_dirs_prefix(buf, k, s, s2);
            // The new buffer is the surviving prefix plus the incoming
            // directory; it is again increasing and all directories.
            let nb = d.push(e);
            assert forall|i: int| 0 <= i < nb.len() implies model_is_dir(#[trigger] nb[i]) by {
                if i < k {
                    assert(nb[i] == buf[i]);
                }
            }
            assert forall|i: int, j: int| 0 <= i < j < nb.len() implies nb[i].level
                < nb[j].level by {
                assert(nb[i] == buf[i]);
                if j < k {
                    assert(nb[j] == buf[j]);
                }
            }
            lemma_prune_from_characterized(nb, s2);
            lemma_kept_dirs_push(d, e, s2);
            // Assemble both sides.
            assert(spec_step_buffer(buf, e) == nb);
            assert(spec_step_out(buf, e) == Seq::<EntryModel>::empty());
            assert(spec_prune_from(buf, s) == Seq::<EntryModel>::empty() + spec_prune_from(nb, s2));
            assert(Seq::<EntryModel>::empty() + spec_prune_from(nb, s2) =~= spec_prune_from(
                nb,
                s2,
            ));
            let etail = if file_before_close(e.level, s2) {
                seq![e]
            } else {
                Seq::<EntryModel>::empty()
            };
            assert(spec_kept_stream(s) == etail + spec_kept_stream(s2));
            assert((spec_kept_dirs(d, s2) + etail) + spec_kept_stream(s2) =~= spec_kept_dirs(
                d,
                s2,
            ) + (etail + spec_kept_stream(s2)));
        } else {
            assert forall|i: int| 0 <= i < k implies file_before_close(
                (#[trigger] buf[i]).level,
                s,
            ) by {
                lemma_fbc_file(buf[i].level, s);
            }
            assert forall|i: int| k <= i < buf.len() implies !file_before_close(
                (#[trigger] buf[i]).level,
                s,
            ) by {
                lemma_fbc_file(buf[i].level, s);
            }
            lemma_kept_dirs_prefix(buf, k, s, s);
            assert forall|i: int| 0 <= i < d.len() implies file_before_close(
                (#[trigger] d[i]).level,
                s,
            ) by {
                assert(d[i] == buf[i]);
            }
            lemma_kept_dirs_all_true(d, s);
            lemma_prune_from_characterized(Seq::empty(), s2);
            assert(spec_kept_dirs(Seq::<EntryModel>::empty(), s2) == Seq::<EntryModel>::empty());
            assert(Seq::<EntryModel>::empty() + spec_kept_stream(s2) =~= spec_kept_stream(s2));
            assert(spec_step_buffer(buf, e) =~= Seq::<EntryModel>::empty());
            assert(spec_step_out(buf, e) == d.push(e));
            assert(spec_prune_from(buf, s) == d.push(e) + spec_kept_stream(s2));
            assert(spec_kept_stream(s) == seq![e] + spec_kept_stream(s2));
            assert(d.push(e) + spec_kept_stream(s2) =~= d + (seq![e] + spec_kept_stream(s2)));
        }
    }
}

/// Pruning correctness: with pruning enabled, the pruned stream holds every
/// non-directory entry of the walker's stream, and a directory entry exactly
/// when a non-directory entry follows it at a deeper level before its
/// subtree closes — in the pre-order stream, exactly when its subtree
/// contains an eligible file. Order is preserved, and directories with no
/// such descendant never appear.
pub proof fn lemma_pruning_correct(s: Seq<EntryModel>)
    ensures
        spec_prune(s, false) == spec_kept_stream(s),
{
    lemma_prune_from_characterized(Seq::empty(), s);
    assert(spec_kept_dirs(Seq::<EntryModel>::empty(), s) == Seq::<EntryModel>::empty());
    assert(Seq::<EntryModel>::empty() + spec_kept_stream(s) =~= spec_kept_stream(s));
}

/// The hidden-name rule holds of the pruned stream too: with `show_hidden`
/// off, no entry below the root that survives pruning has a name starting
/// with `.`. (The root alone has level 0, so the level distinguishes it.)
pub proof fn lemma_hidden_rule_pruned(
    path: Seq<char>,
    metadata: Result<FileKind, Seq<char>>,
    children: Seq<FsNode>,
    cfg: FileIteratorConfig,
    skip: bool,
    x: EntryModel,
)
    requires
        !cfg.show_hidden,
        spec_prune(spec_walk_from_root(path, metadata, children, cfg), skip).contains(x),
        x.level >= 1,
    ensures
        !(x.name.len() > 0 && x.name[0] == '.'),
{
    let s = spec_walk_from_root(path, metadata, children, cfg);
    lemma_prune_subset(s, skip, x);
    let i = choose|i: int| 0 <= i < s.len() && s[i] == x;
    if i == 0 {
        assert(s[0].level == 0);
    } else {
        lemma_hidden_rule(path, metadata, children, cfg, i);
    }
}

proof fn lemma_add_contains<A>(a: Seq<A>, b: Seq<A>, x: A)
    ensures
        (a + b).contains(x) <==> (a.contains(x) || b.contains(x)),
{
    if (a + b).contains(x) {
        let i = choose|i: int| 0 <= i < (a + b).len() && (a + b)[i] == x;
        if i < a.len() {
            assert(a[i] == x);
        } else {
            assert(b[i - a.len()] == x);
        }
    }
    if a.contains(x) {
        let i = choose|i: int| 0 <= i < a.len() && a[i] == x;
        assert((a + b)[i] == x);
    }
    if b.contains(x) {
        let i = choose|i: int| 0 <= i < b.len() && b[i] == x;
        assert((a + b)[a.len() + i] == x);
    }
}

proof fn lemma_discard_subset(buf: Seq<EntryModel>, level: nat, x: EntryModel)
    requires
        spec_discard(buf, level).contains(x),
    ensures
        buf.contains(x),
    decreases buf.len(),
{
    if buf.len() > 0 && buf.last().level >= level {
        lemma_discard_subset(buf.drop_last(), level, x);
        let i = choose|i: int| 0 <= i < buf.drop_last().len() && buf.drop_last()[i] == x;
        assert(buf[i] == x);
    }
}

/// The pruned stream invents nothing: every entry it emits is an entry of
/// the buffer it started from or of the stream it was fed.
pub proof fn lemma_prune_from_subset(buf: Seq<EntryModel>, s: Seq<EntryModel>, x: EntryModel)
    requires
        spec_prune_from(buf, s).contains(x),
    ensures
        buf.contains(x) || s.contains(x),
    decreases s.len(),
{
    if s.len() > 0 {
        let e = s.first();
        let out1 = spec_step_out(buf, e);
        let rest = spec_prune_from(spec_step_buffer(buf, e), s.drop_first());
        lemma_add_contains(out1, rest, x);
        if out1.contains(x) {
            if !model_is_dir(e) {
                crate::pathiterator::lemma_push_contains(spec_discard(buf, e.level), e, x);
                if x == e {
                    assert(s[0] == x);
                } else {
                    lemma_discard_subset(buf, e.level, x);
                }
            }
        } else {
            lemma_prune_from_subset(spec_step_buffer(buf, e), s.drop_first(), x);
            if spec_step_buffer(buf, e).contains(x) {
                if model_is_dir(e) {
                    crate::pathiterator::lemma_push_contains(spec_discard(buf, e.level), e, x);
                    if x == e {
                        assert(s[0] == x);
                    } else {
                        lemma_discard_subset(buf, e.level, x);
                    }
                }
            } else {
                let i = choose|i: int|
                    0 <= i < s.drop_first().len() && s.drop_first()[i] == x;
                assert(s[i + 1] == x);
            }
        }
    }
}

/// The pruned stream is made of entries of the raw stream.
pub proof fn lemma_prune_subset(s: Seq<EntryModel>, skip: bool, x: EntryModel)
    requires
        spec_prune(s, skip).contains(x),
    ensures
        s.contains(x),
{
    if !skip {
        lemma_prune_from_subset(Seq::empty(), s, x);
    }
}

} // verus!

