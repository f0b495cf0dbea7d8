//! The empty-subtree pruner: a decorator over the walker's entry stream
//! that withholds directory entries until a qualifying file is found in
//! their subtree, and discards them otherwise.
//!
//! The walker's stream already contains only eligible entries, so a
//! directory deserves to appear exactly when a non-directory entry follows
//! it at a deeper level before its subtree closes. The pruner needs no
//! second pass: a bounded buffer of still-undecided directories, ordered by
//! strictly increasing level, is enough.

use vstd::prelude::*;

use crate::pathiterator::{
    meta_view, model_is_dir, spec_walk_from_root, walk_tree, EntryModel, FileIteratorConfig,
    FileKind, FsNode, IteratorItem,
};

verus! {

/// Drops buffered directories whose subtree has concluded: every buffered
/// entry at a level at or below the incoming entry's level is removed from
/// the back of the buffer, never emitted.
pub open spec fn spec_discard(buf: Seq<EntryModel>, level: nat) -> Seq<EntryModel>
    decreases buf.len(),
{
    if buf.len() > 0 && buf.last().level >= level {
        spec_discard(buf.drop_last(), level)
    } else {
        buf
    }
}

/// The buffer after one incoming entry: concluded directories are dropped;
/// a directory entry is then buffered, while a file entry resolves and
/// clears the whole buffer.
pub open spec fn spec_step_buffer(buf: Seq<EntryModel>, e: EntryModel) -> Seq<EntryModel> {
    let b = spec_discard(buf, e.level);
    if model_is_dir(e) {
        b.push(e)
    } else {
        Seq::empty()
    }
}

/// What one incoming entry emits: nothing for a directory (its fate is
/// undecided); for a file, the surviving buffered ancestors in order,
/// then the file itself.
pub open spec fn spec_step_out(buf: Seq<EntryModel>, e: EntryModel) -> Seq<EntryModel> {
    let b = spec_discard(buf, e.level);
    if model_is_dir(e) {
        Seq::empty()
    } else {
        b.push(e)
    }
}

/// The pruned remainder of a stream, starting from a given buffer. Whatever
/// is still buffered when the stream ends is discarded.
pub open spec fn spec_prune_from(buf: Seq<EntryModel>, s: Seq<EntryModel>) -> Seq<EntryModel>
    decreases s.len(),
{
    if s.len() == 0 {
        Seq::empty()
    } else {
        spec_step_out(buf, s.first()) + spec_prune_from(
            spec_step_buffer(buf, s.first()),
            s.drop_first(),
        )
    }
}

/// The pruned form of a whole stream; in skip mode the stream passes
/// through unchanged.
pub open spec fn spec_prune(s: Seq<EntryModel>, skip: bool) -> Seq<EntryModel> {
    if skip {
        s
    } else {
        spec_prune_from(Seq::empty(), s)
    }
}

/// The pruning decorator's state: the buffered, still-undecided directory
/// entries, and the skip flag that turns the decorator into a passthrough
/// (used when no glob pattern is configured, since nothing could ever be
/// pruned).
pub struct FilteredIterator {
    buffer: Vec<IteratorItem>,
    skip: bool,
}

impl FilteredIterator {
    /// The buffered directory entries, ancestors first.
    pub closed spec fn spec_buffer(&self) -> Seq<EntryModel> {
        self.buffer@.map_values(|it: IteratorItem| it@)
    }

    /// Whether the decorator is in passthrough mode.
    pub closed spec fn spec_skip(&self) -> bool {
        self.skip
    }

    /// A fresh pruner with an empty buffer.
    pub fn new(skip: bool) -> (r: FilteredIterator)
        ensures
            r.spec_skip() == skip,
            r.spec_buffer() == Seq::<EntryModel>::empty(),
    {
        let r = FilteredIterator { buffer: Vec::new(), skip };
        proof {
            assert(r.buffer@.map_values(|it: IteratorItem| it@) =~= Seq::<EntryModel>::empty());
        }
        r
    }

    /// Feeds the next entry of the walker's stream to the pruner and returns
    /// the entries that are emitted now, in order.
    pub fn accept(&mut self, entry: IteratorItem) -> (out: Vec<IteratorItem>)
        ensures
            final(self).spec_skip() == old(self).spec_skip(),
            old(self).spec_skip() ==> final(self).spec_buffer() == old(self).spec_buffer()
                && out@.map_values(|it: IteratorItem| it@) == seq![entry@],
            !old(self).spec_skip() ==> final(self).spec_buffer() == spec_step_buffer(
                old(self).spec_buffer(),
                entry@,
            ) && out@.map_values(|it: IteratorItem| it@) == spec_step_out(
                old(self).spec_buffer(),
                entry@,
            ),
    {
        if self.skip {
            let mut out: Vec<IteratorItem> = Vec::new();
            out.push(entry);
            proof {
                assert(out@.map_values(|it: IteratorItem| it@) =~= seq![out@[0]@]);
            }
            return out;
        }
        let ghost buf0 = self.buffer@.map_values(|it: IteratorItem| it@);
        while self.buffer.len() > 0 && self.buffer[self.buffer.len() - 1].level >= entry.level
            invariant
                self.skip == old(self).skip,
                spec_discard(buf0, entry@.level) == spec_discard(
                    self.buffer@.map_values(|it: IteratorItem| it@),
                    entry@.level,
                ),
            decreases self.buffer@.len(),
        {
            let ghost cur = self.buffer@.map_values(|it: IteratorItem| it@);
            proof {
                assert(cur.last() == self.buffer@.last()@);
            }
            self.buffer.pop();
            proof {
                assert(self.buffer@.map_values(|it: IteratorItem| it@) =~= cur.drop_last());
            }
        }
        proof {
            let cur = self.buffer@.map_values(|it: IteratorItem| it@);
            if self.buffer@.len() > 0 {
                assert(cur.last() == self.buffer@.last()@);
                assert(cur.last().level < entry@.level);
            }
            assert(spec_discard(cur, entry@.level) == cur);
        }
        let is_dir = match &entry.metadata {
            Ok(FileKind::Directory) => true,
            _ => false,
        };
        if is_dir {
            let ghost cur = self.buffer@.map_values(|it: IteratorItem| it@);
            self.buffer.push(entry);
            let out: Vec<IteratorItem> = Vec::new();
            proof {
                assert(self.buffer@.map_values(|it: IteratorItem| it@) =~= cur.push(
                    self.buffer@.last()@,
                ));
                assert(out@.map_values(|it: IteratorItem| it@) =~= Seq::<EntryModel>::empty());
            }
            out
        } else {
            let mut out: Vec<IteratorItem> = Vec::new();
            core::mem::swap(&mut out, &mut self.buffer);
            let ghost cur = out@.map_values(|it: IteratorItem| it@);
            out.push(entry);
            proof {
                assert(out@.map_values(|it: IteratorItem| it@) =~= cur.push(out@.last()@));
                assert(self.buffer@.map_values(|it: IteratorItem| it@) =~= Seq::<
                    EntryModel,
                >::empty());
            }
            out
        }
    }

    /// Ends the stream: whatever is still buffered contains no qualifying
    /// file anywhere in its subtree and is discarded.
    pub fn finish(&mut self)
        ensures
            final(self).spec_skip() == old(self).spec_skip(),
            final(self).spec_buffer() == Seq::<EntryModel>::empty(),
    {
        self.buffer.clear();
        proof {
            assert(self.buffer@.map_values(|it: IteratorItem| it@) =~= Seq::<EntryModel>::empty());
        }
    }
}

/// Runs a complete entry stream through the pruner. In skip mode the stream
/// is returned unchanged; otherwise a directory entry survives exactly when
/// the pruning state machine emits it.
pub fn prune_entries(entries: Vec<IteratorItem>, skip: bool) -> (out: Vec<IteratorItem>)
    ensures
        out@.map_values(|it: IteratorItem| it@) == spec_prune(
            entries@.map_values(|it: IteratorItem| it@),
            skip,
        ),
{
    if skip {
        return entries;
    }
    let ghost all = entries@.map_values(|it: IteratorItem| it@);
    let mut pruner = FilteredIterator::new(skip);
    let mut out: Vec<IteratorItem> = Vec::new();
    let mut rest = entries;
    proof {
        assert(rest@.map_values(|it: IteratorItem| it@) =~= all.skip(0));
        assert(out@.map_values(|it: IteratorItem| it@) =~= Seq::<EntryModel>::empty());
        assert(Seq::<EntryModel>::empty() + spec_prune_from(pruner.spec_buffer(), all)
            =~= spec_prune_from(pruner.spec_buffer(), all));
    }
    while rest.len() > 0
        invariant
            rest@.len() <= all.len(),
            rest@.map_values(|it: IteratorItem| it@) == all.skip(all.len() - rest@.len()),
            !pruner.spec_skip(),
            out@.map_values(|it: IteratorItem| it@) + spec_prune_from(
                pruner.spec_buffer(),
                all.skip(all.len() - rest@.len()),
            ) == spec_prune_from(Seq::empty(), all),
        decreases rest@.len(),
    {
        let ghost models = all.skip(all.len() - rest@.len());
        let ghost rm = rest@.map_values(|it: IteratorItem| it@);
        let ghost out0 = out@.map_values(|it: IteratorItem| it@);
        let ghost buf0 = pruner.spec_buffer();
        let e = rest.remove(0);
        proof {
            assert(models.len() > 0);
            assert(e@ == rm[0]);
            assert(e@ == models.first());
            assert(rest@.map_values(|it: IteratorItem| it@) =~= models.drop_first());
        }
        let mut emitted = pruner.accept(e);
        proof {
            assert(spec_prune_from(buf0, models) == spec_step_out(buf0, models.first())
                + spec_prune_from(spec_step_buffer(buf0, models.first()), models.drop_first()));
        }
        let ghost emodels = emitted@.map_values(|it: IteratorItem| it@);
        let ghost ecount = emodels.len() as int;
        proof {
            assert(emitted@.map_values(|it: IteratorItem| it@) =~= emodels.skip(0));
            assert(emodels.take(0) =~= Seq::<EntryModel>::empty());
            assert(out0 + emodels.take(0) =~= out0);
        }
        while emitted.len() > 0
            invariant
                emitted@.len() <= ecount,
                ecount == emodels.len() as int,
                emitted@.map_values(|it: IteratorItem| it@) == emodels.skip(
                    ecount - emitted@.len(),
                ),
                out@.map_values(|it: IteratorItem| it@) == out0 + emodels.take(
                    ecount - emitted@.len(),
                ),
            decreases emitted@.len(),
        {
            let ghost t = ecount - emitted@.len() as int;
            let ghost em = emitted@.map_values(|it: IteratorItem| it@);
            let item = emitted.remove(0);
            proof {
                assert(item@ == em[0]);
                assert(item@ == emodels[t]);
                assert(emitted@.map_values(|it: IteratorItem| it@) =~= em.drop_first());
                assert(em.drop_first() =~= emodels.skip(t + 1));
            }
            let ghost om = out@.map_values(|it: IteratorItem| it@);
            out.push(item);
            proof {
                assert(out@.map_values(|it: IteratorItem| it@) =~= om.push(item@));
                assert(om.push(item@) =~= out0 + emodels.take(t + 1));
            }
        }
        proof {
            assert(emodels.take(ecount) =~= emodels);
            assert(out@.map_values(|it: IteratorItem| it@) == out0 + emodels);
            assert((out0 + emodels) + spec_prune_from(pruner.spec_buffer(), models.drop_first())
                =~= out0 + (emodels + spec_prune_from(pruner.spec_buffer(), models.drop_first())));
            assert(all.skip(all.len() - rest@.len()) =~= models.drop_first());
        }
    }
    proof {
        assert(all.skip(all.len() as int) =~= Seq::<EntryModel>::empty());
        assert(out@.map_values(|it: IteratorItem| it@) + Seq::<EntryModel>::empty() =~= out@.map_values(
            |it: IteratorItem| it@,
        ));
    }
    pruner.finish();
    out
}

/// Traverses a whole in-memory subtree and prunes directories whose subtree
/// holds no eligible file. Pruning is skipped when no glob pattern is
/// configured, since nothing could ever be pruned then.
pub fn walk_tree_pruned(
    path: &str,
    metadata: Result<FileKind, String>,
    children: Vec<FsNode>,
    config: FileIteratorConfig,
) -> (out: Vec<IteratorItem>)
    ensures
        out@.map_values(|it: IteratorItem| it@) == spec_prune(
            spec_walk_from_root(path@, meta_view(metadata), children@, config),
            config.include_globs@.len() == 0 && config.exclude_globs@.len() == 0,
        ),
{
    let skip = config.include_globs.len() == 0 && config.exclude_globs.len() == 0;
    let entries = walk_tree(path, metadata, children, config);
    prune_entries(entries, skip)
}

} // verus!
