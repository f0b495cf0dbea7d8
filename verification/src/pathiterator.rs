//! Directory traversal: entries, the filter predicate, sibling ordering,
//! and the work-list walker that emits a pre-order stream.

use vstd::prelude::*;

use crate::glob::{glob_match, patterns_view, GlobPattern};

verus! {

/// The kind of a filesystem object, as reported by a symlink-preserving stat.
/// A symlink is never followed: it is reported as `Symlink` and treated as a
/// leaf, whatever it points at.
#[derive(Clone, Copy, PartialEq, Eq, Structural, Debug)]
pub enum FileKind {
    Directory,
    File,
    Symlink,
}

/// Lexicographic order on character sequences by code point:
/// `a` is less than or equal to `b`.
pub open spec fn lex_le(a: Seq<char>, b: Seq<char>) -> bool
    decreases a.len(),
{
    if a.len() == 0 {
        true
    } else if b.len() == 0 {
        false
    } else if (a[0] as int) < (b[0] as int) {
        true
    } else if (a[0] as int) > (b[0] as int) {
        false
    } else {
        lex_le(a.drop_first(), b.drop_first())
    }
}

/// Compares two names in lexicographic code-point order.
pub fn str_le(a: &str, b: &str) -> (r: bool)
    ensures
        r == lex_le(a@, b@),
{
    let alen = a.unicode_len();
    let blen = b.unicode_len();
    let mut i: usize = 0;
    proof {
        assert(a@.skip(0) =~= a@);
        assert(b@.skip(0) =~= b@);
    }
    loop
        invariant
            i <= alen,
            i <= blen,
            alen == a@.len(),
            blen == b@.len(),
            forall|j: int| 0 <= j < i ==> a@[j] == b@[j],
            lex_le(a@, b@) == lex_le(a@.skip(i as int), b@.skip(i as int)),
        decreases alen - i,
    {
        if i == alen {
            proof {
                assert(a@.skip(i as int).len() == 0);
            }
            return true;
        }
        if i == blen {
            proof {
                assert(b@.skip(i as int).len() == 0);
                assert(a@.skip(i as int).len() > 0);
            }
            return false;
        }
        let ca = a.get_char(i);
        let cb = b.get_char(i);
        proof {
            let sa = a@.skip(i as int);
            let sb = b@.skip(i as int);
            assert(sa[0] == a@[i as int]);
            assert(sb[0] == b@[i as int]);
            assert(sa.drop_first() =~= a@.skip(i as int + 1));
            assert(sb.drop_first() =~= b@.skip(i as int + 1));
        }
        if (ca as u32) < (cb as u32) {
            return true;
        }
        if (ca as u32) > (cb as u32) {
            return false;
        }
        i = i + 1;
    }
}

/// Whether a metadata lookup result reports a directory. A failed lookup or
/// a symlink is never a directory, so such a node is never expanded.
pub open spec fn meta_is_dir(m: Result<FileKind, String>) -> bool {
    m matches Ok(FileKind::Directory)
}

/// The mathematical value of a metadata lookup result.
pub open spec fn meta_view(m: Result<FileKind, String>) -> Result<FileKind, Seq<char>> {
    match m {
        Ok(k) => Ok(k),
        Err(e) => Err(e@),
    }
}

/// An in-memory filesystem node: a name, the result of a symlink-preserving
/// metadata lookup, and the node's children. A failed lookup carries its
/// error message. Only directories have meaningful children; the walker
/// never reads the children of a non-directory.
#[derive(Debug)]
pub struct FsNode {
    pub name: String,
    pub metadata: Result<FileKind, String>,
    pub children: Vec<FsNode>,
}

/// The mathematical value of one traversal entry.
pub ghost struct EntryModel {
    pub name: Seq<char>,
    pub path: Seq<char>,
    pub metadata: Result<FileKind, Seq<char>>,
    pub level: nat,
    pub is_last: bool,
}

/// Whether a stream entry is a directory, judged by its captured metadata.
pub open spec fn model_is_dir(e: EntryModel) -> bool {
    e.metadata matches Ok(FileKind::Directory)
}

/// One entry of the traversal output stream: the final path component, the
/// full path, the metadata lookup result, the depth (0 is the traversal
/// root), and whether the entry is the last among its siblings.
#[derive(Debug)]
pub struct IteratorItem {
    pub file_name: String,
    pub path: String,
    pub metadata: Result<FileKind, String>,
    pub level: usize,
    pub is_last: bool,
}

impl View for IteratorItem {
    type V = EntryModel;

    open spec fn view(&self) -> EntryModel {
        EntryModel {
            name: self.file_name@,
            path: self.path@,
            metadata: meta_view(self.metadata),
            level: self.level as nat,
            is_last: self.is_last,
        }
    }
}

impl IteratorItem {
    /// Builds the entry for a path whose metadata the caller has looked up.
    pub fn new(path: &str, metadata: Result<FileKind, String>, level: usize, is_last: bool) -> (r:
        Self)
        ensures
            r@ == (EntryModel {
                name: spec_last_component(path@),
                path: path@,
                metadata: meta_view(metadata),
                level: level as nat,
                is_last,
            }),
    {
        let file_name = path_to_str(path).to_owned();
        IteratorItem { file_name, path: path.to_owned(), metadata, level, is_last }
    }

    /// Whether the entry is a directory, judged by the captured metadata.
    pub fn is_dir(&self) -> (r: bool)
        ensures
            r == (self@.metadata matches Ok(FileKind::Directory)),
    {
        match &self.metadata {
            Ok(FileKind::Directory) => true,
            _ => false,
        }
    }
}

/// The traversal configuration: hidden-name rule, directory-only mode,
/// depth limit, and the include/exclude glob sets. It is immutable during a
/// traversal; the pattern sets are compiled once before the walker starts.
#[derive(Clone, Debug)]
pub struct FileIteratorConfig {
    pub show_hidden: bool,
    pub show_only_dirs: bool,
    pub max_level: usize,
    pub include_globs: Vec<GlobPattern>,
    pub exclude_globs: Vec<GlobPattern>,
}

/// The glob rule for file names: no exclude pattern matches, and the include
/// set is empty or some include pattern matches. Exclusion takes precedence.
pub open spec fn spec_glob_included(
    includes: Seq<Seq<char>>,
    excludes: Seq<Seq<char>>,
    name: Seq<char>,
) -> bool {
    (forall|i: int| 0 <= i < excludes.len() ==> !glob_match(excludes[i], name)) && (includes.len()
        == 0 || exists|i: int| 0 <= i < includes.len() && glob_match(includes[i], name))
}

/// The filter predicate: hidden names are rejected unless `show_hidden`;
/// directories always pass the glob sets; files pass them per
/// `spec_glob_included`. Patterns are matched against the final path
/// component only, never a full path.
pub open spec fn spec_eligible(cfg: FileIteratorConfig, name: Seq<char>, is_dir: bool) -> bool {
    (cfg.show_hidden || !(name.len() > 0 && name[0] == '.')) && (is_dir || spec_glob_included(
        patterns_view(cfg.include_globs@),
        patterns_view(cfg.exclude_globs@),
        name,
    ))
}

/// Whether a listed child is kept for traversal: in directory-only mode only
/// directories survive the listing, and the child must be eligible under the
/// filter predicate.
pub open spec fn spec_child_kept(cfg: FileIteratorConfig, c: FsNode) -> bool {
    (!cfg.show_only_dirs || meta_is_dir(c.metadata)) && spec_eligible(
        cfg,
        c.name@,
        meta_is_dir(c.metadata),
    )
}

impl FileIteratorConfig {
    /// Applies the include/exclude glob sets to a file name.
    pub fn is_glob_included(&self, file_name: &str) -> (r: bool)
        ensures
            r == spec_glob_included(
                patterns_view(self.include_globs@),
                patterns_view(self.exclude_globs@),
                file_name@,
            ),
    {
        let mut not_excluded = true;
        let mut i: usize = 0;
        while i < self.exclude_globs.len()
            invariant
                i <= self.exclude_globs@.len(),
                not_excluded == (forall|j: int|
                    0 <= j < i ==> !glob_match(self.exclude_globs@[j]@, file_name@)),
            decreases self.exclude_globs@.len() - i,
        {
            if self.exclude_globs[i].is_match(file_name) {
                not_excluded = false;
            }
            i = i + 1;
        }
        let mut included = self.include_globs.len() == 0;
        let mut k: usize = 0;
        while k < self.include_globs.len()
            invariant
                k <= self.include_globs@.len(),
                included == (self.include_globs@.len() == 0 || exists|j: int|
                    0 <= j < k && glob_match(self.include_globs@[j]@, file_name@)),
            decreases self.include_globs@.len() - k,
        {
            if self.include_globs[k].is_match(file_name) {
                included = true;
            }
            k = k + 1;
        }
        proof {
            let pv_ex = patterns_view(self.exclude_globs@);
            let pv_in = patterns_view(self.include_globs@);
            assert forall|j: int| 0 <= j < pv_ex.len() implies pv_ex[j]
                == self.exclude_globs@[j]@ by {}
            assert forall|j: int| 0 <= j < pv_in.len() implies pv_in[j]
                == self.include_globs@[j]@ by {}
            if not_excluded {
                assert forall|j: int| 0 <= j < pv_ex.len() implies !glob_match(
                    pv_ex[j],
                    file_name@,
                ) by {
                    assert(!glob_match(self.exclude_globs@[j]@, file_name@));
                }
            }
            if included && self.include_globs@.len() > 0 {
                let j = choose|j: int|
                    0 <= j < self.include_globs@.len() && glob_match(
                        self.include_globs@[j]@,
                        file_name@,
                    );
                assert(glob_match(pv_in[j], file_name@));
            }
            if pv_in.len() > 0 && (exists|j: int|
                0 <= j < pv_in.len() && glob_match(pv_in[j], file_name@)) {
                let j = choose|j: int| 0 <= j < pv_in.len() && glob_match(pv_in[j], file_name@);
                assert(glob_match(self.include_globs@[j]@, file_name@));
            }
            if !not_excluded {
                let j = choose|j: int|
                    0 <= j < self.exclude_globs@.len() && glob_match(
                        self.exclude_globs@[j]@,
                        file_name@,
                    );
                assert(glob_match(pv_ex[j], file_name@));
            }
            if !included {
                assert forall|j: int| 0 <= j < pv_in.len() implies !glob_match(
                    pv_in[j],
                    file_name@,
                ) by {
                    assert(!glob_match(self.include_globs@[j]@, file_name@));
                }
            }
        }
        not_excluded && included
    }

    /// The filter predicate of the traversal (hidden rule, then glob rule;
    /// directories are never tested against the glob sets).
    pub fn is_included(&self, name: &str, is_dir: bool) -> (r: bool)
        ensures
            r == spec_eligible(*self, name@, is_dir),
    {
        let hidden_ok = if self.show_hidden {
            true
        } else {
            !(name.unicode_len() > 0 && name.get_char(0) == '.')
        };
        hidden_ok && (is_dir || self.is_glob_included(name))
    }
}

pub proof fn lemma_lex_le_refl(a: Seq<char>)
    ensures
        lex_le(a, a),
    decreases a.len(),
{
    if a.len() > 0 {
        lemma_lex_le_refl(a.drop_first());
    }
}

pub proof fn lemma_lex_le_total(a: Seq<char>, b: Seq<char>)
    ensures
        lex_le(a, b) || lex_le(b, a),
    decreases a.len(),
{
    if a.len() > 0 && b.len() > 0 && a[0] == b[0] {
        lemma_lex_le_total(a.drop_first(), b.drop_first());
    }
}

pub proof fn lemma_lex_le_trans(a: Seq<char>, b: Seq<char>, c: Seq<char>)
    requires
        lex_le(a, b),
        lex_le(b, c),
    ensures
        lex_le(a, c),
    decreases a.len(),
{
    if a.len() > 0 && b.len() > 0 && c.len() > 0 && a[0] == b[0] && b[0] == c[0] {
        lemma_lex_le_trans(a.drop_first(), b.drop_first(), c.drop_first());
    }
}

/// Whether a node sequence is sorted by name in lexicographic code-point
/// order.
pub open spec fn spec_sorted_by_name(s: Seq<FsNode>) -> bool {
    forall|i: int, j: int| 0 <= i < j < s.len() ==> lex_le(s[i].name@, s[j].name@)
}

/// Inserts a node into a name-sorted sequence, after any node whose name
/// compares less than or equal (a stable insertion).
pub open spec fn spec_insert_sorted(s: Seq<FsNode>, x: FsNode) -> Seq<FsNode>
    decreases s.len(),
{
    if s.len() > 0 && !lex_le(s.last().name@, x.name@) {
        spec_insert_sorted(s.drop_last(), x).push(s.last())
    } else {
        s.push(x)
    }
}

/// Sorts a sequence of nodes by name in lexicographic code-point order
/// (directories and files are not segregated).
pub open spec fn spec_sort_nodes(s: Seq<FsNode>) -> Seq<FsNode>
    decreases s.len(),
{
    if s.len() == 0 {
        Seq::empty()
    } else {
        spec_insert_sorted(spec_sort_nodes(s.drop_last()), s.last())
    }
}

/// The children that survive the listing filter, in traversal order:
/// kept children (directory-only mode, then the filter predicate), sorted
/// by name.
pub open spec fn spec_prepare(children: Seq<FsNode>, cfg: FileIteratorConfig) -> Seq<FsNode> {
    spec_sort_nodes(children.filter(|c: FsNode| spec_child_kept(cfg, c)))
}

pub proof fn lemma_push_contains<A>(s: Seq<A>, x: A, y: A)
    ensures
        s.push(x).contains(y) <==> (s.contains(y) || y == x),
{
    if s.push(x).contains(y) {
        let i = choose|i: int| 0 <= i < s.push(x).len() && s.push(x)[i] == y;
        if i < s.len() {
            assert(s[i] == y);
        }
    }
    if s.contains(y) {
        let i = choose|i: int| 0 <= i < s.len() && s[i] == y;
        assert(s.push(x)[i] == y);
    }
    if y == x {
        assert(s.push(x)[s.len() as int] == y);
    }
}

proof fn lemma_unlast_contains<A>(s: Seq<A>, y: A)
    requires
        s.len() > 0,
    ensures
        s.contains(y) <==> (s.drop_last().contains(y) || y == s.last()),
{
    if s.contains(y) {
        let i = choose|i: int| 0 <= i < s.len() && s[i] == y;
        if i < s.len() - 1 {
            assert(s.drop_last()[i] == y);
        }
    }
    if s.drop_last().contains(y) {
        let i = choose|i: int| 0 <= i < s.drop_last().len() && s.drop_last()[i] == y;
        assert(s[i] == y);
    }
    if y == s.last() {
        assert(s[s.len() - 1] == y);
    }
}

pub proof fn lemma_insert_sorted_contains(s: Seq<FsNode>, x: FsNode, y: FsNode)
    ensures
        spec_insert_sorted(s, x).contains(y) <==> (s.contains(y) || y == x),
    decreases s.len(),
{
    if s.len() > 0 && !lex_le(s.last().name@, x.name@) {
        lemma_insert_sorted_contains(s.drop_last(), x, y);
        lemma_push_contains(spec_insert_sorted(s.drop_last(), x), s.last(), y);
        lemma_unlast_contains(s, y);
    } else {
        lemma_push_contains(s, x, y);
    }
}

pub proof fn lemma_sort_nodes_contains(s: Seq<FsNode>, y: FsNode)
    ensures
        spec_sort_nodes(s).contains(y) <==> s.contains(y),
    decreases s.len(),
{
    if s.len() > 0 {
        lemma_sort_nodes_contains(s.drop_last(), y);
        lemma_insert_sorted_contains(spec_sort_nodes(s.drop_last()), s.last(), y);
        lemma_unlast_contains(s, y);
    }
}

pub proof fn lemma_insert_sorted_sorted(s: Seq<FsNode>, x: FsNode)
    requires
        spec_sorted_by_name(s),
    ensures
        spec_sorted_by_name(spec_insert_sorted(s, x)),
    decreases s.len(),
{
    if s.len() > 0 && !lex_le(s.last().name@, x.name@) {
        assert(spec_sorted_by_name(s.drop_last()));
        lemma_insert_sorted_sorted(s.drop_last(), x);
        let r0 = spec_insert_sorted(s.drop_last(), x);
        let r = r0.push(s.last());
        lemma_lex_le_total(s.last().name@, x.name@);
        assert forall|i: int, j: int| 0 <= i < j < r.len() implies lex_le(
            r[i].name@,
            r[j].name@,
        ) by {
            if j < r.len() - 1 {
                assert(r[i] == r0[i] && r[j] == r0[j]);
            } else {
                assert(r[j] == s.last());
                assert(r[i] == r0[i]);
                assert(r0.contains(r0[i]));
                lemma_insert_sorted_contains(s.drop_last(), x, r0[i]);
                if r0[i] == x {
                    assert(lex_le(x.name@, s.last().name@));
                } else {
                    let m = choose|m: int|
                        0 <= m < s.drop_last().len() && s.drop_last()[m] == r0[i];
                    assert(s[m] == r0[i]);
                    assert(lex_le(s[m].name@, s.last().name@));
                }
            }
        }
    } else {
        let r = s.push(x);
        assert forall|i: int, j: int| 0 <= i < j < r.len() implies lex_le(
            r[i].name@,
            r[j].name@,
        ) by {
            if j < r.len() - 1 {
                assert(r[i] == s[i] && r[j] == s[j]);
            } else {
                assert(r[j] == x);
                assert(r[i] == s[i]);
                if i == s.len() - 1 {
                    assert(lex_le(s[i].name@, x.name@));
                } else {
                    assert(lex_le(s[i].name@, s.last().name@));
                    lemma_lex_le_trans(s[i].name@, s.last().name@, x.name@);
                }
            }
        }
    }
}

pub proof fn lemma_sort_nodes_sorted(s: Seq<FsNode>)
    ensures
        spec_sorted_by_name(spec_sort_nodes(s)),
    decreases s.len(),
{
    if s.len() > 0 {
        lemma_sort_nodes_sorted(s.drop_last());
        lemma_insert_sorted_sorted(spec_sort_nodes(s.drop_last()), s.last());
    }
}

/// The prepared children of a directory are sorted by name.
pub proof fn lemma_prepare_sorted(children: Seq<FsNode>, cfg: FileIteratorConfig)
    ensures
        spec_sorted_by_name(spec_prepare(children, cfg)),
{
    lemma_sort_nodes_sorted(children.filter(|c: FsNode| spec_child_kept(cfg, c)));
}

/// Inserts a node into a name-sorted vector, keeping it sorted.
fn insert_sorted(v: &mut Vec<FsNode>, x: FsNode)
    ensures
        final(v)@ == spec_insert_sorted(old(v)@, x),
{
    let ghost orig = v@;
    let mut p: usize = v.len();
    proof {
        assert(orig.take(p as int) =~= orig);
        assert(orig.skip(p as int) =~= Seq::<FsNode>::empty());
        assert(spec_insert_sorted(orig, x) + orig.skip(p as int) =~= spec_insert_sorted(orig, x));
    }
    while p > 0 && !str_le(v[p - 1].name.as_str(), x.name.as_str())
        invariant
            p <= v@.len(),
            v@ == orig,
            spec_insert_sorted(orig, x) == spec_insert_sorted(orig.take(p as int), x)
                + orig.skip(p as int),
        decreases p,
    {
        proof {
            let t = orig.take(p as int);
            assert(t.last() == orig[p - 1]);
            assert(spec_insert_sorted(t, x) == spec_insert_sorted(t.drop_last(), x).push(t.last()));
            assert(t.drop_last() =~= orig.take(p - 1));
            assert(spec_insert_sorted(orig.take(p - 1), x).push(orig[p - 1]) + orig.skip(p as int)
                =~= spec_insert_sorted(orig.take(p - 1), x) + orig.skip(p - 1));
        }
        p = p - 1;
    }
    proof {
        let t = orig.take(p as int);
        if p > 0 {
            assert(t.last() == orig[p - 1]);
        }
        assert(spec_insert_sorted(t, x) == t.push(x));
        assert(t.push(x) + orig.skip(p as int) =~= orig.insert(p as int, x));
    }
    v.insert(p, x);
}

/// Sorts nodes by name in lexicographic code-point order.
fn sort_nodes(nodes: Vec<FsNode>) -> (r: Vec<FsNode>)
    ensures
        r@ == spec_sort_nodes(nodes@),
{
    let ghost orig = nodes@;
    let mut rest = nodes;
    let mut out: Vec<FsNode> = Vec::new();
    proof {
        assert(orig.take(0) =~= Seq::<FsNode>::empty());
        assert(rest@ =~= orig.skip(0));
    }
    while rest.len() > 0
        invariant
            rest@.len() <= orig.len(),
            out@ == spec_sort_nodes(orig.take(orig.len() - rest@.len())),
            rest@ =~= orig.skip(orig.len() - rest@.len()),
        decreases rest@.len(),
    {
        let ghost k = orig.len() - rest@.len();
        let x = rest.remove(0);
        proof {
            assert(x == orig[k]);
            assert(rest@ =~= orig.skip(k + 1));
            let t = orig.take(k + 1);
            assert(t.drop_last() =~= orig.take(k));
            assert(t.last() == orig[k]);
        }
        insert_sorted(&mut out, x);
    }
    proof {
        assert(orig.take(orig.len() as int) =~= orig);
    }
    out
}

/// Keeps the children that survive directory-only mode and the filter
/// predicate, in their listed order.
fn filter_children(children: Vec<FsNode>, config: &FileIteratorConfig) -> (r: Vec<FsNode>)
    ensures
        r@ == children@.filter(|c: FsNode| spec_child_kept(*config, c)),
{
    let ghost orig = children@;
    let ghost pred = |c: FsNode| spec_child_kept(*config, c);
    let mut rest = children;
    let mut out: Vec<FsNode> = Vec::new();
    proof {
        reveal(Seq::filter);
        assert(orig.take(0) =~= Seq::<FsNode>::empty());
        assert(rest@ =~= orig.skip(0));
    }
    while rest.len() > 0
        invariant
            rest@.len() <= orig.len(),
            out@ == orig.take(orig.len() - rest@.len()).filter(pred),
            rest@ =~= orig.skip(orig.len() - rest@.len()),
            pred == (|c: FsNode| spec_child_kept(*config, c)),
        decreases rest@.len(),
    {
        let ghost k = orig.len() - rest@.len();
        let c = rest.remove(0);
        proof {
            assert(c == orig[k]);
            assert(rest@ =~= orig.skip(k + 1));
        }
        let is_dir = match &c.metadata {
            Ok(FileKind::Directory) => true,
            _ => false,
        };
        let keep = (!config.show_only_dirs || is_dir) && config.is_included(c.name.as_str(), is_dir);
        proof {
            reveal(Seq::filter);
            let t = orig.take(k + 1);
            assert(t.drop_last() =~= orig.take(k));
            assert(t.last() == orig[k]);
            assert(keep == pred(c));
        }
        if keep {
            out.push(c);
        }
    }
    proof {
        assert(orig.take(orig.len() as int) =~= orig);
    }
    out
}

/// Lists a directory's children in traversal order: the kept children,
/// sorted by name.
pub fn prepare_children(children: Vec<FsNode>, config: &FileIteratorConfig) -> (r: Vec<FsNode>)
    ensures
        r@ == spec_prepare(children@, *config),
{
    sort_nodes(filter_children(children, config))
}

/// The height of a node: 1 for a leaf, one more than the tallest child
/// otherwise. Used as the termination measure of the traversal.
pub open spec fn node_height(n: FsNode) -> nat
    decreases n,
{
    nodes_height(n.children@) + 1
}

/// The height of the tallest node in a sequence; 0 for an empty sequence.
pub open spec fn nodes_height(s: Seq<FsNode>) -> nat
    decreases s,
{
    if s.len() == 0 {
        0
    } else {
        let h0 = node_height(s[0]);
        let hr = nodes_height(s.drop_first());
        if h0 > hr {
            h0
        } else {
            hr
        }
    }
}

pub proof fn lemma_node_height_le(s: Seq<FsNode>, i: int)
    requires
        0 <= i < s.len(),
    ensures
        node_height(s[i]) <= nodes_height(s),
    decreases s.len(),
{
    if i > 0 {
        lemma_node_height_le(s.drop_first(), i - 1);
    }
}

pub proof fn lemma_nodes_height_subset(s1: Seq<FsNode>, s2: Seq<FsNode>)
    requires
        forall|i: int| 0 <= i < s2.len() ==> s1.contains(s2[i]),
    ensures
        nodes_height(s2) <= nodes_height(s1),
    decreases s2.len(),
{
    if s2.len() > 0 {
        assert(forall|i: int| 0 <= i < s2.drop_first().len() ==> s1.contains(s2.drop_first()[i]));
        lemma_nodes_height_subset(s1, s2.drop_first());
        let j = choose|j: int| 0 <= j < s1.len() && s1[j] == s2[0];
        lemma_node_height_le(s1, j);
    }
}

/// The entry emitted for a node at the given full path, depth and sibling
/// position.
pub open spec fn entry_of(n: FsNode, path: Seq<char>, level: nat, is_last: bool) -> EntryModel {
    EntryModel { name: n.name@, path, metadata: meta_view(n.metadata), level, is_last }
}

/// The full pre-order traversal stream of one node: the node's own entry,
/// followed (when the node is a directory below the depth limit) by the
/// streams of its prepared children in order.
pub open spec fn walk_node(
    n: FsNode,
    path: Seq<char>,
    cfg: FileIteratorConfig,
    level: nat,
    is_last: bool,
) -> Seq<EntryModel>
    decreases node_height(n), 0nat, 0nat,
        via walk_node_decreases
{
    seq![entry_of(n, path, level, is_last)] + if meta_is_dir(n.metadata) && level < cfg.max_level {
        walk_nodes(spec_prepare(n.children@, cfg), path, cfg, level + 1)
    } else {
        Seq::empty()
    }
}

/// The concatenated streams of a prepared sibling sequence: each sibling's
/// stream in order, the last sibling carrying `is_last`.
pub open spec fn walk_nodes(
    s: Seq<FsNode>,
    dir_path: Seq<char>,
    cfg: FileIteratorConfig,
    level: nat,
) -> Seq<EntryModel>
    decreases nodes_height(s), 1nat, s.len(),
        via walk_nodes_decreases
{
    if s.len() == 0 {
        Seq::empty()
    } else {
        walk_node(s[0], spec_join_path(dir_path, s[0].name@), cfg, level, s.len() == 1) + walk_nodes(
            s.drop_first(),
            dir_path,
            cfg,
            level,
        )
    }
}

proof fn lemma_filter_subset<A>(s: Seq<A>, pred: spec_fn(A) -> bool, x: A)
    requires
        s.filter(pred).contains(x),
    ensures
        s.contains(x),
    decreases s.len(),
{
    reveal(Seq::filter);
    if s.len() > 0 {
        lemma_unlast_contains(s, x);
        if pred(s.last()) {
            lemma_push_contains(s.drop_last().filter(pred), s.last(), x);
        }
        if x != s.last() {
            lemma_filter_subset(s.drop_last(), pred, x);
        }
    }
}

/// Every prepared child is one of the listed children.
pub proof fn lemma_prepare_subset(children: Seq<FsNode>, cfg: FileIteratorConfig, x: FsNode)
    requires
        spec_prepare(children, cfg).contains(x),
    ensures
        children.contains(x),
{
    let pred = |c: FsNode| spec_child_kept(cfg, c);
    lemma_sort_nodes_contains(children.filter(pred), x);
    lemma_filter_subset(children, pred, x);
}

#[via_fn]
proof fn walk_node_decreases(
    n: FsNode,
    path: Seq<char>,
    cfg: FileIteratorConfig,
    level: nat,
    is_last: bool,
) {
    if meta_is_dir(n.metadata) && level < cfg.max_level {
        let pre = spec_prepare(n.children@, cfg);
        assert forall|i: int| 0 <= i < pre.len() implies n.children@.contains(pre[i]) by {
            assert(pre.contains(pre[i]));
            lemma_prepare_subset(n.children@, cfg, pre[i]);
        }
        lemma_nodes_height_subset(n.children@, pre);
    }
}

#[via_fn]
proof fn walk_nodes_decreases(s: Seq<FsNode>, dir_path: Seq<char>, cfg: FileIteratorConfig, level: nat) {
    if s.len() > 0 {
        lemma_node_height_le(s, 0);
    }
}

/// The full traversal stream for a root path: the root entry (named by its
/// final path component, level 0, last among its siblings), followed by the
/// streams of the root's prepared children when the root is a directory and
/// the depth limit allows expansion.
pub open spec fn spec_walk_from_root(
    path: Seq<char>,
    metadata: Result<FileKind, Seq<char>>,
    children: Seq<FsNode>,
    cfg: FileIteratorConfig,
) -> Seq<EntryModel> {
    seq![
        EntryModel {
            name: spec_last_component(path),
            path,
            metadata,
            level: 0,
            is_last: true,
        },
    ] + if metadata matches Ok(FileKind::Directory) && 0 < cfg.max_level {
        walk_nodes(spec_prepare(children, cfg), path, cfg, 1)
    } else {
        Seq::empty()
    }
}

/// One pending subtree of the work list: a node, its full path, its depth
/// and its sibling position.
struct WalkFrame {
    node: FsNode,
    path: String,
    level: usize,
    is_last: bool,
}

/// The stream a pending frame will contribute.
spec fn frame_walk(f: WalkFrame, cfg: FileIteratorConfig) -> Seq<EntryModel> {
    walk_node(f.node, f.path@, cfg, f.level as nat, f.is_last)
}

/// The contributions of a work list, in emission order: the most recently
/// pushed frame is expanded first.
spec fn stack_walks(stack: Seq<WalkFrame>, cfg: FileIteratorConfig) -> Seq<Seq<EntryModel>> {
    Seq::new(stack.len(), |i: int| frame_walk(stack[stack.len() - 1 - i], cfg))
}

/// The entries a work list still owes, in emission order.
spec fn stack_remaining(stack: Seq<WalkFrame>, cfg: FileIteratorConfig) -> Seq<EntryModel> {
    stack_walks(stack, cfg).flatten()
}

/// The streams of a prepared sibling sequence, one per sibling, where the
/// sibling at index `k - 1` is marked last.
spec fn walks_of(
    s: Seq<FsNode>,
    dir_path: Seq<char>,
    cfg: FileIteratorConfig,
    level: nat,
    k: int,
) -> Seq<Seq<EntryModel>> {
    Seq::new(
        s.len(),
        |i: int| walk_node(s[i], spec_join_path(dir_path, s[i].name@), cfg, level, i == k - 1),
    )
}

proof fn lemma_flatten_cons(w: Seq<Seq<EntryModel>>, x: Seq<EntryModel>, rest: Seq<
    Seq<EntryModel>,
>)
    requires
        w =~= seq![x] + rest,
    ensures
        w.flatten() == x + rest.flatten(),
{
    assert(w.len() > 0);
    assert(w.first() == x);
    assert(w.drop_first() =~= rest);
}

proof fn lemma_stack_push(stack: Seq<WalkFrame>, g: WalkFrame, cfg: FileIteratorConfig)
    ensures
        stack_remaining(stack.push(g), cfg) == frame_walk(g, cfg) + stack_remaining(stack, cfg),
{
    assert(stack_walks(stack.push(g), cfg) =~= seq![frame_walk(g, cfg)] + stack_walks(stack, cfg));
    lemma_flatten_cons(
        stack_walks(stack.push(g), cfg),
        frame_walk(g, cfg),
        stack_walks(stack, cfg),
    );
}

proof fn lemma_walk_nodes_flatten(
    s: Seq<FsNode>,
    dir_path: Seq<char>,
    cfg: FileIteratorConfig,
    level: nat,
)
    ensures
        walk_nodes(s, dir_path, cfg, level) == walks_of(s, dir_path, cfg, level, s.len() as int).flatten(),
    decreases s.len(),
{
    let w = walks_of(s, dir_path, cfg, level, s.len() as int);
    if s.len() == 0 {
        assert(w.len() == 0);
        assert(w.flatten() == Seq::<EntryModel>::empty());
    } else {
        lemma_walk_nodes_flatten(s.drop_first(), dir_path, cfg, level);
        assert(w.drop_first() =~= walks_of(
            s.drop_first(),
            dir_path,
            cfg,
            level,
            s.drop_first().len() as int,
        ));
        assert(w.flatten() == w.first() + w.drop_first().flatten());
        assert(w.first() == walk_node(
            s[0],
            spec_join_path(dir_path, s[0].name@),
            cfg,
            level,
            s.len() == 1,
        ));
    }
}

/// Traverses a whole in-memory subtree with the work-list walker and returns
/// the complete entry stream. The root's metadata and children stand for one
/// symlink-preserving stat and one directory listing made by the caller; the
/// stream equals the recursive traversal specification, so traversing the
/// same tree twice with the same configuration yields the same stream.
pub fn walk_tree(
    path: &str,
    metadata: Result<FileKind, String>,
    children: Vec<FsNode>,
    config: FileIteratorConfig,
) -> (out: Vec<IteratorItem>)
    ensures
        out@.map_values(|it: IteratorItem| it@) == spec_walk_from_root(
            path@,
            meta_view(metadata),
            children@,
            config,
        ),
{
    let root_name = path_to_str(path).to_owned();
    let root_path = path.to_owned();
    let root = FsNode { name: root_name, metadata, children };
    let ghost target = walk_node(root, path@, config, 0, true);
    proof {
        assert(target == spec_walk_from_root(path@, meta_view(metadata), children@, config));
    }
    let mut out: Vec<IteratorItem> = Vec::new();
    let mut stack: Vec<WalkFrame> = Vec::new();
    stack.push(WalkFrame { node: root, path: root_path, level: 0, is_last: true });
    proof {
        lemma_stack_push(Seq::<WalkFrame>::empty(), stack@[0], config);
        assert(stack@ =~= Seq::<WalkFrame>::empty().push(stack@[0]));
        assert(stack_walks(Seq::<WalkFrame>::empty(), config).len() == 0);
        assert(stack_walks(Seq::<WalkFrame>::empty(), config).flatten()
            == Seq::<EntryModel>::empty());
        assert(frame_walk(stack@[0], config) == target);
        assert(target + Seq::<EntryModel>::empty() =~= target);
        assert(out@.map_values(|it: IteratorItem| it@) =~= Seq::<EntryModel>::empty());
        assert(Seq::<EntryModel>::empty() + stack_remaining(stack@, config) =~= stack_remaining(
            stack@,
            config,
        ));
    }
    while stack.len() > 0
        invariant
            out@.map_values(|it: IteratorItem| it@) + stack_remaining(stack@, config) == target,
        decreases target.len() - out@.len(),
    {
        let ghost stack0 = stack@;
        let ghost out0 = out@;
        let f = stack.pop().unwrap();
        let ghost fg = f;
        proof {
            assert(stack0 =~= stack@.push(fg));
            lemma_stack_push(stack@, fg, config);
        }
        let WalkFrame { node, path: fpath, level, is_last } = f;
        let is_dir = match &node.metadata {
            Ok(FileKind::Directory) => true,
            _ => false,
        };
        let expandable = is_dir && level < config.max_level;
        let FsNode { name, metadata: fmeta, children: fchildren } = node;
        let item = IteratorItem {
            file_name: name,
            path: fpath.clone(),
            metadata: fmeta,
            level,
            is_last,
        };
        proof {
            assert(item@ == entry_of(fg.node, fpath@, level as nat, is_last));
            assert(frame_walk(fg, config) == seq![item@] + if expandable {
                walk_nodes(
                    spec_prepare(fg.node.children@, config),
                    fpath@,
                    config,
                    level as nat + 1,
                )
            } else {
                Seq::<EntryModel>::empty()
            });
        }
        out.push(item);
        proof {
            assert(out@.map_values(|it: IteratorItem| it@) =~= out0.map_values(
                |it: IteratorItem| it@,
            ).push(item@));
        }
        if expandable {
            let prepared = prepare_children(fchildren, &config);
            let ghost pre = prepared@;
            let ghost k = pre.len() as int;
            let ghost w = walks_of(pre, fpath@, config, level as nat + 1, k);
            proof {
                lemma_walk_nodes_flatten(pre, fpath@, config, level as nat + 1);
            }
            let count = prepared.len();
            let mut rest = prepared;
            proof {
                assert(rest@ =~= pre.take(k));
                assert(w.take(k) =~= w);
                // target == out + flatten(w.take(k)) + remaining(stack)
                assert(out@.map_values(|it: IteratorItem| it@) + (walk_nodes(
                    pre,
                    fpath@,
                    config,
                    level as nat + 1,
                ) + stack_remaining(stack@, config)) =~= target);
                assert(out@.map_values(|it: IteratorItem| it@) + (w.take(k).flatten()
                    + stack_remaining(stack@, config)) =~= target);
            }
            while rest.len() > 0
                invariant
                    k == pre.len() as int,
                    count == pre.len(),
                    rest@.len() <= pre.len(),
                    rest@ == pre.take(rest@.len() as int),
                    w == walks_of(pre, fpath@, config, level as nat + 1, k),
                    level < config.max_level,
                    out@.map_values(|it: IteratorItem| it@) + (w.take(rest@.len() as int).flatten()
                        + stack_remaining(stack@, config)) == target,
                decreases rest@.len(),
            {
                let ghost stack1 = stack@;
                let child = rest.pop().unwrap();
                let ghost i = rest@.len() as int;
                proof {
                    assert(pre.take(i + 1).last() == pre[i]);
                    assert(child == pre[i]);
                    assert(pre.take(i + 1).drop_last() =~= pre.take(i));
                }
                let child_is_last = rest.len() + 1 == count;
                let child_path = join_path(fpath.as_str(), child.name.as_str());
                let g = WalkFrame {
                    node: child,
                    path: child_path,
                    level: level + 1,
                    is_last: child_is_last,
                };
                proof {
                    assert(frame_walk(g, config) == w[i]);
                }
                stack.push(g);
                proof {
                    lemma_stack_push(stack1, g, config);
                    w.take(i).lemma_flatten_push(w[i]);
                    assert(w.take(i).push(w[i]) =~= w.take(i + 1));
                    assert(w.take(i + 1).flatten() == w.take(i).flatten() + w[i]);
                    // regroup: out + (take(i+1).flatten + rem1) == out + (take(i).flatten + (w[i] + rem1))
                    assert(w.take(i + 1).flatten() + stack_remaining(stack1, config) =~= w.take(
                        i,
                    ).flatten() + (w[i] + stack_remaining(stack1, config)));
                }
            }
            proof {
                assert(w.take(0).len() == 0);
                assert(w.take(0).flatten() == Seq::<EntryModel>::empty());
                assert(Seq::<EntryModel>::empty() + stack_remaining(stack@, config)
                    =~= stack_remaining(stack@, config));
            }
        } else {
            proof {
                assert(seq![item@] + Seq::<EntryModel>::empty() =~= seq![item@]);
                assert(out@.map_values(|it: IteratorItem| it@) + stack_remaining(stack@, config)
                    =~= out0.map_values(|it: IteratorItem| it@) + (seq![item@]
                    + stack_remaining(stack@, config)));
            }
        }
    }
    proof {
        assert(stack_walks(stack@, config).len() == 0);
        assert(stack_remaining(stack@, config) == Seq::<EntryModel>::empty());
        assert(out@.map_values(|it: IteratorItem| it@) + Seq::<EntryModel>::empty()
            =~= out@.map_values(|it: IteratorItem| it@));
    }
    out
}

/// The entries for a prepared sibling sequence at one depth, in traversal
/// order; the final sibling is marked last.
pub open spec fn items_of(s: Seq<FsNode>, dir_path: Seq<char>, level: nat) -> Seq<EntryModel> {
    Seq::new(
        s.len(),
        |i: int| entry_of(s[i], spec_join_path(dir_path, s[i].name@), level, i == s.len() - 1),
    )
}

/// The lazy work-list walker over a live directory tree. The caller performs
/// the filesystem work: it pops entries with `next`, and when `wants_children`
/// holds for a popped entry it lists that directory and hands the raw listing
/// to `push_dir`. Eligible children are pushed in reverse sorted order, so
/// popping yields sorted pre-order; on a listing failure the caller simply
/// does not call `push_dir` and the directory contributes no children.
#[derive(Debug)]
pub struct FileIterator {
    queue: Vec<IteratorItem>,
    config: FileIteratorConfig,
}

impl FileIterator {
    /// The pending entries, in work-list order: the entry popped next is the
    /// last of the sequence.
    pub closed spec fn spec_queue(&self) -> Seq<EntryModel> {
        self.queue@.map_values(|it: IteratorItem| it@)
    }

    /// The traversal configuration, immutable after construction.
    pub closed spec fn spec_config(&self) -> FileIteratorConfig {
        self.config
    }

    /// Seeds the work list with the root entry at level 0, marked last among
    /// its (absent) siblings. The metadata is the caller's symlink-preserving
    /// stat of the root path.
    pub fn new(path: &str, metadata: Result<FileKind, String>, config: FileIteratorConfig) -> (r:
        FileIterator)
        ensures
            r.spec_config() == config,
            r.spec_queue() == seq![
                EntryModel {
                    name: spec_last_component(path@),
                    path: path@,
                    metadata: meta_view(metadata),
                    level: 0,
                    is_last: true,
                },
            ],
    {
        let root = IteratorItem::new(path, metadata, 0, true);
        let mut queue: Vec<IteratorItem> = Vec::new();
        queue.push(root);
        proof {
            assert(queue@.map_values(|it: IteratorItem| it@) =~= seq![queue@[0]@]);
        }
        FileIterator { queue, config }
    }

    /// Pops the most recently pushed entry; `None` once the work list is
    /// empty.
    pub fn next(&mut self) -> (r: Option<IteratorItem>)
        ensures
            final(self).spec_config() == old(self).spec_config(),
            old(self).spec_queue().len() == 0 ==> r is None && final(self).spec_queue() == old(
                self,
            ).spec_queue(),
            old(self).spec_queue().len() > 0 ==> (r matches Some(it) && it@ == old(
                self,
            ).spec_queue().last() && final(self).spec_queue() == old(
                self,
            ).spec_queue().drop_last()),
    {
        let r = self.queue.pop();
        proof {
            if old(self).queue@.len() > 0 {
                assert(self.queue@.map_values(|it: IteratorItem| it@) =~= old(
                    self,
                ).queue@.map_values(|it: IteratorItem| it@).drop_last());
            }
        }
        r
    }

    /// Whether a popped entry is a directory that the depth limit allows
    /// expanding; the caller should list it and call `push_dir`.
    pub fn wants_children(&self, item: &IteratorItem) -> (r: bool)
        ensures
            r == (item@.metadata matches Ok(FileKind::Directory) && item@.level
                < self.spec_config().max_level as nat),
    {
        item.is_dir() && item.level < self.config.max_level
    }

    /// Expands a popped directory entry from the caller's raw listing:
    /// keeps the eligible children, sorts them by name, marks the greatest
    /// as last sibling, and pushes them in reverse order so that they pop in
    /// ascending order.
    pub fn push_dir(&mut self, item: &IteratorItem, children: Vec<FsNode>)
        requires
            item@.level < old(self).spec_config().max_level as nat,
        ensures
            final(self).spec_config() == old(self).spec_config(),
            final(self).spec_queue() == old(self).spec_queue() + items_of(
                spec_prepare(children@, old(self).spec_config()),
                item@.path,
                item@.level + 1,
            ).reverse(),
    {
        let ghost q0 = self.queue@.map_values(|it: IteratorItem| it@);
        let prepared = prepare_children(children, &self.config);
        let ghost pre = prepared@;
        let ghost k = pre.len() as int;
        let ghost target = items_of(pre, item@.path, item@.level + 1);
        let count = prepared.len();
        let mut rest = prepared;
        proof {
            assert(rest@ =~= pre.take(k));
            assert(target.subrange(k, k).reverse() =~= Seq::<EntryModel>::empty());
            assert(q0 + target.subrange(k, k).reverse() =~= q0);
        }
        while rest.len() > 0
            invariant
                k == pre.len() as int,
                count == pre.len(),
                rest@.len() <= pre.len(),
                rest@ == pre.take(rest@.len() as int),
                target == items_of(pre, item@.path, item@.level + 1),
                item.level < self.config.max_level,
                self.config == old(self).config,
                self.queue@.map_values(|it: IteratorItem| it@) == q0 + target.subrange(
                    rest@.len() as int,
                    k,
                ).reverse(),
            decreases rest@.len(),
        {
            let ghost q1 = self.queue@.map_values(|it: IteratorItem| it@);
            let child = rest.pop().unwrap();
            let ghost i = rest@.len() as int;
            proof {
                assert(pre.take(i + 1).last() == pre[i]);
                assert(child == pre[i]);
                assert(pre.take(i + 1).drop_last() =~= pre.take(i));
            }
            let child_is_last = rest.len() + 1 == count;
            let child_path = join_path(item.path.as_str(), child.name.as_str());
            let FsNode { name, metadata, children: _ } = child;
            let entry = IteratorItem {
                file_name: name,
                path: child_path,
                metadata,
                level: item.level + 1,
                is_last: child_is_last,
            };
            proof {
                assert(entry@ == target[i]);
            }
            self.queue.push(entry);
            proof {
                assert(self.queue@.map_values(|it: IteratorItem| it@) =~= q1.push(target[i]));
                assert(q1.push(target[i]) =~= q0 + target.subrange(i, k).reverse());
            }
        }
        proof {
            assert(target.subrange(0, k) =~= target);
        }
    }
}

/// The given path without its trailing `/` separators.
pub open spec fn strip_trailing_slashes(p: Seq<char>) -> Seq<char>
    decreases p.len(),
{
    if p.len() > 0 && p.last() == '/' {
        strip_trailing_slashes(p.drop_last())
    } else {
        p
    }
}

/// The suffix of `p` after its last `/`; the whole of `p` when it holds no `/`.
pub open spec fn after_last_slash(p: Seq<char>) -> Seq<char>
    decreases p.len(),
{
    if p.len() == 0 {
        Seq::empty()
    } else if p.last() == '/' {
        Seq::empty()
    } else {
        after_last_slash(p.drop_last()).push(p.last())
    }
}

proof fn lemma_strip_trailing_slashes_len(p: Seq<char>)
    ensures
        strip_trailing_slashes(p).len() <= p.len(),
    decreases p.len(),
{
    if p.len() > 0 && p.last() == '/' {
        lemma_strip_trailing_slashes_len(p.drop_last());
    }
}

/// The path without its trailing separators and trailing `.` components:
/// `a/.` and `a/./` both name the directory `a`, as standard path parsing
/// has it.
pub open spec fn strip_dot_components(p: Seq<char>) -> Seq<char>
    decreases p.len(),
        via strip_dot_components_decreases
{
    let t = strip_trailing_slashes(p);
    if t.len() > 0 && after_last_slash(t) == seq!['.'] {
        strip_dot_components(t.take(t.len() - 1))
    } else {
        t
    }
}

#[via_fn]
proof fn strip_dot_components_decreases(p: Seq<char>) {
    lemma_strip_trailing_slashes_len(p);
}

/// The final component of a path: the text after the last separator, with
/// trailing separators and trailing `.` components ignored; the path itself
/// when no component is left (for example `/` or `.`) or when the final
/// component is `..`.
pub open spec fn spec_last_component(p: Seq<char>) -> Seq<char> {
    let s = after_last_slash(strip_dot_components(p));
    if s.len() == 0 || s == seq!['.', '.'] {
        p
    } else {
        s
    }
}

proof fn lemma_after_last_slash_skip(t: Seq<char>, i: int)
    requires
        0 <= i <= t.len(),
        forall|m: int| i <= m < t.len() ==> t[m] != '/',
        i > 0 ==> t[i - 1] == '/',
    ensures
        after_last_slash(t) == t.skip(i),
    decreases t.len(),
{
    if t.len() == 0 {
        assert(t.skip(i) =~= Seq::<char>::empty());
    } else if t.last() == '/' {
        assert(i == t.len());
        assert(t.skip(i) =~= Seq::<char>::empty());
    } else {
        assert(i < t.len());
        lemma_after_last_slash_skip(t.drop_last(), i);
        assert(t.drop_last().skip(i) =~= t.skip(i).drop_last());
        assert(t.skip(i).drop_last().push(t.last()) =~= t.skip(i));
    }
}

/// Returns the final component of a path: the text after the last `/`, with
/// trailing separators and trailing `.` components ignored, or the path
/// itself when it has no component (for example `/` or `.`) or ends in the
/// parent component `..` — as the standard path parsing names files.
pub fn path_to_str(path: &str) -> (r: &str)
    ensures
        r@ == spec_last_component(path@),
{
    let len = path.unicode_len();
    let mut j: usize = len;
    proof {
        assert(path@.take(len as int) =~= path@);
    }
    loop
        invariant
            j <= len,
            len == path@.len(),
            strip_dot_components(path@) == strip_dot_components(path@.take(j as int)),
        decreases j,
    {
        let ghost j0 = j;
        while j > 0 && path.get_char(j - 1) == '/'
            invariant
                j <= j0,
                j0 <= len,
                len == path@.len(),
                strip_dot_components(path@) == strip_dot_components(path@.take(j as int)),
            decreases j,
        {
            proof {
                let t = path@.take(j as int);
                assert(t.last() == path@[j - 1]);
                assert(strip_trailing_slashes(t) == strip_trailing_slashes(t.drop_last()));
                assert(t.drop_last() =~= path@.take(j - 1));
            }
            j = j - 1;
        }
        if j == 0 {
            proof {
                assert(path@.take(0).len() == 0);
                assert(strip_trailing_slashes(path@.take(0)) == path@.take(0));
                assert(strip_dot_components(path@.take(0)).len() == 0);
                assert(after_last_slash(strip_dot_components(path@)).len() == 0);
            }
            return path;
        }
        let mut i: usize = j;
        while i > 0 && path.get_char(i - 1) != '/'
            invariant
                i <= j,
                0 < j <= j0,
                j0 <= len,
                len == path@.len(),
                path@[j - 1] != '/',
                strip_dot_components(path@) == strip_dot_components(path@.take(j as int)),
                forall|m: int| i <= m < j ==> path@[m] != '/',
            decreases i,
        {
            i = i - 1;
        }
        proof {
            assert(i < j);
        }
        proof {
            let t = path@.take(j as int);
            assert(t.last() == path@[j - 1]);
            assert(path@[j - 1] != '/');
            assert(strip_trailing_slashes(t) == t);
            lemma_after_last_slash_skip(t, i as int);
            assert(t.skip(i as int).len() == j - i);
            assert(t.skip(i as int)[0] == path@[i as int]);
        }
        if j - i == 1 && path.get_char(i) == '.' {
            // A trailing `.` component names its parent directory; drop it
            // and keep looking.
            proof {
                let t = path@.take(j as int);
                assert(t.skip(i as int) =~= seq!['.']);
                assert(t.take(t.len() - 1) =~= path@.take(i as int));
            }
            j = i;
        } else {
            proof {
                let t = path@.take(j as int);
                let s = t.skip(i as int);
                assert(s != seq!['.']) by {
                    if s == seq!['.'] {
                        assert(s.len() == 1);
                        assert(s[0] == '.');
                    }
                }
                assert(strip_dot_components(t) == t);
            }
            if j - i == 2 && path.get_char(i) == '.' && path.get_char(i + 1) == '.' {
                // A path ending in the parent component `..` has no final
                // component; fall back to the whole path.
                proof {
                    let t = path@.take(j as int);
                    assert(t.skip(i as int)[1] == path@[i + 1]);
                    assert(t.skip(i as int) =~= seq!['.', '.']);
                }
                return path;
            }
            proof {
                let t = path@.take(j as int);
                let s = t.skip(i as int);
                assert(s != seq!['.', '.']) by {
                    if s == seq!['.', '.'] {
                        assert(s.len() == 2);
                        assert(s[0] == '.');
                        assert(s[1] == '.');
                        assert(path@[i + 1] == s[1]);
                    }
                }
                assert(s =~= path@.subrange(i as int, j as int));
                assert(s.len() > 0);
            }
            return path.substring_char(i, j);
        }
    }
}

/// The full path of a child: the directory path and the name with a single
/// `/` between them; no separator is added when the directory path already
/// ends with one.
pub open spec fn spec_join_path(dir: Seq<char>, name: Seq<char>) -> Seq<char> {
    if dir.len() > 0 && dir.last() == '/' {
        dir + name
    } else {
        dir + seq!['/'] + name
    }
}

/// Joins a directory path and a child name with a single `/` separator.
pub fn join_path(dir: &str, name: &str) -> (r: String)
    ensures
        r@ == spec_join_path(dir@, name@),
{
    let dlen = dir.unicode_len();
    let mut s = dir.to_owned();
    if dlen == 0 || dir.get_char(dlen - 1) != '/' {
        s.append("/");
        proof {
            reveal_strlit("/");
            assert("/"@ =~= seq!['/']);
        }
    }
    s.append(name);
    proof {
        assert(s@ =~= spec_join_path(dir@, name@));
    }
    s
}

} // verus!
