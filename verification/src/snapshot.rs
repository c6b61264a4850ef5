//! The snapshot builder.
//!
//! `DirTree` is the raw, unsorted listing of a directory subtree, exactly as
//! the filesystem hands it over. `MapSnapshot::new` turns it into the
//! snapshot: children of every directory deeper than the depth bound are
//! elided (the directory node itself is kept), and within each directory the
//! subdirectory snapshots come first and the plain files after, each group in
//! byte-wise lexicographic path order. `build_spec` is the mathematical
//! definition of that snapshot, and `new` is proved to return exactly it.

use vstd::prelude::*;

use crate::order::lex_le;
use crate::order::lex_le_bytes;
use crate::order::copy_bytes;
use crate::order::paths_view;
use crate::order::path_sort;
use crate::order::sort_paths;

verus! {

/// One level of a raw directory listing: the directory's own path, its
/// immediate subdirectories (each carrying its own listing; an unexplored
/// one is listed with no contents), and its plain files. Nothing here is
/// sorted; the builder owns all ordering.
pub struct DirTree {
    pub path: Vec<u8>,
    pub dirs: Vec<DirTree>,
    pub files: Vec<Vec<u8>>,
}

/// The mathematical model of a raw directory listing.
#[verifier::ext_equal]
pub ghost struct TreeV {
    pub path: Seq<u8>,
    pub dirs: Seq<TreeV>,
    pub files: Seq<Seq<u8>>,
}

/// A snapshot entry: a plain file leaf, or a nested directory snapshot.
pub enum FsEntry {
    File(Vec<u8>),
    Dir(MapSnapshot),
}

/// One directory level of the snapshot: its path, its ordered children, and
/// the depth at which it sits (root = 0), which governs its indentation.
pub struct MapSnapshot {
    pub directory: Vec<u8>,
    pub children: Vec<FsEntry>,
    pub depth: usize,
}

/// The mathematical model of a snapshot entry.
#[verifier::ext_equal]
pub ghost enum EntryV {
    File(Seq<u8>),
    Dir(SnapV),
}

/// The mathematical model of one snapshot level.
#[verifier::ext_equal]
pub ghost struct SnapV {
    pub directory: Seq<u8>,
    pub children: Seq<EntryV>,
    pub depth: nat,
}

/// The model of a raw listing.
pub open spec fn tree_view(t: DirTree) -> TreeV
    decreases t,
{
    TreeV { path: t.path@, dirs: trees_view(t.dirs@), files: paths_view(t.files@) }
}

/// The models of a sequence of raw listings, in order.
pub open spec fn trees_view(ts: Seq<DirTree>) -> Seq<TreeV>
    decreases ts,
{
    if ts.len() == 0 {
        Seq::empty()
    } else {
        trees_view(ts.subrange(0, ts.len() - 1)).push(tree_view(ts[ts.len() - 1]))
    }
}

impl View for DirTree {
    type V = TreeV;

    open spec fn view(&self) -> TreeV {
        tree_view(*self)
    }
}

/// `trees_view` maps `tree_view` over the sequence, index by index.
pub proof fn lemma_trees_view(ts: Seq<DirTree>)
    ensures
        trees_view(ts).len() == ts.len(),
        forall|i: int| 0 <= i < ts.len() ==> trees_view(ts)[i] == tree_view(ts[i]),
    decreases ts.len(),
{
    if ts.len() > 0 {
        let head = ts.subrange(0, ts.len() - 1);
        lemma_trees_view(head);
        assert forall|i: int| 0 <= i < ts.len() implies trees_view(ts)[i] == tree_view(ts[i]) by {
            if i < ts.len() - 1 {
                assert(trees_view(ts)[i] == trees_view(head)[i]);
                assert(head[i] == ts[i]);
            }
        }
    }
}

/// The model of a snapshot.
pub open spec fn snap_view(s: MapSnapshot) -> SnapV
    decreases s,
{
    SnapV {
        directory: s.directory@,
        children: entries_view(s.children@),
        depth: s.depth as nat,
    }
}

/// The models of a sequence of snapshot entries, in order.
pub open spec fn entries_view(es: Seq<FsEntry>) -> Seq<EntryV>
    decreases es,
{
    if es.len() == 0 {
        Seq::empty()
    } else {
        entries_view(es.subrange(0, es.len() - 1)).push(entry_view(es[es.len() - 1]))
    }
}

/// The model of one snapshot entry.
pub open spec fn entry_view(e: FsEntry) -> EntryV
    decreases e,
{
    match e {
        FsEntry::File(p) => EntryV::File(p@),
        FsEntry::Dir(d) => EntryV::Dir(snap_view(d)),
    }
}

impl View for MapSnapshot {
    type V = SnapV;

    open spec fn view(&self) -> SnapV {
        snap_view(*self)
    }
}

impl View for FsEntry {
    type V = EntryV;

    open spec fn view(&self) -> EntryV {
        entry_view(*self)
    }
}

/// `entries_view` maps `entry_view` over the sequence, index by index.
pub proof fn lemma_entries_view(es: Seq<FsEntry>)
    ensures
        entries_view(es).len() == es.len(),
        forall|i: int| 0 <= i < es.len() ==> entries_view(es)[i] == entry_view(es[i]),
    decreases es.len(),
{
    if es.len() > 0 {
        let head = es.subrange(0, es.len() - 1);
        lemma_entries_view(head);
        assert forall|i: int| 0 <= i < es.len() implies entries_view(es)[i] == entry_view(es[i]) by {
            if i < es.len() - 1 {
                assert(entries_view(es)[i] == entries_view(head)[i]);
                assert(head[i] == es[i]);
            }
        }
    }
}

/// The models of a sequence of snapshots, in order.
pub open spec fn snaps_view(v: Seq<MapSnapshot>) -> Seq<SnapV> {
    Seq::new(v.len(), |i: int| snap_view(v[i]))
}

/// Inserts a snapshot in front of the first one whose path is not below its
/// own.
pub open spec fn snap_insert(x: SnapV, s: Seq<SnapV>) -> Seq<SnapV>
    decreases s.len(),
{
    if s.len() == 0 {
        seq![x]
    } else if lex_le(x.directory, s[0].directory) {
        seq![x] + s
    } else {
        seq![s[0]] + snap_insert(x, s.subrange(1, s.len() as int))
    }
}

/// Insertion sort of snapshots by their directory path.
pub open spec fn snap_sort(s: Seq<SnapV>) -> Seq<SnapV>
    decreases s.len(),
{
    if s.len() == 0 {
        Seq::empty()
    } else {
        snap_insert(s[s.len() - 1], snap_sort(s.subrange(0, s.len() - 1)))
    }
}

/// Wraps each snapshot as a directory entry.
pub open spec fn dir_entries(s: Seq<SnapV>) -> Seq<EntryV> {
    s.map_values(|x: SnapV| EntryV::Dir(x))
}

/// Wraps each path as a file entry.
pub open spec fn file_entries(s: Seq<Seq<u8>>) -> Seq<EntryV> {
    s.map_values(|p: Seq<u8>| EntryV::File(p))
}

/// The snapshot of a raw listing: the directory itself at `depth`; no
/// children at all beyond `max_depth`; otherwise the sorted snapshots of its
/// subdirectories (each built one level deeper) followed by its sorted files.
pub open spec fn build_spec(t: TreeV, max_depth: int, depth: nat) -> SnapV
    decreases t,
{
    SnapV {
        directory: t.path,
        depth,
        children: if depth > max_depth {
            Seq::empty()
        } else {
            dir_entries(snap_sort(build_subs(t.dirs, max_depth, depth + 1)))
                + file_entries(path_sort(t.files))
        },
    }
}

/// The snapshots of a sequence of raw listings, in the given order.
pub open spec fn build_subs(ts: Seq<TreeV>, max_depth: int, depth: nat) -> Seq<SnapV>
    decreases ts,
{
    if ts.len() == 0 {
        Seq::empty()
    } else {
        build_subs(ts.subrange(0, ts.len() - 1), max_depth, depth).push(
            build_spec(ts[ts.len() - 1], max_depth, depth),
        )
    }
}

/// `build_subs` maps `build_spec` over the sequence, index by index.
pub proof fn lemma_build_subs(ts: Seq<TreeV>, max_depth: int, depth: nat)
    ensures
        build_subs(ts, max_depth, depth).len() == ts.len(),
        forall|i: int|
            0 <= i < ts.len() ==> build_subs(ts, max_depth, depth)[i] == build_spec(
                ts[i],
                max_depth,
                depth,
            ),
    decreases ts.len(),
{
    if ts.len() > 0 {
        let head = ts.subrange(0, ts.len() - 1);
        lemma_build_subs(head, max_depth, depth);
        assert forall|i: int| 0 <= i < ts.len() implies build_subs(ts, max_depth, depth)[i]
            == build_spec(ts[i], max_depth, depth) by {
            if i < ts.len() - 1 {
                assert(build_subs(ts, max_depth, depth)[i] == build_subs(head, max_depth, depth)[i]);
                assert(head[i] == ts[i]);
            }
        }
    }
}

/// `snap_insert` splices `x` exactly at the first position whose snapshot's
/// path is not below `x`'s.
pub proof fn lemma_snap_insert_at(x: SnapV, s: Seq<SnapV>, j: int)
    requires
        0 <= j <= s.len(),
        forall|k: int| 0 <= k < j ==> !lex_le(x.directory, s[k].directory),
        j < s.len() ==> lex_le(x.directory, s[j].directory),
    ensures
        snap_insert(x, s) == s.take(j) + seq![x] + s.skip(j),
    decreases j,
{
    if j == 0 {
        assert(snap_insert(x, s) =~= s.take(0) + seq![x] + s.skip(0));
    } else {
        let rest = s.subrange(1, s.len() as int);
        assert forall|k: int| 0 <= k < j - 1 implies !lex_le(x.directory, rest[k].directory) by {
            assert(rest[k] == s[k + 1]);
        }
        assert(j - 1 < rest.len() ==> lex_le(x.directory, rest[j - 1].directory));
        lemma_snap_insert_at(x, rest, j - 1);
        assert(snap_insert(x, s) =~= s.take(j) + seq![x] + s.skip(j));
    }
}

/// Finds the first position in `v` whose snapshot's path is at or above
/// `x`'s.
fn snap_insert_pos(v: &Vec<MapSnapshot>, x: &MapSnapshot) -> (j: usize)
    ensures
        j <= v.len(),
        forall|k: int| 0 <= k < j ==> !lex_le(x.directory@, v@[k].directory@),
        j < v.len() ==> lex_le(x.directory@, v@[j as int].directory@),
    decreases v.len(),
{
    let mut j: usize = 0;
    while j < v.len()
        invariant
            j <= v.len(),
            forall|k: int| 0 <= k < j ==> !lex_le(x.directory@, v@[k].directory@),
        decreases v.len() - j,
    {
        if lex_le_bytes(&x.directory, &v[j].directory) {
            return j;
        }
        j += 1;
    }
    j
}

/// Inserts one snapshot into an already sorted vector, as `snap_insert` says.
fn snap_do_insert(out: &mut Vec<MapSnapshot>, x: MapSnapshot)
    ensures
        snaps_view(final(out)@) == snap_insert(snap_view(x), snaps_view(old(out)@)),
{
    let ghost s0 = snaps_view(out@);
    let j = snap_insert_pos(out, &x);
    proof {
        assert forall|k: int| 0 <= k < j implies !lex_le(snap_view(x).directory, s0[k].directory) by {
            assert(s0[k] == snap_view(out@[k]));
        }
        assert(j < out@.len() ==> lex_le(snap_view(x).directory, s0[j as int].directory));
        lemma_snap_insert_at(snap_view(x), s0, j as int);
    }
    out.insert(j, x);
    proof {
        assert(snaps_view(out@) =~= s0.take(j as int) + seq![snap_view(x)] + s0.skip(j as int));
    }
}

/// Sorts a vector of snapshots by directory path; the result is exactly
/// `snap_sort` of the input's models.
fn sort_snaps(v: Vec<MapSnapshot>) -> (r: Vec<MapSnapshot>)
    ensures
        snaps_view(r@) == snap_sort(snaps_view(v@)),
{
    let ghost orig = snaps_view(v@);
    let mut rest = v;
    let mut out: Vec<MapSnapshot> = Vec::new();
    let ghost mut i: int = 0;
    proof {
        assert(snaps_view(out@) =~= Seq::<SnapV>::empty());
        assert(orig.take(0) =~= Seq::<SnapV>::empty());
        assert(snaps_view(rest@) =~= orig.skip(0));
    }
    while rest.len() > 0
        invariant
            0 <= i <= orig.len(),
            rest@.len() == orig.len() - i,
            snaps_view(rest@) == orig.skip(i),
            snaps_view(out@) == snap_sort(orig.take(i)),
        decreases rest.len(),
    {
        let ghost rest0 = rest@;
        let x = rest.remove(0);
        proof {
            assert(snap_view(x) == snaps_view(rest0)[0]);
            assert(snap_view(x) == orig.skip(i)[0]);
            assert(orig.skip(i)[0] == orig[i]);
            assert(rest@ =~= rest0.subrange(1, rest0.len() as int));
            assert forall|n: int| 0 <= n < rest@.len() implies snaps_view(rest@)[n] == orig.skip(
                i + 1,
            )[n] by {
                assert(rest@[n] == rest0[n + 1]);
                assert(snaps_view(rest0)[n + 1] == snap_view(rest0[n + 1]));
                assert(orig.skip(i)[n + 1] == orig[i + n + 1]);
                assert(orig.skip(i + 1)[n] == orig[i + 1 + n]);
            }
            assert(snaps_view(rest@) =~= orig.skip(i + 1));
        }
        snap_do_insert(&mut out, x);
        proof {
            i = i + 1;
            assert(orig.take(i).subrange(0, i - 1) =~= orig.take(i - 1));
            assert(orig.take(i)[i - 1] == orig[i - 1]);
        }
    }
    proof {
        assert(orig.take(orig.len() as int) =~= orig);
    }
    out
}

impl MapSnapshot {
    /// Builds the snapshot of `tree` at `depth`, bounded by `max_depth`:
    /// exactly `build_spec` of the listing's model.
    pub fn new(tree: &DirTree, max_depth: u8, depth: usize) -> (s: MapSnapshot)
        ensures
            s@ == build_spec(tree@, max_depth as int, depth as nat),
        decreases *tree,
    {
        let directory = copy_bytes(&tree.path);
        if depth > max_depth as usize {
            let s = MapSnapshot { directory, children: Vec::new(), depth };
            proof {
                assert(entries_view(s.children@) =~= Seq::<EntryV>::empty());
                assert(s@ =~= build_spec(tree@, max_depth as int, depth as nat));
            }
            return s;
        }
        let ghost dirs_v = tree@.dirs;
        proof {
            lemma_trees_view(tree.dirs@);
        }
        let mut subs: Vec<MapSnapshot> = Vec::new();
        let mut i: usize = 0;
        proof {
            assert(snaps_view(subs@) =~= Seq::<SnapV>::empty());
            assert(dirs_v.take(0) =~= Seq::<TreeV>::empty());
        }
        while i < tree.dirs.len()
            invariant
                i <= tree.dirs.len(),
                depth <= max_depth as usize,
                dirs_v == trees_view(tree.dirs@),
                dirs_v.len() == tree.dirs@.len(),
                forall|k: int| 0 <= k < tree.dirs@.len() ==> dirs_v[k] == tree_view(tree.dirs@[k]),
                snaps_view(subs@) == build_subs(
                    dirs_v.take(i as int),
                    max_depth as int,
                    (depth + 1) as nat,
                ),
            decreases tree.dirs.len() - i,
        {
            let child = Self::new(&tree.dirs[i], max_depth, depth + 1);
            subs.push(child);
            i += 1;
            proof {
                let pre = dirs_v.take(i as int);
                assert(pre.subrange(0, i - 1) =~= dirs_v.take(i - 1));
                assert(pre[i - 1] == dirs_v[i - 1]);
                assert(snaps_view(subs@) =~= build_subs(
                    dirs_v.take(i - 1),
                    max_depth as int,
                    (depth + 1) as nat,
                ).push(snap_view(child)));
            }
        }
        proof {
            assert(dirs_v.take(dirs_v.len() as int) =~= dirs_v);
        }
        let sorted = sort_snaps(subs);
        let ghost sorted_v = snaps_view(sorted@);
        let sorted_files = sort_paths(&tree.files);
        let ghost files_v = paths_view(sorted_files@);
        let mut children: Vec<FsEntry> = Vec::new();
        let mut rest = sorted;
        let ghost mut k: int = 0;
        proof {
            assert(entries_view(children@) =~= Seq::<EntryV>::empty());
            assert(dir_entries(sorted_v).take(0) =~= Seq::<EntryV>::empty());
            assert(snaps_view(rest@) =~= sorted_v.skip(0));
        }
        while rest.len() > 0
            invariant
                0 <= k <= sorted_v.len(),
                rest@.len() == sorted_v.len() - k,
                snaps_view(rest@) == sorted_v.skip(k),
                entries_view(children@) == dir_entries(sorted_v).take(k),
            decreases rest.len(),
        {
            let ghost rest0 = rest@;
            let d = rest.remove(0);
            proof {
                assert(snap_view(d) == snaps_view(rest0)[0]);
                assert(snap_view(d) == sorted_v.skip(k)[0]);
                assert(sorted_v.skip(k)[0] == sorted_v[k]);
                assert(rest@ =~= rest0.subrange(1, rest0.len() as int));
                assert forall|n: int| 0 <= n < rest@.len() implies snaps_view(rest@)[n]
                    == sorted_v.skip(k + 1)[n] by {
                    assert(rest@[n] == rest0[n + 1]);
                    assert(snaps_view(rest0)[n + 1] == snap_view(rest0[n + 1]));
                    assert(sorted_v.skip(k)[n + 1] == sorted_v[k + n + 1]);
                    assert(sorted_v.skip(k + 1)[n] == sorted_v[k + 1 + n]);
                }
                assert(snaps_view(rest@) =~= sorted_v.skip(k + 1));
            }
            let ghost children0 = children@;
            children.push(FsEntry::Dir(d));
            proof {
                k = k + 1;
                let prev = children@.subrange(0, children@.len() - 1);
                assert(prev =~= children0);
                assert(entries_view(children@) == entries_view(prev).push(
                    entry_view(children@[children@.len() - 1]),
                ));
                assert(children@[children@.len() - 1] == FsEntry::Dir(d));
                assert(entry_view(FsEntry::Dir(d)) == EntryV::Dir(snap_view(d)));
                assert(dir_entries(sorted_v)[k - 1] == EntryV::Dir(sorted_v[k - 1]));
                assert(dir_entries(sorted_v).take(k) =~= dir_entries(sorted_v).take(k - 1).push(
                    dir_entries(sorted_v)[k - 1],
                ));
                assert(entries_view(children@) =~= dir_entries(sorted_v).take(k));
            }
        }
        proof {
            assert(dir_entries(sorted_v).take(sorted_v.len() as int) =~= dir_entries(sorted_v));
        }
        let mut frest = sorted_files;
        let ghost mut m: int = 0;
        proof {
            assert(file_entries(files_v).take(0) =~= Seq::<EntryV>::empty());
            assert(paths_view(frest@) =~= files_v.skip(0));
            assert(entries_view(children@) + file_entries(files_v).take(0) =~= entries_view(
                children@,
            ));
        }
        while frest.len() > 0
            invariant
                0 <= m <= files_v.len(),
                frest@.len() == files_v.len() - m,
                paths_view(frest@) == files_v.skip(m),
                entries_view(children@) == dir_entries(sorted_v) + file_entries(files_v).take(m),
            decreases frest.len(),
        {
            let ghost frest0 = frest@;
            let f = frest.remove(0);
            proof {
                assert(f@ == paths_view(frest0)[0]);
                assert(f@ == files_v.skip(m)[0]);
                assert(files_v.skip(m)[0] == files_v[m]);
                assert(frest@ =~= frest0.subrange(1, frest0.len() as int));
                assert forall|n: int| 0 <= n < frest@.len() implies paths_view(frest@)[n]
                    == files_v.skip(m + 1)[n] by {
                    assert(frest@[n] == frest0[n + 1]);
                    assert(paths_view(frest0)[n + 1] == frest0[n + 1]@);
                    assert(files_v.skip(m)[n + 1] == files_v[m + n + 1]);
                    assert(files_v.skip(m + 1)[n] == files_v[m + 1 + n]);
                }
                assert(paths_view(frest@) =~= files_v.skip(m + 1));
            }
            let ghost children0 = children@;
            children.push(FsEntry::File(f));
            proof {
                m = m + 1;
                let prev = children@.subrange(0, children@.len() - 1);
                assert(prev =~= children0);
                assert(entries_view(children@) == entries_view(prev).push(
                    entry_view(children@[children@.len() - 1]),
                ));
                assert(children@[children@.len() - 1] == FsEntry::File(f));
                assert(entry_view(FsEntry::File(f)) == EntryV::File(f@));
                assert(file_entries(files_v)[m - 1] == EntryV::File(files_v[m - 1]));
                assert((dir_entries(sorted_v) + file_entries(files_v).take(m)) =~= (dir_entries(
                    sorted_v,
                ) + file_entries(files_v).take(m - 1)).push(EntryV::File(files_v[m - 1])));
                assert(entries_view(children@) =~= dir_entries(sorted_v) + file_entries(
                    files_v,
                ).take(m));
            }
        }
        proof {
            assert(file_entries(files_v).take(files_v.len() as int) =~= file_entries(files_v));
        }
        let s = MapSnapshot { directory, children, depth };
        proof {
            assert(tree@.files == paths_view(tree.files@));
            assert(s@ =~= build_spec(tree@, max_depth as int, depth as nat));
        }
        s
    }
}

} // verus!
