//! Properties of the built snapshots.
//!
//! The lemmas here state, over the spec functions of the other modules, what
//! a built snapshot looks like: its children are ordered (subdirectories
//! first, then files, each group strictly ascending by path), exactly the
//! directories within the depth bound appear in it, building is
//! deterministic, and an empty directory renders as a single line.

use vstd::prelude::*;

use crate::order::lex_le;
use crate::order::lex_lt;
use crate::order::lemma_lex_le_total;
use crate::order::lemma_lex_le_trans;
use crate::order::path_insert;
use crate::order::path_sort;
use crate::render::render;
use crate::render::render_entries;
use crate::render::render_entry;
use crate::render::tabs;
use crate::snapshot::EntryV;
use crate::snapshot::SnapV;
use crate::snapshot::TreeV;
use crate::snapshot::build_spec;
use crate::snapshot::build_subs;
use crate::snapshot::dir_entries;
use crate::snapshot::file_entries;
use crate::snapshot::lemma_build_subs;
use crate::snapshot::snap_insert;
use crate::snapshot::snap_sort;

verus! {

/// The paths ascend strictly.
pub open spec fn paths_sorted_lt(s: Seq<Seq<u8>>) -> bool {
    forall|i: int, j: int| 0 <= i < j < s.len() ==> lex_lt(s[i], s[j])
}

/// No path occurs twice.
pub open spec fn paths_distinct(s: Seq<Seq<u8>>) -> bool {
    forall|i: int, j: int| 0 <= i < j < s.len() ==> s[i] != s[j]
}

/// The snapshots' paths ascend strictly.
pub open spec fn snaps_sorted_lt(s: Seq<SnapV>) -> bool {
    forall|i: int, j: int| 0 <= i < j < s.len() ==> lex_lt(s[i].directory, s[j].directory)
}

/// Some snapshot in `s` has path `p`.
pub open spec fn snaps_has_key(s: Seq<SnapV>, p: Seq<u8>) -> bool {
    exists|i: int| 0 <= i < s.len() && s[i].directory == p
}

/// Inserting a fresh path into a strictly sorted list keeps it strictly
/// sorted and adds exactly that path.
pub proof fn lemma_path_insert_props(x: Seq<u8>, s: Seq<Seq<u8>>)
    requires
        paths_sorted_lt(s),
        !s.contains(x),
    ensures
        path_insert(x, s).len() == s.len() + 1,
        paths_sorted_lt(path_insert(x, s)),
        forall|y: Seq<u8>|
            #[trigger] path_insert(x, s).contains(y) <==> (y == x || s.contains(y)),
    decreases s.len(),
{
    let r = path_insert(x, s);
    if s.len() == 0 {
        assert(r =~= seq![x]);
        assert forall|y: Seq<u8>| r.contains(y) implies (y == x || s.contains(y)) by {
            let k = choose|k: int| 0 <= k < r.len() && r[k] == y;
            assert(r[0] == x);
        }
        assert(r.contains(x)) by {
            assert(r[0] == x);
        }
    } else if lex_le(x, s[0]) {
        assert(r =~= seq![x] + s);
        assert(x != s[0]) by {
            assert(!s.contains(x));
            assert(s[0] == s[0]);
        }
        assert forall|i: int, j: int| 0 <= i < j < r.len() implies lex_lt(r[i], r[j]) by {
            if i == 0 {
                assert(r[j] == s[j - 1]);
                if j - 1 > 0 {
                    assert(lex_lt(s[0], s[j - 1]));
                    lemma_lex_le_trans(x, s[0], s[j - 1]);
                }
                assert(!s.contains(x));
                assert(s[j - 1] == s[j - 1]);
                assert(x != s[j - 1]);
            } else {
                assert(r[i] == s[i - 1] && r[j] == s[j - 1]);
            }
        }
        assert forall|y: Seq<u8>| r.contains(y) implies (y == x || s.contains(y)) by {
            let k = choose|k: int| 0 <= k < r.len() && r[k] == y;
            if k > 0 {
                assert(s[k - 1] == y);
            }
        }
        assert forall|y: Seq<u8>| (y == x || s.contains(y)) implies r.contains(y) by {
            if y == x {
                assert(r[0] == x);
            } else {
                let k = choose|k: int| 0 <= k < s.len() && s[k] == y;
                assert(r[k + 1] == y);
            }
        }
    } else {
        let rest = s.subrange(1, s.len() as int);
        let ins = path_insert(x, rest);
        assert(r =~= seq![s[0]] + ins);
        lemma_lex_le_total(x, s[0]);
        assert(lex_le(s[0], x));
        assert(x != s[0]) by {
            assert(!s.contains(x));
            assert(s[0] == s[0]);
        }
        assert forall|i: int, j: int| 0 <= i < j < rest.len() implies lex_lt(rest[i], rest[j]) by {
            assert(rest[i] == s[i + 1] && rest[j] == s[j + 1]);
        }
        assert(!rest.contains(x)) by {
            if rest.contains(x) {
                let k = choose|k: int| 0 <= k < rest.len() && rest[k] == x;
                assert(s[k + 1] == x);
            }
        }
        lemma_path_insert_props(x, rest);
        assert forall|j: int| 1 <= j < r.len() implies lex_lt(r[0], r[j]) by {
            let e = ins[j - 1];
            assert(ins.contains(e)) by {
                assert(0 <= j - 1 < ins.len());
            }
            if e == x {
                assert(lex_le(s[0], x) && s[0] != x);
            } else {
                assert(rest.contains(e));
                let k = choose|k: int| 0 <= k < rest.len() && rest[k] == e;
                assert(s[k + 1] == e);
                assert(lex_lt(s[0], s[k + 1]));
            }
        }
        assert forall|i: int, j: int| 0 <= i < j < r.len() implies lex_lt(r[i], r[j]) by {
            if i > 0 {
                assert(r[i] == ins[i - 1] && r[j] == ins[j - 1]);
                assert(lex_lt(ins[i - 1], ins[j - 1]));
            }
        }
        assert forall|y: Seq<u8>| r.contains(y) implies (y == x || s.contains(y)) by {
            let k = choose|k: int| 0 <= k < r.len() && r[k] == y;
            if k == 0 {
                assert(s[0] == y);
            } else {
                assert(ins.contains(ins[k - 1])) by {
                    assert(0 <= k - 1 < ins.len());
                }
                if ins[k - 1] != x {
                    assert(rest.contains(ins[k - 1]));
                    let n = choose|n: int| 0 <= n < rest.len() && rest[n] == y;
                    assert(s[n + 1] == y);
                }
            }
        }
        assert forall|y: Seq<u8>| (y == x || s.contains(y)) implies r.contains(y) by {
            if y == x {
                assert(ins.contains(x));
                let n = choose|n: int| 0 <= n < ins.len() && ins[n] == x;
                assert(r[n + 1] == x);
            } else {
                let k = choose|k: int| 0 <= k < s.len() && s[k] == y;
                if k == 0 {
                    assert(r[0] == y);
                } else {
                    assert(rest[k - 1] == y);
                    assert(ins.contains(y));
                    let n = choose|n: int| 0 <= n < ins.len() && ins[n] == y;
                    assert(r[n + 1] == y);
                }
            }
        }
    }
}

/// Sorting a list of distinct paths yields a strictly ascending list with
/// exactly the same members.
pub proof fn lemma_path_sort_props(s: Seq<Seq<u8>>)
    requires
        paths_distinct(s),
    ensures
        path_sort(s).len() == s.len(),
        paths_sorted_lt(path_sort(s)),
        forall|y: Seq<u8>| #[trigger] path_sort(s).contains(y) <==> s.contains(y),
    decreases s.len(),
{
    if s.len() > 0 {
        let head = s.subrange(0, s.len() - 1);
        let x = s[s.len() - 1];
        assert forall|i: int, j: int| 0 <= i < j < head.len() implies head[i] != head[j] by {
            assert(head[i] == s[i] && head[j] == s[j]);
        }
        lemma_path_sort_props(head);
        assert(!head.contains(x)) by {
            if head.contains(x) {
                let k = choose|k: int| 0 <= k < head.len() && head[k] == x;
                assert(s[k] == x && s[s.len() - 1] == x);
            }
        }
        lemma_path_insert_props(x, path_sort(head));
        assert forall|y: Seq<u8>| path_sort(s).contains(y) implies s.contains(y) by {
            if y != x && head.contains(y) {
                let k = choose|k: int| 0 <= k < head.len() && head[k] == y;
                assert(s[k] == y);
            }
        }
        assert forall|y: Seq<u8>| s.contains(y) implies path_sort(s).contains(y) by {
            let k = choose|k: int| 0 <= k < s.len() && s[k] == y;
            if k < s.len() - 1 {
                assert(head[k] == y);
                assert(head.contains(y));
                assert(path_sort(head).contains(y));
            }
        }
    }
}

/// Inserting a snapshot with a fresh path into a strictly sorted run keeps
/// it strictly sorted and adds exactly that snapshot.
pub proof fn lemma_snap_insert_props(x: SnapV, s: Seq<SnapV>)
    requires
        snaps_sorted_lt(s),
        !snaps_has_key(s, x.directory),
    ensures
        snap_insert(x, s).len() == s.len() + 1,
        snaps_sorted_lt(snap_insert(x, s)),
        forall|y: SnapV|
            #[trigger] snap_insert(x, s).contains(y) <==> (y == x || s.contains(y)),
        forall|p: Seq<u8>|
            #[trigger] snaps_has_key(snap_insert(x, s), p) <==> (p == x.directory
                || snaps_has_key(s, p)),
    decreases s.len(),
{
    let r = snap_insert(x, s);
    if s.len() == 0 {
        assert(r =~= seq![x]);
        assert forall|y: SnapV| r.contains(y) implies (y == x || s.contains(y)) by {
            let k = choose|k: int| 0 <= k < r.len() && r[k] == y;
            assert(r[0] == x);
        }
        assert(r.contains(x)) by {
            assert(r[0] == x);
        }
        assert forall|p: Seq<u8>| snaps_has_key(r, p) implies (p == x.directory || snaps_has_key(
            s,
            p,
        )) by {
            let k = choose|k: int| 0 <= k < r.len() && r[k].directory == p;
            assert(r[0].directory == x.directory);
        }
        assert(snaps_has_key(r, x.directory)) by {
            assert(r[0].directory == x.directory);
        }
    } else if lex_le(x.directory, s[0].directory) {
        assert(r =~= seq![x] + s);
        assert(x.directory != s[0].directory) by {
            assert(s[0].directory == s[0].directory);
        }
        assert forall|i: int, j: int| 0 <= i < j < r.len() implies lex_lt(
            r[i].directory,
            r[j].directory,
        ) by {
            if i == 0 {
                assert(r[j] == s[j - 1]);
                if j - 1 > 0 {
                    assert(lex_lt(s[0].directory, s[j - 1].directory));
                    lemma_lex_le_trans(x.directory, s[0].directory, s[j - 1].directory);
                }
                assert(s[j - 1].directory == s[j - 1].directory);
                assert(x.directory != s[j - 1].directory);
            } else {
                assert(r[i] == s[i - 1] && r[j] == s[j - 1]);
            }
        }
        assert forall|y: SnapV| r.contains(y) implies (y == x || s.contains(y)) by {
            let k = choose|k: int| 0 <= k < r.len() && r[k] == y;
            if k > 0 {
                assert(s[k - 1] == y);
            }
        }
        assert forall|y: SnapV| (y == x || s.contains(y)) implies r.contains(y) by {
            if y == x {
                assert(r[0] == x);
            } else {
                let k = choose|k: int| 0 <= k < s.len() && s[k] == y;
                assert(r[k + 1] == y);
            }
        }
        assert forall|p: Seq<u8>| snaps_has_key(r, p) implies (p == x.directory || snaps_has_key(
            s,
            p,
        )) by {
            let k = choose|k: int| 0 <= k < r.len() && r[k].directory == p;
            if k > 0 {
                assert(s[k - 1].directory == p);
            }
        }
        assert forall|p: Seq<u8>| (p == x.directory || snaps_has_key(s, p)) implies snaps_has_key(
            r,
            p,
        ) by {
            if p == x.directory {
                assert(r[0].directory == p);
            } else {
                let k = choose|k: int| 0 <= k < s.len() && s[k].directory == p;
                assert(r[k + 1].directory == p);
            }
        }
    } else {
        let rest = s.subrange(1, s.len() as int);
        let ins = snap_insert(x, rest);
        assert(r =~= seq![s[0]] + ins);
        lemma_lex_le_total(x.directory, s[0].directory);
        assert(lex_le(s[0].directory, x.directory));
        assert(x.directory != s[0].directory) by {
            assert(s[0].directory == s[0].directory);
        }
        assert forall|i: int, j: int| 0 <= i < j < rest.len() implies lex_lt(
            rest[i].directory,
            rest[j].directory,
        ) by {
            assert(rest[i] == s[i + 1] && rest[j] == s[j + 1]);
        }
        assert(!snaps_has_key(rest, x.directory)) by {
            if snaps_has_key(rest, x.directory) {
                let k = choose|k: int| 0 <= k < rest.len() && rest[k].directory == x.directory;
                assert(s[k + 1].directory == x.directory);
            }
        }
        lemma_snap_insert_props(x, rest);
        assert forall|j: int| 1 <= j < r.len() implies lex_lt(r[0].directory, r[j].directory) by {
            let e = ins[j - 1];
            assert(snaps_has_key(ins, e.directory)) by {
                assert(0 <= j - 1 < ins.len());
                assert(ins[j - 1].directory == e.directory);
            }
            if e.directory == x.directory {
                assert(lex_le(s[0].directory, x.directory) && s[0].directory != x.directory);
            } else {
                assert(snaps_has_key(rest, e.directory));
                let k = choose|k: int| 0 <= k < rest.len() && rest[k].directory == e.directory;
                assert(s[k + 1].directory == e.directory);
                assert(lex_lt(s[0].directory, s[k + 1].directory));
            }
        }
        assert forall|i: int, j: int| 0 <= i < j < r.len() implies lex_lt(
            r[i].directory,
            r[j].directory,
        ) by {
            if i > 0 {
                assert(r[i] == ins[i - 1] && r[j] == ins[j - 1]);
                assert(lex_lt(ins[i - 1].directory, ins[j - 1].directory));
            }
        }
        assert forall|y: SnapV| r.contains(y) implies (y == x || s.contains(y)) by {
            let k = choose|k: int| 0 <= k < r.len() && r[k] == y;
            if k == 0 {
                assert(s[0] == y);
            } else {
                assert(ins.contains(ins[k - 1])) by {
                    assert(0 <= k - 1 < ins.len());
                }
                if ins[k - 1] != x {
                    assert(rest.contains(ins[k - 1]));
                    let n = choose|n: int| 0 <= n < rest.len() && rest[n] == y;
                    assert(s[n + 1] == y);
                }
            }
        }
        assert forall|y: SnapV| (y == x || s.contains(y)) implies r.contains(y) by {
            if y == x {
                assert(ins.contains(x));
                let n = choose|n: int| 0 <= n < ins.len() && ins[n] == x;
                assert(r[n + 1] == x);
            } else {
                let k = choose|k: int| 0 <= k < s.len() && s[k] == y;
                if k == 0 {
                    assert(r[0] == y);
                } else {
                    assert(rest[k - 1] == y);
                    assert(ins.contains(y));
                    let n = choose|n: int| 0 <= n < ins.len() && ins[n] == y;
                    assert(r[n + 1] == y);
                }
            }
        }
        assert forall|p: Seq<u8>| snaps_has_key(r, p) implies (p == x.directory || snaps_has_key(
            s,
            p,
        )) by {
            let k = choose|k: int| 0 <= k < r.len() && r[k].directory == p;
            if k == 0 {
                assert(s[0].directory == p);
            } else {
                assert(snaps_has_key(ins, p)) by {
                    assert(ins[k - 1].directory == p);
                }
                if p != x.directory {
                    assert(snaps_has_key(rest, p));
                    let n = choose|n: int| 0 <= n < rest.len() && rest[n].directory == p;
                    assert(s[n + 1].directory == p);
                }
            }
        }
        assert forall|p: Seq<u8>| (p == x.directory || snaps_has_key(s, p)) implies snaps_has_key(
            r,
            p,
        ) by {
            if p == x.directory {
                assert(snaps_has_key(ins, p));
                let n = choose|n: int| 0 <= n < ins.len() && ins[n].directory == p;
                assert(r[n + 1].directory == p);
            } else {
                let k = choose|k: int| 0 <= k < s.len() && s[k].directory == p;
                if k == 0 {
                    assert(r[0].directory == p);
                } else {
                    assert(rest[k - 1].directory == p);
                    assert(snaps_has_key(ins, p));
                    let n = choose|n: int| 0 <= n < ins.len() && ins[n].directory == p;
                    assert(r[n + 1].directory == p);
                }
            }
        }
    }
}

/// Sorting snapshots with pairwise distinct paths yields a strictly
/// ascending run with exactly the same members.
pub proof fn lemma_snap_sort_props(s: Seq<SnapV>)
    requires
        forall|i: int, j: int| 0 <= i < j < s.len() ==> s[i].directory != s[j].directory,
    ensures
        snap_sort(s).len() == s.len(),
        snaps_sorted_lt(snap_sort(s)),
        forall|y: SnapV| #[trigger] snap_sort(s).contains(y) <==> s.contains(y),
    decreases s.len(),
{
    if s.len() > 0 {
        let head = s.subrange(0, s.len() - 1);
        let x = s[s.len() - 1];
        assert forall|i: int, j: int| 0 <= i < j < head.len() implies head[i].directory
            != head[j].directory by {
            assert(head[i] == s[i] && head[j] == s[j]);
        }
        lemma_snap_sort_props(head);
        assert(!snaps_has_key(snap_sort(head), x.directory)) by {
            if snaps_has_key(snap_sort(head), x.directory) {
                let k = choose|k: int|
                    0 <= k < snap_sort(head).len() && snap_sort(head)[k].directory == x.directory;
                let y = snap_sort(head)[k];
                assert(snap_sort(head).contains(y)) by {
                    assert(0 <= k < snap_sort(head).len());
                }
                assert(head.contains(y));
                let n = choose|n: int| 0 <= n < head.len() && head[n] == y;
                assert(s[n].directory == x.directory);
                assert(s[s.len() - 1].directory == x.directory);
            }
        }
        lemma_snap_insert_props(x, snap_sort(head));
        assert forall|y: SnapV| snap_sort(s).contains(y) implies s.contains(y) by {
            if y != x && head.contains(y) {
                let k = choose|k: int| 0 <= k < head.len() && head[k] == y;
                assert(s[k] == y);
            }
            if y == x {
                assert(s[s.len() - 1] == y);
            }
        }
        assert forall|y: SnapV| s.contains(y) implies snap_sort(s).contains(y) by {
            let k = choose|k: int| 0 <= k < s.len() && s[k] == y;
            if k < s.len() - 1 {
                assert(head[k] == y);
                assert(head.contains(y));
                assert(snap_sort(head).contains(y));
            }
        }
    }
}

/// The entry is a directory snapshot.
pub open spec fn entry_is_dir(e: EntryV) -> bool {
    e matches EntryV::Dir(_)
}

/// The path an entry carries.
pub open spec fn entry_key(e: EntryV) -> Seq<u8> {
    match e {
        EntryV::Dir(d) => d.directory,
        EntryV::File(p) => p,
    }
}

/// Every directory of the snapshot has ordered children: directory entries
/// form a prefix and file entries the remaining suffix, and within each
/// group the paths ascend strictly.
pub open spec fn snap_ordered(s: SnapV) -> bool
    decreases s,
{
    &&& (forall|i: int, j: int|
        #![trigger s.children[i], s.children[j]]
        0 <= i < j < s.children.len() && entry_is_dir(s.children[j]) ==> entry_is_dir(
            s.children[i],
        ))
    &&& (forall|i: int, j: int|
        #![trigger s.children[i], s.children[j]]
        0 <= i < j < s.children.len() && entry_is_dir(s.children[i]) == entry_is_dir(
            s.children[j],
        ) ==> lex_lt(entry_key(s.children[i]), entry_key(s.children[j])))
    &&& children_ordered(s.children)
}

/// Every directory entry among `es` is itself ordered.
pub open spec fn children_ordered(es: Seq<EntryV>) -> bool
    decreases es,
{
    if es.len() == 0 {
        true
    } else {
        children_ordered(es.subrange(0, es.len() - 1)) && (es[es.len() - 1] matches EntryV::Dir(d)
            ==> snap_ordered(d))
    }
}

/// `children_ordered` follows from the per-index statement.
proof fn lemma_children_ordered_from(es: Seq<EntryV>)
    requires
        forall|m: int|
            0 <= m < es.len() ==> (#[trigger] es[m] matches EntryV::Dir(d) ==> snap_ordered(d)),
    ensures
        children_ordered(es),
    decreases es.len(),
{
    if es.len() > 0 {
        let head = es.subrange(0, es.len() - 1);
        assert forall|m: int|
            0 <= m < head.len() implies (#[trigger] head[m] matches EntryV::Dir(d)
            ==> snap_ordered(d)) by {
            assert(head[m] == es[m]);
        }
        lemma_children_ordered_from(head);
    }
}

/// Sibling names never repeat anywhere in the listing: any two immediate
/// subdirectories have different paths and any two files different names,
/// at every level. Real directory listings always satisfy this.
pub open spec fn tree_distinct(t: TreeV) -> bool
    decreases t,
{
    &&& (forall|i: int, j: int|
        #![trigger t.dirs[i], t.dirs[j]]
        0 <= i < j < t.dirs.len() ==> t.dirs[i].path != t.dirs[j].path)
    &&& paths_distinct(t.files)
    &&& subs_distinct(t.dirs)
}

/// Every listing in the sequence has distinct names throughout.
pub open spec fn subs_distinct(ts: Seq<TreeV>) -> bool
    decreases ts,
{
    if ts.len() == 0 {
        true
    } else {
        subs_distinct(ts.subrange(0, ts.len() - 1)) && tree_distinct(ts[ts.len() - 1])
    }
}

/// `subs_distinct` gives `tree_distinct` at every index.
proof fn lemma_subs_distinct_index(ts: Seq<TreeV>, i: int)
    requires
        subs_distinct(ts),
        0 <= i < ts.len(),
    ensures
        tree_distinct(ts[i]),
    decreases ts.len(),
{
    if i < ts.len() - 1 {
        lemma_subs_distinct_index(ts.subrange(0, ts.len() - 1), i);
        assert(ts.subrange(0, ts.len() - 1)[i] == ts[i]);
    }
}

/// ORDERING: in a snapshot built from a listing with distinct sibling
/// names, every directory lists all its subdirectory entries before all its
/// file entries, and each group ascends strictly in byte-wise path order.
pub proof fn lemma_build_ordered(t: TreeV, max_depth: int, depth: nat)
    requires
        tree_distinct(t),
    ensures
        snap_ordered(build_spec(t, max_depth, depth)),
    decreases t,
{
    let s = build_spec(t, max_depth, depth);
    if depth > max_depth {
        assert(children_ordered(s.children));
    } else {
        let subs = build_subs(t.dirs, max_depth, depth + 1);
        let sorted = snap_sort(subs);
        let files = path_sort(t.files);
        let des = dir_entries(sorted);
        let fes = file_entries(files);
        lemma_build_subs(t.dirs, max_depth, depth + 1);
        assert forall|i: int, j: int| 0 <= i < j < subs.len() implies subs[i].directory
            != subs[j].directory by {
            assert(subs[i] == build_spec(t.dirs[i], max_depth, depth + 1));
            assert(subs[j] == build_spec(t.dirs[j], max_depth, depth + 1));
        }
        lemma_snap_sort_props(subs);
        lemma_path_sort_props(t.files);
        assert(s.children == des + fes);
        assert forall|i: int, j: int|
            0 <= i < j < s.children.len() && entry_is_dir(s.children[j]) implies entry_is_dir(
            s.children[i],
        ) by {
            if j >= des.len() {
                assert(s.children[j] == fes[j - des.len()]);
                assert(fes[j - des.len()] == EntryV::File(files[j - des.len()]));
            } else {
                assert(s.children[i] == des[i]);
                assert(des[i] == EntryV::Dir(sorted[i]));
            }
        }
        assert forall|i: int, j: int|
            0 <= i < j < s.children.len() && entry_is_dir(s.children[i]) == entry_is_dir(
            s.children[j],
        ) implies lex_lt(entry_key(s.children[i]), entry_key(s.children[j])) by {
            if j < des.len() {
                assert(s.children[i] == EntryV::Dir(sorted[i]));
                assert(s.children[j] == EntryV::Dir(sorted[j]));
                assert(lex_lt(sorted[i].directory, sorted[j].directory));
            } else if i >= des.len() {
                assert(s.children[i] == EntryV::File(files[i - des.len()]));
                assert(s.children[j] == EntryV::File(files[j - des.len()]));
                assert(lex_lt(files[i - des.len()], files[j - des.len()]));
            } else {
                assert(s.children[i] == EntryV::Dir(sorted[i]));
                assert(s.children[j] == EntryV::File(files[j - des.len()]));
            }
        }
        assert forall|m: int|
            0 <= m < s.children.len() implies (#[trigger] s.children[m] matches EntryV::Dir(d)
            ==> snap_ordered(d)) by {
            if m < des.len() {
                let d = sorted[m];
                assert(s.children[m] == EntryV::Dir(d));
                assert(sorted.contains(d)) by {
                    assert(0 <= m < sorted.len());
                }
                assert(subs.contains(d));
                let n = choose|n: int| 0 <= n < subs.len() && subs[n] == d;
                assert(d == build_spec(t.dirs[n], max_depth, depth + 1));
                lemma_subs_distinct_index(t.dirs, n);
                lemma_build_ordered(t.dirs[n], max_depth, depth + 1);
            } else {
                assert(s.children[m] == fes[m - des.len()]);
                assert(fes[m - des.len()] == EntryV::File(files[m - des.len()]));
            }
        }
        lemma_children_ordered_from(s.children);
    }
}

/// IDEMPOTENCE: the snapshot of a listing, and with it the rendered output,
/// is a function of the listing and the bounds alone: two builds from the
/// same listing render byte-identically.
pub proof fn lemma_build_deterministic(t: TreeV, max_depth: int, depth: nat, s1: SnapV, s2: SnapV)
    requires
        s1 == build_spec(t, max_depth, depth),
        s2 == build_spec(t, max_depth, depth),
    ensures
        render(s1) == render(s2),
{
}

/// An empty directory renders as exactly one line: its own path, with no
/// indentation, closed by a newline.
pub proof fn lemma_empty_dir_line(path: Seq<u8>, max_depth: int)
    requires
        max_depth >= 0,
    ensures
        render(
            build_spec(TreeV { path, dirs: Seq::empty(), files: Seq::empty() }, max_depth, 0),
        ) == path + seq![10u8],
{
    let t = TreeV { path, dirs: Seq::empty(), files: Seq::empty() };
    let s = build_spec(t, max_depth, 0);
    assert(snap_sort(build_subs(t.dirs, max_depth, 1)) =~= Seq::<SnapV>::empty());
    assert(path_sort(t.files) =~= Seq::<Seq<u8>>::empty());
    assert(s.children =~= Seq::<EntryV>::empty());
    assert(render_entries(s.children, 1) =~= Seq::<u8>::empty());
    assert(tabs(0) =~= Seq::<u8>::empty());
    assert(render(s) =~= path + seq![10u8]);
}

/// `snap_insert` adds exactly its element, whatever the run holds.
proof fn lemma_snap_insert_contains(x: SnapV, s: Seq<SnapV>)
    ensures
        forall|y: SnapV| #[trigger] snap_insert(x, s).contains(y) <==> (y == x || s.contains(y)),
    decreases s.len(),
{
    let r = snap_insert(x, s);
    if s.len() == 0 {
        assert(r =~= seq![x]);
        assert forall|y: SnapV| r.contains(y) implies (y == x || s.contains(y)) by {
            let k = choose|k: int| 0 <= k < r.len() && r[k] == y;
            assert(r[0] == x);
        }
        assert(r.contains(x)) by {
            assert(r[0] == x);
        }
    } else if lex_le(x.directory, s[0].directory) {
        assert(r =~= seq![x] + s);
        assert forall|y: SnapV| r.contains(y) implies (y == x || s.contains(y)) by {
            let k = choose|k: int| 0 <= k < r.len() && r[k] == y;
            if k > 0 {
                assert(s[k - 1] == y);
            }
        }
        assert forall|y: SnapV| (y == x || s.contains(y)) implies r.contains(y) by {
            if y == x {
                assert(r[0] == x);
            } else {
                let k = choose|k: int| 0 <= k < s.len() && s[k] == y;
                assert(r[k + 1] == y);
            }
        }
    } else {
        let rest = s.subrange(1, s.len() as int);
        let ins = snap_insert(x, rest);
        assert(r =~= seq![s[0]] + ins);
        lemma_snap_insert_contains(x, rest);
        assert forall|y: SnapV| r.contains(y) implies (y == x || s.contains(y)) by {
            let k = choose|k: int| 0 <= k < r.len() && r[k] == y;
            if k == 0 {
                assert(s[0] == y);
            } else {
                assert(ins.contains(ins[k - 1])) by {
                    assert(0 <= k - 1 < ins.len());
                }
                if ins[k - 1] != x {
                    assert(rest.contains(ins[k - 1]));
                    let n = choose|n: int| 0 <= n < rest.len() && rest[n] == y;
                    assert(s[n + 1] == y);
                }
            }
        }
        assert forall|y: SnapV| (y == x || s.contains(y)) implies r.contains(y) by {
            if y == x {
                assert(ins.contains(x));
                let n = choose|n: int| 0 <= n < ins.len() && ins[n] == x;
                assert(r[n + 1] == x);
            } else {
                let k = choose|k: int| 0 <= k < s.len() && s[k] == y;
                if k == 0 {
                    assert(r[0] == y);
                } else {
                    assert(rest[k - 1] == y);
                    assert(ins.contains(y));
                    let n = choose|n: int| 0 <= n < ins.len() && ins[n] == y;
                    assert(r[n + 1] == y);
                }
            }
        }
    }
}

/// `snap_sort` keeps exactly the members of its input, whatever they are.
proof fn lemma_snap_sort_contains(s: Seq<SnapV>)
    ensures
        forall|y: SnapV| #[trigger] snap_sort(s).contains(y) <==> s.contains(y),
    decreases s.len(),
{
    if s.len() > 0 {
        let head = s.subrange(0, s.len() - 1);
        let x = s[s.len() - 1];
        lemma_snap_sort_contains(head);
        lemma_snap_insert_contains(x, snap_sort(head));
        assert forall|y: SnapV| snap_sort(s).contains(y) implies s.contains(y) by {
            if y != x && head.contains(y) {
                let k = choose|k: int| 0 <= k < head.len() && head[k] == y;
                assert(s[k] == y);
            }
            if y == x {
                assert(s[s.len() - 1] == y);
            }
        }
        assert forall|y: SnapV| s.contains(y) implies snap_sort(s).contains(y) by {
            let k = choose|k: int| 0 <= k < s.len() && s[k] == y;
            if k < s.len() - 1 {
                assert(head[k] == y);
                assert(head.contains(y));
                assert(snap_sort(head).contains(y));
            }
        }
    }
}

/// The listing holds a directory with path `p` at nesting level `l`, the
/// listing''s own node counting as level `level`.
pub open spec fn tree_has_dir(t: TreeV, level: nat, p: Seq<u8>, l: nat) -> bool
    decreases t,
{
    (p == t.path && l == level) || subs_have_dir(t.dirs, level + 1, p, l)
}

/// Some listing in the sequence holds directory `p` at level `l`.
pub open spec fn subs_have_dir(ts: Seq<TreeV>, level: nat, p: Seq<u8>, l: nat) -> bool
    decreases ts,
{
    if ts.len() == 0 {
        false
    } else {
        subs_have_dir(ts.subrange(0, ts.len() - 1), level, p, l) || tree_has_dir(
            ts[ts.len() - 1],
            level,
            p,
            l,
        )
    }
}

/// The snapshot holds a directory node with path `p` whose recorded depth
/// is `l`.
pub open spec fn snap_has_dir(s: SnapV, p: Seq<u8>, l: nat) -> bool
    decreases s,
{
    (p == s.directory && l == s.depth) || entries_have_dir(s.children, p, l)
}

/// Some entry in the sequence is a directory node holding `p` at depth `l`.
pub open spec fn entries_have_dir(es: Seq<EntryV>, p: Seq<u8>, l: nat) -> bool
    decreases es,
{
    if es.len() == 0 {
        false
    } else {
        entries_have_dir(es.subrange(0, es.len() - 1), p, l) || (es[es.len() - 1] matches
            EntryV::Dir(d) && snap_has_dir(d, p, l))
    }
}

/// `subs_have_dir` is existence at some index.
proof fn lemma_subs_have_dir_iff(ts: Seq<TreeV>, level: nat, p: Seq<u8>, l: nat)
    ensures
        subs_have_dir(ts, level, p, l) <==> exists|i: int|
            0 <= i < ts.len() && tree_has_dir(#[trigger] ts[i], level, p, l),
    decreases ts.len(),
{
    if ts.len() > 0 {
        let head = ts.subrange(0, ts.len() - 1);
        lemma_subs_have_dir_iff(head, level, p, l);
        if subs_have_dir(ts, level, p, l) {
            if subs_have_dir(head, level, p, l) {
                let i = choose|i: int| 0 <= i < head.len() && tree_has_dir(head[i], level, p, l);
                assert(ts[i] == head[i]);
                assert(tree_has_dir(ts[i], level, p, l));
            } else {
                assert(tree_has_dir(ts[ts.len() - 1], level, p, l));
            }
        }
        if exists|i: int| 0 <= i < ts.len() && tree_has_dir(#[trigger] ts[i], level, p, l) {
            let i = choose|i: int| 0 <= i < ts.len() && tree_has_dir(ts[i], level, p, l);
            if i < ts.len() - 1 {
                assert(head[i] == ts[i]);
                assert(tree_has_dir(head[i], level, p, l));
            }
        }
    }
}

/// `entries_have_dir` is existence at some index.
proof fn lemma_entries_have_dir_iff(es: Seq<EntryV>, p: Seq<u8>, l: nat)
    ensures
        entries_have_dir(es, p, l) <==> exists|m: int|
            0 <= m < es.len() && (#[trigger] es[m] matches EntryV::Dir(d) && snap_has_dir(
                d,
                p,
                l,
            )),
    decreases es.len(),
{
    if es.len() > 0 {
        let head = es.subrange(0, es.len() - 1);
        lemma_entries_have_dir_iff(head, p, l);
        if entries_have_dir(es, p, l) {
            if entries_have_dir(head, p, l) {
                let m = choose|m: int|
                    0 <= m < head.len() && (#[trigger] head[m] matches EntryV::Dir(d)
                        && snap_has_dir(d, p, l));
                assert(es[m] == head[m]);
                assert(es[m] matches EntryV::Dir(d) && snap_has_dir(d, p, l));
            } else {
                assert(es[es.len() - 1] matches EntryV::Dir(d) && snap_has_dir(d, p, l));
            }
        }
        if exists|m: int|
            0 <= m < es.len() && (#[trigger] es[m] matches EntryV::Dir(d) && snap_has_dir(
                d,
                p,
                l,
            )) {
            let m = choose|m: int|
                0 <= m < es.len() && (#[trigger] es[m] matches EntryV::Dir(d) && snap_has_dir(
                    d,
                    p,
                    l,
                ));
            if m < es.len() - 1 {
                assert(head[m] == es[m]);
                assert(head[m] matches EntryV::Dir(d) && snap_has_dir(d, p, l));
            }
        }
    }
}

/// A directory found below a node sits at or below the node''s own level.
proof fn lemma_tree_has_dir_level(t: TreeV, level: nat, p: Seq<u8>, l: nat)
    ensures
        tree_has_dir(t, level, p, l) ==> l >= level,
    decreases t,
{
    if tree_has_dir(t, level, p, l) && !(p == t.path && l == level) {
        lemma_subs_have_dir_iff(t.dirs, level + 1, p, l);
        let i = choose|i: int| 0 <= i < t.dirs.len() && tree_has_dir(t.dirs[i], level + 1, p, l);
        lemma_tree_has_dir_level(t.dirs[i], level + 1, p, l);
    }
}

/// DEPTH VISIBILITY: the snapshot built at `depth` holds exactly the
/// directories of the listing whose nesting level is at most
/// `max_depth + 1` — those within the bound with their contents, those at
/// level `max_depth + 1` as truncated childless nodes — and each appears
/// with its recorded depth equal to its nesting level.
pub proof fn lemma_depth_visibility(t: TreeV, max_depth: int, depth: nat, p: Seq<u8>, l: nat)
    requires
        depth <= max_depth + 1,
    ensures
        snap_has_dir(build_spec(t, max_depth, depth), p, l) <==> (tree_has_dir(t, depth, p, l)
            && l <= max_depth + 1),
    decreases t,
{
    let s = build_spec(t, max_depth, depth);
    if depth > max_depth {
        assert(s.children =~= Seq::<EntryV>::empty());
        assert(!entries_have_dir(s.children, p, l));
        if tree_has_dir(t, depth, p, l) && !(p == t.path && l == depth) {
            lemma_subs_have_dir_iff(t.dirs, depth + 1, p, l);
            let i = choose|i: int|
                0 <= i < t.dirs.len() && tree_has_dir(t.dirs[i], depth + 1, p, l);
            lemma_tree_has_dir_level(t.dirs[i], depth + 1, p, l);
            assert(l > max_depth + 1);
        }
    } else {
        let subs = build_subs(t.dirs, max_depth, depth + 1);
        let sorted = snap_sort(subs);
        let files = path_sort(t.files);
        let des = dir_entries(sorted);
        let fes = file_entries(files);
        assert(s.children == des + fes);
        lemma_build_subs(t.dirs, max_depth, depth + 1);
        lemma_snap_sort_contains(subs);
        lemma_entries_have_dir_iff(s.children, p, l);
        if snap_has_dir(s, p, l) {
            if p == s.directory && l == s.depth {
                assert(tree_has_dir(t, depth, p, l));
            } else {
                let m = choose|m: int|
                    0 <= m < s.children.len() && (#[trigger] s.children[m] matches EntryV::Dir(d)
                        && snap_has_dir(d, p, l));
                if m >= des.len() {
                    assert(s.children[m] == fes[m - des.len()]);
                    assert(fes[m - des.len()] == EntryV::File(files[m - des.len()]));
                } else {
                    assert(s.children[m] == des[m]);
                    let d = sorted[m];
                    assert(des[m] == EntryV::Dir(d));
                    assert(snap_has_dir(d, p, l));
                    assert(sorted.contains(d)) by {
                        assert(0 <= m < sorted.len());
                    }
                    assert(subs.contains(d));
                    let n = choose|n: int| 0 <= n < subs.len() && subs[n] == d;
                    assert(d == build_spec(t.dirs[n], max_depth, depth + 1));
                    lemma_depth_visibility(t.dirs[n], max_depth, depth + 1, p, l);
                    assert(tree_has_dir(t.dirs[n], depth + 1, p, l));
                    lemma_subs_have_dir_iff(t.dirs, depth + 1, p, l);
                    assert(subs_have_dir(t.dirs, depth + 1, p, l));
                }
            }
        }
        if tree_has_dir(t, depth, p, l) && l <= max_depth + 1 {
            if p == t.path && l == depth {
                assert(snap_has_dir(s, p, l));
            } else {
                lemma_subs_have_dir_iff(t.dirs, depth + 1, p, l);
                let i = choose|i: int|
                    0 <= i < t.dirs.len() && tree_has_dir(t.dirs[i], depth + 1, p, l);
                lemma_depth_visibility(t.dirs[i], max_depth, depth + 1, p, l);
                let d = build_spec(t.dirs[i], max_depth, depth + 1);
                assert(snap_has_dir(d, p, l));
                assert(subs.contains(d)) by {
                    assert(0 <= i < subs.len() && subs[i] == d);
                }
                assert(sorted.contains(d));
                let m = choose|m: int| 0 <= m < sorted.len() && sorted[m] == d;
                assert(des[m] == EntryV::Dir(d));
                assert(s.children[m] == des[m]);
                assert(s.children[m] matches EntryV::Dir(dd) && snap_has_dir(dd, p, l));
                assert(entries_have_dir(s.children, p, l));
            }
        }
    }
}

/// `needle` occurs contiguously somewhere in `hay`.
pub open spec fn contains_sub(hay: Seq<u8>, needle: Seq<u8>) -> bool {
    exists|k: int|
        0 <= k && k + needle.len() <= hay.len() && #[trigger] hay.subrange(k, k + needle.len())
            == needle
}

/// An occurrence survives appending on the right.
proof fn lemma_contains_sub_left(a: Seq<u8>, b: Seq<u8>, needle: Seq<u8>)
    requires
        contains_sub(a, needle),
    ensures
        contains_sub(a + b, needle),
{
    let k = choose|k: int|
        0 <= k && k + needle.len() <= a.len() && #[trigger] a.subrange(k, k + needle.len())
            == needle;
    assert((a + b).subrange(k, k + needle.len() as int) =~= a.subrange(k, k + needle.len() as int));
}

/// An occurrence survives prepending on the left.
proof fn lemma_contains_sub_right(a: Seq<u8>, b: Seq<u8>, needle: Seq<u8>)
    requires
        contains_sub(b, needle),
    ensures
        contains_sub(a + b, needle),
{
    let k = choose|k: int|
        0 <= k && k + needle.len() <= b.len() && #[trigger] b.subrange(k, k + needle.len())
            == needle;
    assert((a + b).subrange(a.len() + k, a.len() + k + needle.len() as int) =~= b.subrange(
        k,
        k + needle.len() as int,
    ));
}

/// Occurrence is transitive through an enclosing occurrence.
proof fn lemma_contains_sub_trans(a: Seq<u8>, b: Seq<u8>, c: Seq<u8>)
    requires
        contains_sub(a, b),
        contains_sub(b, c),
    ensures
        contains_sub(a, c),
{
    let k1 = choose|k: int|
        0 <= k && k + b.len() <= a.len() && #[trigger] a.subrange(k, k + b.len()) == b;
    let k2 = choose|k: int|
        0 <= k && k + c.len() <= b.len() && #[trigger] b.subrange(k, k + c.len()) == c;
    assert(a.subrange(k1 + k2, k1 + k2 + c.len() as int) =~= b.subrange(k2, k2 + c.len() as int));
}

/// Each child''s rendering occurs in the rendering of the whole child list.
proof fn lemma_render_entries_contains(es: Seq<EntryV>, file_indent: nat, m: int)
    requires
        0 <= m < es.len(),
    ensures
        contains_sub(render_entries(es, file_indent), render_entry(es[m], file_indent)),
    decreases es.len(),
{
    let head = es.subrange(0, es.len() - 1);
    if m == es.len() - 1 {
        let needle = render_entry(es[m], file_indent);
        assert(contains_sub(needle, needle)) by {
            let z: int = 0;
            assert(needle.subrange(z, z + needle.len()) =~= needle);
        }
        lemma_contains_sub_right(render_entries(head, file_indent), needle, needle);
    } else {
        lemma_render_entries_contains(head, file_indent, m);
        assert(head[m] == es[m]);
        lemma_contains_sub_left(
            render_entries(head, file_indent),
            render_entry(es[es.len() - 1], file_indent),
            render_entry(es[m], file_indent),
        );
    }
}

/// Every directory node of a snapshot contributes its own line to the
/// rendering: as many tabs as its recorded depth, then its path, then a
/// newline.
pub proof fn lemma_render_line(s: SnapV, p: Seq<u8>, l: nat)
    requires
        snap_has_dir(s, p, l),
    ensures
        contains_sub(render(s), tabs(l) + p + seq![10u8]),
    decreases s,
{
    let line = tabs(l) + p + seq![10u8];
    let header = tabs(s.depth) + s.directory + seq![10u8];
    let body = render_entries(s.children, s.depth + 1);
    assert(render(s) == header + body);
    if p == s.directory && l == s.depth {
        assert(contains_sub(render(s), line)) by {
            let z: int = 0;
            assert(render(s).subrange(z, z + line.len()) =~= line);
        }
    } else {
        lemma_entries_have_dir_iff(s.children, p, l);
        let m = choose|m: int|
            0 <= m < s.children.len() && (#[trigger] s.children[m] matches EntryV::Dir(d)
                && snap_has_dir(d, p, l));
        match s.children[m] {
            EntryV::Dir(d) => {
                lemma_render_line(d, p, l);
                assert(render_entry(s.children[m], s.depth + 1) == render(d));
                lemma_render_entries_contains(s.children, s.depth + 1, m);
                lemma_contains_sub_trans(body, render(d), line);
                lemma_contains_sub_right(header, body, line);
            },
            EntryV::File(_) => {
                assert(false);
            },
        }
    }
}

/// DEPTH VISIBILITY, at the output: every directory of the listing whose
/// nesting level is within one past the bound appears in the rendered bytes
/// as a line indented by exactly its nesting level.
pub proof fn lemma_output_line_for_dir(t: TreeV, max_depth: int, p: Seq<u8>, l: nat)
    requires
        max_depth >= 0,
        tree_has_dir(t, 0, p, l),
        l <= max_depth + 1,
    ensures
        contains_sub(render(build_spec(t, max_depth, 0)), tabs(l) + p + seq![10u8]),
{
    lemma_depth_visibility(t, max_depth, 0, p, l);
    lemma_render_line(build_spec(t, max_depth, 0), p, l);
}

} // verus!
