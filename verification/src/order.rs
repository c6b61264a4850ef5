//! Byte-wise lexicographic order on paths, and sorting of path lists.
//!
//! Paths are compared as plain byte strings (codepoint order, not
//! locale-aware, not component-wise), and sorted by insertion sort; the spec
//! functions here are the single source of truth for what "sorted" means
//! throughout the crate.

use vstd::prelude::*;

verus! {

/// Byte-wise lexicographic `a <= b` on path strings.
pub open spec fn lex_le(a: Seq<u8>, b: Seq<u8>) -> bool
    decreases a.len(),
{
    if a.len() == 0 {
        true
    } else if b.len() == 0 {
        false
    } else if a[0] < b[0] {
        true
    } else if a[0] > b[0] {
        false
    } else {
        lex_le(a.drop_first(), b.drop_first())
    }
}

/// Strict byte-wise lexicographic order: `a` precedes `b` and they differ.
pub open spec fn lex_lt(a: Seq<u8>, b: Seq<u8>) -> bool {
    lex_le(a, b) && a != b
}

/// The order is total: of any two paths, one is less than or equal to the other.
pub proof fn lemma_lex_le_total(a: Seq<u8>, b: Seq<u8>)
    ensures
        lex_le(a, b) || lex_le(b, a),
    decreases a.len(),
{
    if a.len() > 0 && b.len() > 0 && a[0] == b[0] {
        lemma_lex_le_total(a.drop_first(), b.drop_first());
    }
}

/// The order is transitive.
pub proof fn lemma_lex_le_trans(a: Seq<u8>, b: Seq<u8>, c: Seq<u8>)
    requires
        lex_le(a, b),
        lex_le(b, c),
    ensures
        lex_le(a, c),
    decreases a.len(),
{
    if a.len() > 0 && b.len() > 0 && c.len() > 0 && a[0] == b[0] && b[0] == c[0] {
        lemma_lex_le_trans(a.drop_first(), b.drop_first(), c.drop_first());
    }
}

/// Comparing two paths that agree on their first `i` bytes is the same as
/// comparing the remainders.
pub proof fn lemma_lex_le_common_prefix(a: Seq<u8>, b: Seq<u8>, i: int)
    requires
        0 <= i <= a.len(),
        i <= b.len(),
        forall|k: int| 0 <= k < i ==> a[k] == b[k],
    ensures
        lex_le(a, b) == lex_le(a.skip(i), b.skip(i)),
    decreases i,
{
    if i > 0 {
        assert(a[0] == b[0]);
        assert forall|k: int| 0 <= k < i - 1 implies a.drop_first()[k] == b.drop_first()[k] by {
            assert(a[k + 1] == b[k + 1]);
        }
        lemma_lex_le_common_prefix(a.drop_first(), b.drop_first(), i - 1);
        assert(a.skip(i) =~= a.drop_first().skip(i - 1));
        assert(b.skip(i) =~= b.drop_first().skip(i - 1));
    } else {
        assert(a.skip(0) =~= a);
        assert(b.skip(0) =~= b);
    }
}

/// Byte-wise `a <= b` comparison of two paths.
pub fn lex_le_bytes(a: &Vec<u8>, b: &Vec<u8>) -> (r: bool)
    ensures
        r == lex_le(a@, b@),
{
    let mut i: usize = 0;
    while i < a.len() && i < b.len()
        invariant
            i <= a.len(),
            i <= b.len(),
            forall|k: int| 0 <= k < i ==> a@[k] == b@[k],
        decreases a.len() - i,
    {
        if a[i] < b[i] {
            proof {
                lemma_lex_le_common_prefix(a@, b@, i as int);
                assert(a@.skip(i as int)[0] == a@[i as int]);
                assert(b@.skip(i as int)[0] == b@[i as int]);
            }
            return true;
        }
        if a[i] > b[i] {
            proof {
                lemma_lex_le_common_prefix(a@, b@, i as int);
                assert(a@.skip(i as int)[0] == a@[i as int]);
                assert(b@.skip(i as int)[0] == b@[i as int]);
            }
            return false;
        }
        i += 1;
    }
    proof {
        lemma_lex_le_common_prefix(a@, b@, i as int);
        assert(a@.skip(i as int).len() == a@.len() - i);
        assert(b@.skip(i as int).len() == b@.len() - i);
    }
    a.len() <= b.len()
}

/// Copies a path's bytes into a fresh vector.
pub fn copy_bytes(src: &Vec<u8>) -> (r: Vec<u8>)
    ensures
        r@ == src@,
{
    let mut r: Vec<u8> = Vec::new();
    let mut i: usize = 0;
    while i < src.len()
        invariant
            i <= src.len(),
            r@ == src@.take(i as int),
        decreases src.len() - i,
    {
        r.push(src[i]);
        i += 1;
        proof {
            assert(r@ =~= src@.take(i as int));
        }
    }
    proof {
        assert(src@.take(src@.len() as int) =~= src@);
    }
    r
}

/// The mathematical contents of a list of paths.
pub open spec fn paths_view(v: Seq<Vec<u8>>) -> Seq<Seq<u8>> {
    Seq::new(v.len(), |i: int| v[i]@)
}

/// Inserts `x` in front of the first element it is less than or equal to.
pub open spec fn path_insert(x: Seq<u8>, s: Seq<Seq<u8>>) -> Seq<Seq<u8>>
    decreases s.len(),
{
    if s.len() == 0 {
        seq![x]
    } else if lex_le(x, s[0]) {
        seq![x] + s
    } else {
        seq![s[0]] + path_insert(x, s.subrange(1, s.len() as int))
    }
}

/// Insertion sort of a list of paths, taken as the definition of the sorted
/// order of a directory's file (or subdirectory) names.
pub open spec fn path_sort(s: Seq<Seq<u8>>) -> Seq<Seq<u8>>
    decreases s.len(),
{
    if s.len() == 0 {
        Seq::empty()
    } else {
        path_insert(s[s.len() - 1], path_sort(s.subrange(0, s.len() - 1)))
    }
}

/// `path_insert` splices `x` exactly at the first position whose element is
/// not below `x`.
pub proof fn lemma_path_insert_at(x: Seq<u8>, s: Seq<Seq<u8>>, j: int)
    requires
        0 <= j <= s.len(),
        forall|k: int| 0 <= k < j ==> !lex_le(x, s[k]),
        j < s.len() ==> lex_le(x, s[j]),
    ensures
        path_insert(x, s) == s.take(j) + seq![x] + s.skip(j),
    decreases j,
{
    if j == 0 {
        assert(path_insert(x, s) =~= s.take(0) + seq![x] + s.skip(0));
    } else {
        let rest = s.subrange(1, s.len() as int);
        assert forall|k: int| 0 <= k < j - 1 implies !lex_le(x, rest[k]) by {
            assert(rest[k] == s[k + 1]);
        }
        assert(j - 1 < rest.len() ==> lex_le(x, rest[j - 1]));
        lemma_path_insert_at(x, rest, j - 1);
        assert(path_insert(x, s) =~= s.take(j) + seq![x] + s.skip(j));
    }
}

/// Finds the first position in `v` whose element is at or above `x`.
fn path_insert_pos(v: &Vec<Vec<u8>>, x: &Vec<u8>) -> (j: usize)
    ensures
        j <= v.len(),
        forall|k: int| 0 <= k < j ==> !lex_le(x@, v@[k]@),
        j < v.len() ==> lex_le(x@, v@[j as int]@),
    decreases v.len(),
{
    let mut j: usize = 0;
    while j < v.len()
        invariant
            j <= v.len(),
            forall|k: int| 0 <= k < j ==> !lex_le(x@, v@[k]@),
        decreases v.len() - j,
    {
        if lex_le_bytes(x, &v[j]) {
            return j;
        }
        j += 1;
    }
    j
}

/// Inserts one path into an already sorted vector, as `path_insert` says.
fn path_do_insert(out: &mut Vec<Vec<u8>>, x: Vec<u8>)
    ensures
        paths_view(final(out)@) == path_insert(x@, paths_view(old(out)@)),
{
    let ghost s0 = paths_view(out@);
    let j = path_insert_pos(out, &x);
    proof {
        assert forall|k: int| 0 <= k < j implies !lex_le(x@, s0[k]) by {
            assert(s0[k] == out@[k]@);
        }
        lemma_path_insert_at(x@, s0, j as int);
    }
    out.insert(j, x);
    proof {
        assert(paths_view(out@) =~= s0.take(j as int) + seq![x@] + s0.skip(j as int));
    }
}

/// Sorts a list of paths into byte-wise lexicographic order; the result is
/// exactly `path_sort` of the input's contents.
pub fn sort_paths(v: &Vec<Vec<u8>>) -> (r: Vec<Vec<u8>>)
    ensures
        paths_view(r@) == path_sort(paths_view(v@)),
{
    let mut out: Vec<Vec<u8>> = Vec::new();
    let mut i: usize = 0;
    proof {
        assert(paths_view(out@) =~= Seq::<Seq<u8>>::empty());
        assert(paths_view(v@).take(0) =~= Seq::<Seq<u8>>::empty());
    }
    while i < v.len()
        invariant
            i <= v.len(),
            paths_view(out@) == path_sort(paths_view(v@).take(i as int)),
        decreases v.len() - i,
    {
        let x = copy_bytes(&v[i]);
        path_do_insert(&mut out, x);
        i += 1;
        proof {
            let pv = paths_view(v@);
            assert(pv.take(i as int).subrange(0, i - 1) =~= pv.take(i - 1));
            assert(pv.take(i as int)[i - 1] == pv[i - 1]);
            assert(pv[i - 1] == v@[i - 1]@);
        }
    }
    proof {
        assert(paths_view(v@).take(v@.len() as int) =~= paths_view(v@));
    }
    out
}

} // verus!
