//! The nesting guarantee of the final ordering: the flat sequence plus
//! the depth field reconstruct the tree without parent links, because in
//! sorted order the nearest preceding shallower entry of any entry sits
//! exactly one level above it.

use crate::flat_tree::{shape_wf, Tree, TreeLine};
use crate::order::{
    is_child_path, lemma_lex_le_antisym, lemma_lex_between_prefix, lemma_prefix_lex_le,
    lemma_sep_count_prefix, lex_le, sep_count,
};
use vstd::prelude::*;

verus! {

/// In a well-shaped sequence, depth grows by at most one from each
/// entry to the next.
proof fn lemma_depth_step(s: Seq<TreeLine>, j: int)
    requires
        shape_wf(s),
        1 <= j < s.len(),
        s[j].depth >= 1,
    ensures
        s[j - 1].depth >= s[j].depth - 1,
{
    let p = s[j].path@;
    let rp = s[0].path@;
    let i = choose|i: int|
        0 <= i < s.len() && is_child_path(s[i].path@, p) && s[j].depth == s[i].depth + 1;
    let q = s[i].path@;
    assert(q.is_prefix_of(p)) by {
        assert(q =~= p.subrange(0, q.len() as int));
    }
    lemma_prefix_lex_le(q, p);
    if i > j {
        assert(lex_le(p, q));
        lemma_lex_le_antisym(q, p);
        assert(q.len() == p.len());
        assert(false);
    }
    if i == j {
        assert(p.len() >= p.len() + 2);
        assert(false);
    }
    if i == j - 1 {
        assert(s[j - 1].depth == s[j].depth - 1);
    } else {
        let r = s[j - 1].path@;
        assert(lex_le(q, r));
        assert(lex_le(r, p));
        lemma_lex_between_prefix(q, r, p);
        lemma_sep_count_prefix(q, r);
        assert(sep_count(q) == sep_count(rp) + s[i].depth);
        assert(sep_count(r) == sep_count(rp) + s[j - 1].depth);
    }
}

/// Walking back from an entry of depth at least `d`, the depths stay at
/// or above `d` until an entry of depth exactly `d - 1` is met.
proof fn lemma_walk(s: Seq<TreeLine>, j: int, d: int)
    requires
        shape_wf(s),
        1 <= j < s.len(),
        1 <= d <= s[j].depth,
    ensures
        exists|i: int|
            0 <= i < j && s[i].depth == d - 1 && (forall|k: int|
                i < k <= j ==> s[k].depth >= d),
    decreases j,
{
    lemma_depth_step(s, j);
    if s[j - 1].depth <= d - 1 {
        assert(s[j - 1].depth >= s[j].depth - 1 >= d - 1);
        let i = j - 1;
        assert(0 <= i < j && s[i].depth == d - 1 && (forall|k: int|
            i < k <= j ==> s[k].depth >= d));
    } else {
        assert(s[j - 1].depth >= d);
        assert(j - 1 >= 1) by {
            assert(s[0].depth == 0);
        }
        lemma_walk(s, j - 1, d);
        let i0 = choose|i: int|
            0 <= i < j - 1 && s[i].depth == d - 1 && (forall|k: int|
                i < k <= j - 1 ==> s[k].depth >= d);
        assert(0 <= i0 < j && s[i0].depth == d - 1 && (forall|k: int|
            i0 < k <= j ==> s[k].depth >= d));
    }
}

/// The depth of every non-root entry of a finished tree is one more
/// than the depth of the nearest preceding shallower entry — the entry
/// a renderer infers as its parent.
pub proof fn lemma_depth_nesting(t: Tree, j: int)
    requires
        t.wf_shape(),
        0 <= j < t.lines@.len(),
        t.lines@[j].depth >= 1,
    ensures
        exists|i: int|
            0 <= i < j && t.lines@[i].depth == t.lines@[j].depth - 1 && (forall|k: int|
                i < k < j ==> t.lines@[k].depth >= t.lines@[j].depth),
{
    let s = t.lines@;
    assert(j >= 1) by {
        assert(s[0].depth == 0);
    }
    lemma_walk(s, j, s[j].depth as int);
    let i = choose|i: int|
        0 <= i < j && s[i].depth == s[j].depth - 1 && (forall|k: int|
            i < k <= j ==> s[k].depth >= s[j].depth as int);
    assert(0 <= i < j && s[i].depth == s[j].depth - 1 && (forall|k: int|
        i < k < j ==> s[k].depth >= s[j].depth));
}

} // verus!
