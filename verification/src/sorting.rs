//! Verified selection sorts: one for the child paths of a directory, one
//! for the final ordering of the flattened entries, both under raw
//! lexicographic path comparison.

use crate::flat_tree::TreeLine;
use crate::order::{lemma_lex_le_refl, lemma_lex_le_total, lemma_lex_le_trans, lex_le, path_le};
use vstd::prelude::*;

verus! {

broadcast use {vstd::seq_lib::group_to_multiset_ensures, vstd::multiset::group_multiset_axioms};

/// Child paths in nondecreasing lexicographic order.
pub open spec fn paths_sorted(s: Seq<Vec<u8>>) -> bool {
    forall|i: int, j: int| 0 <= i < j < s.len() ==> lex_le(#[trigger] s[i]@, #[trigger] s[j]@)
}

/// Entries in nondecreasing lexicographic order of their paths.
pub open spec fn lines_sorted(s: Seq<TreeLine>) -> bool {
    forall|i: int, j: int|
        0 <= i < j < s.len() ==> lex_le(#[trigger] s[i].path@, #[trigger] s[j].path@)
}

pub fn sort_paths(v: Vec<Vec<u8>>) -> (r: Vec<Vec<u8>>)
    ensures
        paths_sorted(r@),
        r@.to_multiset() == v@.to_multiset(),
        r@.len() == v@.len(),
{
    let ghost orig = v@;
    let mut src = v;
    let mut out: Vec<Vec<u8>> = Vec::new();
    while src.len() > 0
        invariant
            out@.to_multiset().add(src@.to_multiset()) =~= orig.to_multiset(),
            out@.len() + src@.len() == orig.len(),
            paths_sorted(out@),
            forall|i: int, j: int|
                0 <= i < out@.len() && 0 <= j < src@.len() ==> lex_le(
                    #[trigger] out@[i]@,
                    #[trigger] src@[j]@,
                ),
        decreases src@.len(),
    {
        let mut m: usize = 0;
        let mut t: usize = 1;
        proof {
            lemma_lex_le_refl(src@[0]@);
        }
        while t < src.len()
            invariant
                m < t,
                t <= src@.len(),
                src@.len() > 0,
                forall|k: int| 0 <= k < t ==> lex_le(src@[m as int]@, #[trigger] src@[k]@),
            decreases src@.len() - t,
        {
            if path_le(&src[t], &src[m]) {
                proof {
                    lemma_lex_le_refl(src@[t as int]@);
                    assert forall|k: int| 0 <= k < t + 1 implies lex_le(
                        src@[t as int]@,
                        #[trigger] src@[k]@,
                    ) by {
                        if k < t {
                            lemma_lex_le_trans(src@[t as int]@, src@[m as int]@, src@[k]@);
                        }
                    }
                }
                m = t;
            } else {
                proof {
                    lemma_lex_le_total(src@[t as int]@, src@[m as int]@);
                }
            }
            t = t + 1;
        }
        let ghost pre = src@;
        let x = src.remove(m);
        proof {
            assert(pre.to_multiset().contains(x));
            assert(src@.to_multiset() =~= pre.to_multiset().remove(x));
            assert forall|j: int| 0 <= j < src@.len() implies lex_le(
                x@,
                #[trigger] src@[j]@,
            ) by {
                if j < m {
                    assert(src@[j] == pre[j]);
                } else {
                    assert(src@[j] == pre[j + 1]);
                }
            }
        }
        out.push(x);
        proof {
            assert(out@.to_multiset().add(src@.to_multiset()) =~= orig.to_multiset());
            assert forall|i: int, j: int|
                0 <= i < j < out@.len() implies lex_le(
                #[trigger] out@[i]@,
                #[trigger] out@[j]@,
            ) by {
                assert(out@[j] == x || j < out@.len() - 1);
            }
        }
    }
    out
}

pub fn sort_lines(v: Vec<TreeLine>) -> (r: Vec<TreeLine>)
    ensures
        lines_sorted(r@),
        r@.to_multiset() == v@.to_multiset(),
        r@.len() == v@.len(),
{
    let ghost orig = v@;
    let mut src = v;
    let mut out: Vec<TreeLine> = Vec::new();
    while src.len() > 0
        invariant
            out@.to_multiset().add(src@.to_multiset()) =~= orig.to_multiset(),
            out@.len() + src@.len() == orig.len(),
            lines_sorted(out@),
            forall|i: int, j: int|
                0 <= i < out@.len() && 0 <= j < src@.len() ==> lex_le(
                    #[trigger] out@[i].path@,
                    #[trigger] src@[j].path@,
                ),
        decreases src@.len(),
    {
        let mut m: usize = 0;
        let mut t: usize = 1;
        proof {
            lemma_lex_le_refl(src@[0].path@);
        }
        while t < src.len()
            invariant
                m < t,
                t <= src@.len(),
                src@.len() > 0,
                forall|k: int|
                    0 <= k < t ==> lex_le(src@[m as int].path@, #[trigger] src@[k].path@),
            decreases src@.len() - t,
        {
            if path_le(&src[t].path, &src[m].path) {
                proof {
                    lemma_lex_le_refl(src@[t as int].path@);
                    assert forall|k: int| 0 <= k < t + 1 implies lex_le(
                        src@[t as int].path@,
                        #[trigger] src@[k].path@,
                    ) by {
                        if k < t {
                            lemma_lex_le_trans(
                                src@[t as int].path@,
                                src@[m as int].path@,
                                src@[k].path@,
                            );
                        }
                    }
                }
                m = t;
            } else {
                proof {
                    lemma_lex_le_total(src@[t as int].path@, src@[m as int].path@);
                }
            }
            t = t + 1;
        }
        let ghost pre = src@;
        let x = src.remove(m);
        proof {
            assert(pre.to_multiset().contains(x));
            assert(src@.to_multiset() =~= pre.to_multiset().remove(x));
            assert forall|j: int| 0 <= j < src@.len() implies lex_le(
                x.path@,
                #[trigger] src@[j].path@,
            ) by {
                if j < m {
                    assert(src@[j] == pre[j]);
                } else {
                    assert(src@[j] == pre[j + 1]);
                }
            }
        }
        out.push(x);
        proof {
            assert(out@.to_multiset().add(src@.to_multiset()) =~= orig.to_multiset());
            assert forall|i: int, j: int|
                0 <= i < j < out@.len() implies lex_le(
                #[trigger] out@[i].path@,
                #[trigger] out@[j].path@,
            ) by {
                assert(out@[j] == x || j < out@.len() - 1);
            }
        }
    }
    out
}

} // verus!

verus! {

/// Re-sorting a finished tree changes nothing: any two arrangements of
/// the same entries that are both sorted by path carry the same path at
/// every position.
pub proof fn lemma_sorted_paths_unique(s: Seq<TreeLine>, t: Seq<TreeLine>)
    requires
        lines_sorted(s),
        lines_sorted(t),
        s.to_multiset() == t.to_multiset(),
    ensures
        s.len() == t.len(),
        forall|j: int| 0 <= j < s.len() ==> (#[trigger] s[j]).path@ == t[j].path@,
    decreases s.len(),
{
    broadcast use vstd::seq_lib::group_to_multiset_ensures;
    broadcast use vstd::multiset::group_multiset_axioms;

    assert(s.len() == s.to_multiset().len());
    assert(t.len() == t.to_multiset().len());
    if s.len() > 0 {
        assert(s.contains(s[0]));
        assert(s.to_multiset().count(s[0]) > 0);
        assert(t.to_multiset().count(s[0]) > 0);
        assert(t.contains(s[0]));
        let k = choose|k: int| 0 <= k < t.len() && t[k] == s[0];
        assert(t.contains(t[0]));
        assert(t.to_multiset().count(t[0]) > 0);
        assert(s.to_multiset().count(t[0]) > 0);
        assert(s.contains(t[0]));
        let i = choose|i: int| 0 <= i < s.len() && s[i] == t[0];
        if k > 0 {
            assert(lex_le(t[0].path@, t[k].path@));
        } else {
            crate::order::lemma_lex_le_refl(t[0].path@);
        }
        if i > 0 {
            assert(lex_le(s[0].path@, s[i].path@));
        } else {
            crate::order::lemma_lex_le_refl(s[0].path@);
        }
        crate::order::lemma_lex_le_antisym(s[0].path@, t[0].path@);
        assert(s[0].path@ == t[0].path@);
        // every entry of t up to position k carries that same path
        assert forall|j: int| 0 <= j <= k implies (#[trigger] t[j]).path@ == s[0].path@ by {
            if 0 < j < k {
                assert(lex_le(t[0].path@, t[j].path@));
                assert(lex_le(t[j].path@, t[k].path@));
                crate::order::lemma_lex_le_antisym(t[j].path@, t[k].path@);
            }
        }
        let s1 = s.drop_first();
        let t1 = t.remove(k);
        assert(s1.to_multiset() =~= s.to_multiset().remove(s[0])) by {
            assert(s1 =~= s.remove(0));
            assert(s.remove(0).to_multiset() =~= s.to_multiset().remove(s[0]));
        }
        assert(t1.to_multiset() =~= t.to_multiset().remove(s[0]));
        assert(lines_sorted(s1)) by {
            assert(forall|a: int, b: int|
                0 <= a < b < s1.len() ==> s1[a] == s[a + 1] && s1[b] == s[b + 1]);
        }
        assert(lines_sorted(t1)) by {
            assert forall|a: int, b: int| 0 <= a < b < t1.len() implies lex_le(
                (#[trigger] t1[a]).path@,
                (#[trigger] t1[b]).path@,
            ) by {
                let a0: int = if a < k {
                    a
                } else {
                    a + 1
                };
                let b0: int = if b < k {
                    b
                } else {
                    b + 1
                };
                assert(t1[a] == t[a0] && t1[b] == t[b0]);
                assert(lex_le(t[a0].path@, t[b0].path@));
            }
        }
        lemma_sorted_paths_unique(s1, t1);
        assert forall|j: int| 0 <= j < s.len() implies (#[trigger] s[j]).path@ == t[j].path@ by {
            if j > 0 {
                assert(s[j] == s1[j - 1]);
                assert(s1[j - 1].path@ == t1[j - 1].path@);
                if j - 1 < k {
                    assert(t1[j - 1] == t[j - 1]);
                    assert(t[j - 1].path@ == s[0].path@);
                    assert(t[j].path@ == s[0].path@) by {
                        if j < k {
                            assert(lex_le(t[0].path@, t[j].path@));
                            assert(lex_le(t[j].path@, t[k].path@));
                            crate::order::lemma_lex_le_antisym(t[j].path@, t[k].path@);
                        }
                    }
                    assert(s[j].path@ == s[0].path@);
                } else {
                    assert(t1[j - 1] == t[j]);
                }
            }
        }
    }
}

} // verus!

verus! {

/// No two of the child paths read the same.
pub open spec fn paths_distinct(s: Seq<Vec<u8>>) -> bool {
    forall|a: int, b: int|
        0 <= a < b < s.len() ==> (#[trigger] s[a])@ != (#[trigger] s[b])@
}

/// No two of the entries carry the same path.
pub open spec fn line_paths_distinct(s: Seq<TreeLine>) -> bool {
    forall|a: int, b: int|
        0 <= a < b < s.len() ==> (#[trigger] s[a]).path@ != (#[trigger] s[b]).path@
}

/// Rearranging a sequence of child paths cannot introduce a duplicate.
pub proof fn lemma_paths_distinct_permuted(x: Seq<Vec<u8>>, y: Seq<Vec<u8>>)
    requires
        x.to_multiset() == y.to_multiset(),
        paths_distinct(x),
    ensures
        paths_distinct(y),
{
    broadcast use vstd::seq_lib::group_to_multiset_ensures;
    broadcast use vstd::multiset::group_multiset_axioms;

    assert forall|a: int, b: int| 0 <= a < b < y.len() implies (#[trigger] y[a])@ != (
    #[trigger] y[b])@ by {
        if y[a]@ == y[b]@ {
            if y[a] == y[b] {
                let v = y[a];
                let y1 = y.remove(a);
                assert(y1.to_multiset() =~= y.to_multiset().remove(v));
                assert(y1[b - 1] == y[b]);
                assert(y1.contains(v));
                assert(y1.to_multiset().count(v) > 0);
                assert(y.to_multiset().count(v) >= 2);
                assert(x.to_multiset().count(v) >= 2);
                assert(x.contains(v));
                let i = choose|i: int| 0 <= i < x.len() && x[i] == v;
                let x1 = x.remove(i);
                assert(x1.to_multiset() =~= x.to_multiset().remove(v));
                assert(x1.to_multiset().count(v) > 0);
                assert(x1.contains(v));
                let j0 = choose|j: int| 0 <= j < x1.len() && x1[j] == v;
                let i2: int = if j0 < i {
                    j0
                } else {
                    j0 + 1
                };
                assert(x[i2] == v);
                assert(x[i]@ == x[i2]@ && i2 != i);
                assert(false);
            } else {
                assert(y.contains(y[a]));
                assert(y.to_multiset().count(y[a]) > 0);
                assert(x.to_multiset().count(y[a]) > 0);
                assert(x.contains(y[a]));
                assert(y.contains(y[b]));
                assert(y.to_multiset().count(y[b]) > 0);
                assert(x.to_multiset().count(y[b]) > 0);
                assert(x.contains(y[b]));
                let i = choose|i: int| 0 <= i < x.len() && x[i] == y[a];
                let j = choose|j: int| 0 <= j < x.len() && x[j] == y[b];
                assert(i != j);
                assert(x[i]@ == x[j]@);
                assert(false);
            }
        }
    }
}

/// Rearranging the entries cannot introduce a duplicate path.
pub proof fn lemma_line_paths_distinct_permuted(x: Seq<TreeLine>, y: Seq<TreeLine>)
    requires
        x.to_multiset() == y.to_multiset(),
        line_paths_distinct(x),
    ensures
        line_paths_distinct(y),
{
    broadcast use vstd::seq_lib::group_to_multiset_ensures;
    broadcast use vstd::multiset::group_multiset_axioms;

    assert forall|a: int, b: int| 0 <= a < b < y.len() implies (#[trigger] y[a]).path@ != (
    #[trigger] y[b]).path@ by {
        if y[a].path@ == y[b].path@ {
            if y[a] == y[b] {
                let v = y[a];
                let y1 = y.remove(a);
                assert(y1.to_multiset() =~= y.to_multiset().remove(v));
                assert(y1[b - 1] == y[b]);
                assert(y1.contains(v));
                assert(y1.to_multiset().count(v) > 0);
                assert(y.to_multiset().count(v) >= 2);
                assert(x.to_multiset().count(v) >= 2);
                assert(x.contains(v));
                let i = choose|i: int| 0 <= i < x.len() && x[i] == v;
                let x1 = x.remove(i);
                assert(x1.to_multiset() =~= x.to_multiset().remove(v));
                assert(x1.to_multiset().count(v) > 0);
                assert(x1.contains(v));
                let j0 = choose|j: int| 0 <= j < x1.len() && x1[j] == v;
                let i2: int = if j0 < i {
                    j0
                } else {
                    j0 + 1
                };
                assert(x[i2] == v);
                assert(x[i].path@ == x[i2].path@ && i2 != i);
                assert(false);
            } else {
                assert(y.contains(y[a]));
                assert(y.to_multiset().count(y[a]) > 0);
                assert(x.to_multiset().count(y[a]) > 0);
                assert(x.contains(y[a]));
                assert(y.contains(y[b]));
                assert(y.to_multiset().count(y[b]) > 0);
                assert(x.to_multiset().count(y[b]) > 0);
                assert(x.contains(y[b]));
                let i = choose|i: int| 0 <= i < x.len() && x[i] == y[a];
                let j = choose|j: int| 0 <= j < x.len() && x[j] == y[b];
                assert(i != j);
                assert(x[i].path@ == x[j].path@);
                assert(false);
            }
        }
    }
}

} // verus!
