//! Raw lexicographic (byte) ordering of paths, the separator structure of
//! child paths, and the lemmas relating the two.

use vstd::prelude::*;

verus! {

/// The path separator byte, `/`.
pub const SEP: u8 = 47;

/// Lexicographic (byte-by-byte) "less or equal" on byte sequences.
pub open spec fn lex_le(a: Seq<u8>, b: Seq<u8>) -> bool
    decreases a.len(),
{
    if a.len() == 0 {
        true
    } else if b.len() == 0 {
        false
    } else if a[0] < b[0] {
        true
    } else if a[0] > b[0] {
        false
    } else {
        lex_le(a.drop_first(), b.drop_first())
    }
}

/// Number of separator bytes in a path.
pub open spec fn sep_count(s: Seq<u8>) -> nat
    decreases s.len(),
{
    if s.len() == 0 {
        0
    } else {
        sep_count(s.drop_first()) + (if s[0] == SEP {
            1nat
        } else {
            0nat
        })
    }
}

/// `c` is the path of a direct child of the directory whose path is `p`:
/// `p`, then one separator, then a non-empty name free of separators.
pub open spec fn is_child_path(p: Seq<u8>, c: Seq<u8>) -> bool {
    &&& c.len() >= p.len() + 2
    &&& p =~= c.subrange(0, p.len() as int)
    &&& c[p.len() as int] == SEP
    &&& forall|k: int| p.len() + 1 <= k < c.len() ==> c[k] != SEP
}

pub proof fn lemma_lex_le_refl(a: Seq<u8>)
    ensures
        lex_le(a, a),
    decreases a.len(),
{
    if a.len() > 0 {
        lemma_lex_le_refl(a.drop_first());
    }
}

pub proof fn lemma_lex_le_total(a: Seq<u8>, b: Seq<u8>)
    ensures
        lex_le(a, b) || lex_le(b, a),
    decreases a.len(),
{
    if a.len() > 0 && b.len() > 0 && a[0] == b[0] {
        lemma_lex_le_total(a.drop_first(), b.drop_first());
    }
}

pub proof fn lemma_lex_le_trans(a: Seq<u8>, b: Seq<u8>, c: Seq<u8>)
    requires
        lex_le(a, b),
        lex_le(b, c),
    ensures
        lex_le(a, c),
    decreases a.len(),
{
    if a.len() > 0 && b.len() > 0 && c.len() > 0 && a[0] == b[0] && b[0] == c[0] {
        lemma_lex_le_trans(a.drop_first(), b.drop_first(), c.drop_first());
    }
}

pub proof fn lemma_lex_le_antisym(a: Seq<u8>, b: Seq<u8>)
    requires
        lex_le(a, b),
        lex_le(b, a),
    ensures
        a =~= b,
    decreases a.len(),
{
    if a.len() > 0 && b.len() > 0 && a[0] == b[0] {
        lemma_lex_le_antisym(a.drop_first(), b.drop_first());
        assert(a =~= seq![a[0]] + a.drop_first());
        assert(b =~= seq![b[0]] + b.drop_first());
    }
}

pub proof fn lemma_prefix_lex_le(p: Seq<u8>, q: Seq<u8>)
    requires
        p.is_prefix_of(q),
    ensures
        lex_le(p, q),
    decreases p.len(),
{
    if p.len() > 0 {
        assert(p[0] == q[0]);
        assert(p.drop_first().is_prefix_of(q.drop_first())) by {
            assert(p.drop_first() =~= q.drop_first().subrange(0, p.drop_first().len() as int));
        }
        lemma_prefix_lex_le(p.drop_first(), q.drop_first());
    }
}

/// Any path lying lexicographically between a path `q` and an extension
/// `p` of `q` itself extends `q`.
pub proof fn lemma_lex_between_prefix(q: Seq<u8>, r: Seq<u8>, p: Seq<u8>)
    requires
        q.is_prefix_of(p),
        lex_le(q, r),
        lex_le(r, p),
    ensures
        q.is_prefix_of(r),
    decreases q.len(),
{
    if q.len() > 0 {
        assert(q[0] == p[0]);
        assert(r.len() > 0);
        if q[0] == r[0] {
            assert(q.drop_first().is_prefix_of(p.drop_first())) by {
                assert(q.drop_first() =~= p.drop_first().subrange(
                    0,
                    q.drop_first().len() as int,
                ));
            }
            lemma_lex_between_prefix(q.drop_first(), r.drop_first(), p.drop_first());
            assert(q =~= seq![q[0]] + q.drop_first());
            assert(q.is_prefix_of(r)) by {
                assert(q =~= r.subrange(0, q.len() as int));
            }
        }
    }
}

pub proof fn lemma_sep_count_concat(a: Seq<u8>, b: Seq<u8>)
    ensures
        sep_count(a + b) == sep_count(a) + sep_count(b),
    decreases a.len(),
{
    if a.len() == 0 {
        assert(a + b =~= b);
    } else {
        assert((a + b).drop_first() =~= a.drop_first() + b);
        lemma_sep_count_concat(a.drop_first(), b);
    }
}

pub proof fn lemma_sep_count_prefix(p: Seq<u8>, q: Seq<u8>)
    requires
        p.is_prefix_of(q),
    ensures
        sep_count(p) <= sep_count(q),
{
    assert(q =~= p + q.subrange(p.len() as int, q.len() as int));
    lemma_sep_count_concat(p, q.subrange(p.len() as int, q.len() as int));
}

pub proof fn lemma_sep_count_free(s: Seq<u8>)
    requires
        forall|k: int| 0 <= k < s.len() ==> s[k] != SEP,
    ensures
        sep_count(s) == 0,
    decreases s.len(),
{
    if s.len() > 0 {
        lemma_sep_count_free(s.drop_first());
    }
}

/// A direct child's path holds exactly one separator more than its
/// parent's.
pub proof fn lemma_child_sep_count(p: Seq<u8>, c: Seq<u8>)
    requires
        is_child_path(p, c),
    ensures
        sep_count(c) == sep_count(p) + 1,
{
    let name = c.subrange(p.len() as int + 1, c.len() as int);
    assert(c =~= p + seq![SEP] + name);
    lemma_sep_count_concat(p + seq![SEP], name);
    lemma_sep_count_concat(p, seq![SEP]);
    assert(sep_count(seq![SEP]) == 1) by {
        let s1 = seq![SEP];
        assert(s1.len() == 1 && s1[0] == SEP);
        assert(s1.drop_first() =~= Seq::<u8>::empty());
        assert(sep_count(s1.drop_first()) == 0);
    }
    lemma_sep_count_free(name);
}

/// A path is the direct child of exactly one directory path.
pub proof fn lemma_parent_unique(p1: Seq<u8>, p2: Seq<u8>, c: Seq<u8>)
    requires
        is_child_path(p1, c),
        is_child_path(p2, c),
    ensures
        p1 =~= p2,
{
    if p1.len() < p2.len() {
        assert(c[p2.len() as int] == SEP);
        assert(p1.len() + 1 <= p2.len() < c.len());
        assert(false);
    }
    if p2.len() < p1.len() {
        assert(c[p1.len() as int] == SEP);
        assert(p2.len() + 1 <= p1.len() < c.len());
        assert(false);
    }
    assert(p1 =~= c.subrange(0, p1.len() as int));
    assert(p2 =~= c.subrange(0, p2.len() as int));
}

/// Comparing two byte vectors lexicographically.
pub fn path_le(a: &Vec<u8>, b: &Vec<u8>) -> (r: bool)
    ensures
        r == lex_le(a@, b@),
{
    let mut i: usize = 0;
    proof {
        assert(a@.skip(0) =~= a@);
        assert(b@.skip(0) =~= b@);
    }
    loop
        invariant
            i <= a@.len(),
            i <= b@.len(),
            lex_le(a@, b@) == lex_le(a@.skip(i as int), b@.skip(i as int)),
        decreases a@.len() - i,
    {
        if i >= a.len() {
            assert(a@.skip(i as int).len() == 0);
            return true;
        }
        if i >= b.len() {
            assert(b@.skip(i as int).len() == 0);
            assert(a@.skip(i as int).len() > 0);
            return false;
        }
        let x = a[i];
        let y = b[i];
        assert(a@.skip(i as int)[0] == a@[i as int]);
        assert(b@.skip(i as int)[0] == b@[i as int]);
        if x < y {
            return true;
        }
        if x > y {
            return false;
        }
        assert(a@.skip(i as int).drop_first() =~= a@.skip(i as int + 1));
        assert(b@.skip(i as int).drop_first() =~= b@.skip(i as int + 1));
        i = i + 1;
    }
}

} // verus!
