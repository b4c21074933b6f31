//! The flattened tree: entries, the per-directory child cursor, and the
//! budgeted round-robin builder.

use crate::label::{pruning_label, pruning_label_spec};
use crate::order::{
    is_child_path, lemma_child_sep_count, lemma_lex_le_antisym, lemma_parent_unique,
    lemma_prefix_lex_le, lex_le, sep_count, SEP,
};
use crate::sorting::{
    lemma_line_paths_distinct_permuted, lemma_paths_distinct_permuted, line_paths_distinct,
    lines_sorted, paths_distinct, paths_sorted, sort_lines, sort_paths,
};
use vstd::prelude::*;
use vstd::string::StringExecFns;

verus! {

broadcast use {vstd::seq_lib::group_to_multiset_ensures, vstd::multiset::group_multiset_axioms};

/// What one flattened entry stands for: a plain file, a directory, or a
/// placeholder for `n` entries that the budget left unlisted (the
/// replaced entry itself included).
#[derive(Debug, Clone, Copy, PartialEq, Eq, Structural)]
pub enum LineType {
    File,
    Dir,
    Pruning(usize),
}

/// One flattened tree node.
#[derive(Debug)]
pub struct TreeLine {
    pub name: String,
    pub depth: u16,
    pub path: Vec<u8>,
    pub content: LineType,
}

/// Position where the base name of a path starts: right after the last
/// separator, or zero when the path holds none.
pub open spec fn suffix_start(p: Seq<u8>) -> int
    decreases p.len(),
{
    if p.len() == 0 {
        0
    } else if p[p.len() - 1] == SEP {
        p.len() as int
    } else {
        suffix_start(p.drop_last())
    }
}

pub open spec fn basename(p: Seq<u8>) -> Seq<u8> {
    p.subrange(suffix_start(p), p.len() as int)
}

pub proof fn lemma_suffix_start_bounds(p: Seq<u8>)
    ensures
        0 <= suffix_start(p) <= p.len(),
    decreases p.len(),
{
    if p.len() > 0 && p[p.len() - 1] != SEP {
        lemma_suffix_start_bounds(p.drop_last());
    }
}

/// The characters that stand for a byte sequence once decoded, invalid
/// sequences replaced.
pub uninterp spec fn lossy_of(bytes: Seq<u8>) -> Seq<char>;

/// Relies on String::from_utf8_lossy: the decoding depends on the bytes
/// alone.
#[verifier::external_body]
fn lossy_string(bytes: &Vec<u8>) -> (r: String)
    ensures
        r@ == lossy_of(bytes@),
{
    String::from_utf8_lossy(bytes).into_owned()
}

impl TreeLine {
    /// Makes the entry for a path at a depth; whether the path is a
    /// directory is handed in, since only the caller can stat it.
    pub fn create(path: Vec<u8>, depth: u16, is_dir: bool) -> (line: TreeLine)
        ensures
            line.path@ == path@,
            line.depth == depth,
            line.content == (if is_dir {
                LineType::Dir
            } else {
                LineType::File
            }),
            basename(path@).len() > 0 ==> line.name@ == lossy_of(basename(path@)),
            basename(path@).len() == 0 ==> line.name@ == "???"@,
    {
        proof {
            lemma_suffix_start_bounds(path@);
            assert(path@.subrange(0, path@.len() as int) =~= path@);
        }
        let mut k: usize = path.len();
        loop
            invariant
                k <= path@.len(),
                suffix_start(path@) == suffix_start(path@.subrange(0, k as int)),
                suffix_start(path@.subrange(0, k as int)) <= k,
            ensures
                suffix_start(path@) == k,
            decreases k,
        {
            if k == 0 {
                proof {
                    assert(path@.subrange(0, 0) =~= Seq::<u8>::empty());
                }
                break ;
            }
            if path[k - 1] == SEP {
                proof {
                    let s = path@.subrange(0, k as int);
                    assert(s.len() == k && s[k - 1] == path@[k - 1]);
                }
                break ;
            }
            proof {
                let s = path@.subrange(0, k as int);
                assert(s.len() == k && s[k - 1] == path@[k - 1]);
                assert(s.drop_last() =~= path@.subrange(0, k as int - 1));
                lemma_suffix_start_bounds(s.drop_last());
            }
            k = k - 1;
        }
        let mut nb: Vec<u8> = Vec::new();
        let mut j: usize = k;
        while j < path.len()
            invariant
                k <= j <= path@.len(),
                nb@ =~= path@.subrange(k as int, j as int),
            decreases path@.len() - j,
        {
            nb.push(path[j]);
            proof {
                assert(nb@ =~= path@.subrange(k as int, j as int + 1));
            }
            j = j + 1;
        }
        proof {
            assert(nb@ =~= basename(path@));
        }
        let name = if nb.len() == 0 {
            String::from_str("???")
        } else {
            lossy_string(&nb)
        };
        let content = if is_dir {
            LineType::Dir
        } else {
            LineType::File
        };
        TreeLine { name, depth, path, content }
    }

    pub fn is_dir(&self) -> (r: bool)
        ensures
            r == (self.content is Dir),
    {
        match &self.content {
            LineType::Dir => true,
            _ => false,
        }
    }
}

fn copy_bytes(v: &Vec<u8>) -> (r: Vec<u8>)
    ensures
        r@ == v@,
{
    let mut r: Vec<u8> = Vec::new();
    let mut i: usize = 0;
    while i < v.len()
        invariant
            i <= v@.len(),
            r@ =~= v@.subrange(0, i as int),
        decreases v@.len() - i,
    {
        r.push(v[i]);
        proof {
            assert(r@ =~= v@.subrange(0, i as int + 1));
        }
        i = i + 1;
    }
    proof {
        assert(r@ =~= v@);
    }
    r
}

/// A cursor over the sorted direct children of one directory entry. It
/// hands the children out one at a time and remembers which line of the
/// builder, if any, was the most recent child it produced.
pub struct ChildIterator {
    sorted_childs: Option<Vec<Vec<u8>>>,
    index_next_child: usize,
    index_last_line: usize,
}

impl ChildIterator {
    /// The sorted children, empty for a non-directory.
    pub closed spec fn childs(self) -> Seq<Vec<u8>> {
        match self.sorted_childs {
            Option::Some(v) => v@,
            Option::None => Seq::empty(),
        }
    }

    pub closed spec fn is_directory(self) -> bool {
        self.sorted_childs is Some
    }

    /// How many children have been handed out so far.
    pub closed spec fn next_index(self) -> int {
        self.index_next_child as int
    }

    /// Index in the builder's lines of the most recent child emitted for
    /// this directory; 0 is the "none yet" sentinel (line 0 is always the
    /// root, never a child).
    pub closed spec fn last_line(self) -> int {
        self.index_last_line as int
    }

    /// Children not yet handed out.
    pub open spec fn remaining(self) -> int {
        self.childs().len() - self.next_index()
    }

    /// The cursor fits the entry it was opened for.
    pub open spec fn wf(self, line: TreeLine) -> bool {
        &&& self.is_directory() <==> line.content is Dir
        &&& 0 <= self.next_index() <= self.childs().len()
        &&& self.childs().len() < usize::MAX
        &&& paths_sorted(self.childs())
        &&& paths_distinct(self.childs())
        &&& forall|k: int|
            0 <= k < self.childs().len() ==> is_child_path(
                line.path@,
                #[trigger] self.childs()[k]@,
            )
    }

    /// Opens the cursor of an entry: for a directory, the listed child
    /// paths are sorted and kept; for anything else the cursor is empty.
    pub fn from(line: &TreeLine, childs: Vec<Vec<u8>>) -> (it: ChildIterator)
        requires
            childs@.len() < usize::MAX,
            line.content is Dir ==> forall|k: int|
                0 <= k < childs@.len() ==> is_child_path(line.path@, #[trigger] childs@[k]@),
            line.content is Dir ==> paths_distinct(childs@),
        ensures
            it.wf(*line),
            it.next_index() == 0,
            it.last_line() == 0,
            line.content is Dir ==> it.childs().to_multiset() == childs@.to_multiset(),
            !(line.content is Dir) ==> it.childs() == Seq::<Vec<u8>>::empty(),
    {
        let sorted_childs = if line.is_dir() {
            let ghost c0 = childs@;
            let sorted = sort_paths(childs);
            proof {
                assert forall|k: int| 0 <= k < sorted@.len() implies is_child_path(
                    line.path@,
                    #[trigger] sorted@[k]@,
                ) by {
                    assert(sorted@.to_multiset().contains(sorted@[k]));
                }
                lemma_paths_distinct_permuted(c0, sorted@);
            }
            Option::Some(sorted)
        } else {
            Option::None
        };
        ChildIterator { sorted_childs, index_next_child: 0, index_last_line: 0 }
    }

    /// The next unclaimed child path in sorted order, or nothing when the
    /// cursor is exhausted; each call advances the cursor by one.
    pub fn next_child(&mut self) -> (r: Option<Vec<u8>>)
        requires
            old(self).next_index() <= old(self).childs().len(),
        ensures
            final(self).childs() == old(self).childs(),
            final(self).last_line() == old(self).last_line(),
            final(self).is_directory() == old(self).is_directory(),
            old(self).remaining() > 0 ==> {
                &&& r is Some
                &&& r.unwrap()@ == old(self).childs()[old(self).next_index()]@
                &&& final(self).next_index() == old(self).next_index() + 1
            },
            old(self).remaining() == 0 ==> r is None && final(self).next_index() == old(
                self,
            ).next_index(),
    {
        match &self.sorted_childs {
            Option::Some(v) => {
                if self.index_next_child < v.len() {
                    let child = copy_bytes(&v[self.index_next_child]);
                    self.index_next_child = self.index_next_child + 1;
                    Option::Some(child)
                } else {
                    Option::None
                }
            },
            Option::None => Option::None,
        }
    }

    /// Number of children not yet claimed through `next_child`.
    pub fn nb_unlisted(&self) -> (r: usize)
        requires
            self.next_index() <= self.childs().len(),
        ensures
            r == self.remaining(),
    {
        match &self.sorted_childs {
            Option::Some(v) => v.len() - self.index_next_child,
            Option::None => 0,
        }
    }
}

/// The immutable output: entries ordered by path, ready for rendering.
#[derive(Debug)]
pub struct Tree {
    pub lines: Vec<TreeLine>,
}

} // verus!

verus! {

/// What the builder waits for next: the listing of the root, the listing
/// of a claimed child path, or nothing (expansion over).
enum Phase {
    NeedRoot(Vec<u8>),
    NeedChild(Vec<u8>, usize),
    Done,
}

/// Grows the index-aligned pair of entry and cursor sequences under a
/// budget, round-robin among the open directories of the current depth.
/// The builder itself never touches storage: it names the path it wants
/// listed, and `push` hands the listing in.
pub struct TreeBuilder {
    lines: Vec<TreeLine>,
    child_iterators: Vec<ChildIterator>,
    nb_lines_max: usize,
    current_depth: u16,
    max_depth: u16,
    scan: usize,
    round_end: usize,
    appended_in_round: bool,
    phase: Phase,
    rounds: Ghost<nat>,
}

impl TreeBuilder {
    /// The entries appended so far.
    pub closed spec fn lines(self) -> Seq<TreeLine> {
        self.lines@
    }

    pub closed spec fn budget(self) -> int {
        self.nb_lines_max as int
    }

    /// How many children of entry `i` have been emitted.
    pub closed spec fn emitted(self, i: int) -> int {
        self.child_iterators@[i].next_index()
    }

    /// How many children of entry `i` are still unclaimed.
    pub closed spec fn unlisted(self, i: int) -> int {
        self.child_iterators@[i].remaining()
    }

    /// The line index of the most recent child emitted for entry `i`,
    /// 0 when none was.
    pub closed spec fn last_of(self, i: int) -> int {
        self.child_iterators@[i].last_line()
    }

    /// The sorted child listing held for entry `i`: what `push` was
    /// handed for it, empty for a non-directory. It never changes after
    /// the entry is appended; `emitted` and `unlisted` count within it.
    pub closed spec fn childs_of(self, i: int) -> Seq<Vec<u8>> {
        self.child_iterators@[i].childs()
    }

    pub closed spec fn is_done(self) -> bool {
        self.phase is Done
    }

    /// The path whose listing the builder waits for.
    pub closed spec fn pending_path(self) -> Option<Seq<u8>> {
        match self.phase {
            Phase::NeedRoot(p) => Option::Some(p@),
            Phase::NeedChild(p, _) => Option::Some(p@),
            Phase::Done => Option::None,
        }
    }

    /// The entry whose child the pending path is (meaningful only while
    /// a child listing is awaited).
    pub closed spec fn pending_parent(self) -> int {
        match self.phase {
            Phase::NeedChild(_, par) => par as int,
            _ => 0,
        }
    }

    spec fn inv_core(self) -> bool {
        let lines = self.lines@;
        let its = self.child_iterators@;
        let n = lines.len() as int;
        &&& its.len() == n
        &&& n <= self.nb_lines_max
        &&& 1 <= self.nb_lines_max <= 65535
        &&& forall|i: int| 0 <= i < n ==> (#[trigger] its[i]).wf(lines[i])
        &&& n > 0 ==> lines[0].depth == 0
        &&& forall|j: int| 0 <= j < n ==> (#[trigger] lines[j]).depth as int <= j
        &&& forall|j: int| 1 <= j < n ==> (#[trigger] lines[j]).depth >= 1
        &&& forall|j: int|
            0 <= j < n ==> (#[trigger] lines[j]).content is Dir || lines[j].content is File
        &&& forall|j: int|
            1 <= j < n ==> exists|i: int|
                0 <= i < j && is_child_path(lines[i].path@, (#[trigger] lines[j]).path@)
                    && lines[j].depth == lines[i].depth + 1 && (exists|k: int|
                    0 <= k < its[i].next_index() && lines[j].path@ == (#[trigger] its[
                        i
                    ].childs()[k])@)
        &&& forall|a: int, b: int|
            0 <= a < b < n ==> (#[trigger] lines[a]).path@ != (#[trigger] lines[b]).path@
        &&& forall|j: int|
            0 <= j < n ==> lines[0].path@.is_prefix_of((#[trigger] lines[j]).path@) && sep_count(
                lines[j].path@,
            ) == sep_count(lines[0].path@) + lines[j].depth
        &&& forall|i: int|
            0 <= i < n ==> (#[trigger] its[i]).last_line() == 0 || (i < its[i].last_line() < n
                && lines[its[i].last_line()].depth == lines[i].depth + 1 && is_child_path(
                lines[i].path@,
                lines[its[i].last_line()].path@,
            ))
        &&& forall|i: int, j: int|
            0 <= i < n && 0 <= j < n && i != j && (#[trigger] its[i]).last_line() != 0 ==> its[
                i
            ].last_line() != (#[trigger] its[j]).last_line()
    }

    spec fn inv_round(self) -> bool {
        let lines = self.lines@;
        let its = self.child_iterators@;
        let n = lines.len() as int;
        &&& self.scan <= self.round_end <= n
        &&& self.current_depth <= self.max_depth
        &&& self.max_depth as int <= self.current_depth as int + 1
        &&& forall|j: int| 0 <= j < n ==> (#[trigger] lines[j]).depth <= self.max_depth
        &&& forall|j: int|
            0 <= j < n && (#[trigger] lines[j]).depth == self.current_depth ==> j
                < self.round_end
        &&& forall|j: int|
            0 <= j < n && (#[trigger] lines[j]).depth > self.current_depth ==> its[
                j
            ].next_index() == 0
        &&& forall|j: int|
            0 <= j < n && (#[trigger] lines[j]).depth < self.current_depth ==> its[
                j
            ].remaining() == 0
        &&& forall|j: int|
            0 <= j < n && (#[trigger] lines[j]).depth == self.current_depth && its[
                j
            ].remaining() > 0 ==> its[j].next_index() == self.rounds@ + (if j < self.scan {
                1int
            } else {
                0int
            })
        &&& (!self.appended_in_round ==> forall|j: int|
            0 <= j < self.scan && (#[trigger] lines[j]).depth == self.current_depth ==> its[
                j
            ].remaining() == 0)
    }

    spec fn phase_inv(self) -> bool {
        let lines = self.lines@;
        let its = self.child_iterators@;
        let n = lines.len() as int;
        match self.phase {
            Phase::NeedRoot(_) => n == 0,
            Phase::NeedChild(p, par) => {
                &&& n < self.nb_lines_max
                &&& 0 <= par < n
                &&& lines[par as int].depth == self.current_depth
                &&& lines[par as int].content is Dir
                &&& its[par as int].next_index() >= 1
                &&& p@ == its[par as int].childs()[its[par as int].next_index() - 1]@
                &&& is_child_path(lines[par as int].path@, p@)
                &&& forall|j: int| 0 <= j < n ==> (#[trigger] lines[j]).path@ != p@
                &&& self.scan == par + 1
                &&& self.appended_in_round
            },
            Phase::Done => n >= 1 && (n == self.nb_lines_max || forall|i: int|
                0 <= i < n ==> (#[trigger] its[i]).remaining() == 0),
        }
    }

    /// The builder's invariant: it holds after every public call.
    pub closed spec fn wf(self) -> bool {
        self.inv_core() && self.inv_round() && self.phase_inv()
    }

    /// Entry `i` prunes line `j`: `j` is the last child `i` emitted and
    /// `i` still had unclaimed children when expansion stopped.
    pub open spec fn prunes(self, i: int, j: int) -> bool {
        &&& 0 <= i < self.lines().len()
        &&& self.last_of(i) == j
        &&& j != 0
        &&& self.unlisted(i) > 0
    }

    /// What the pruning rewrite leaves at position `j`.
    pub open spec fn prune_target_ok(self, mid: Seq<TreeLine>, j: int) -> bool {
        if exists|i: int| self.prunes(i, j) {
            let i = choose|i: int| self.prunes(i, j);
            let c = self.unlisted(i) + 1;
            &&& mid[j].path@ == self.lines()[j].path@
            &&& mid[j].depth == self.lines()[j].depth
            &&& mid[j].content == LineType::Pruning(c as usize)
            &&& mid[j].name@ == pruning_label_spec(c as nat)
        } else {
            mid[j] == self.lines()[j]
        }
    }

    /// `mid` is the entry sequence after the pruning rewrite.
    pub open spec fn prune_rel(self, mid: Seq<TreeLine>) -> bool {
        &&& mid.len() == self.lines().len()
        &&& forall|j: int| 0 <= j < mid.len() ==> #[trigger] self.prune_target_ok(mid, j)
    }

    /// Starts a build of the tree rooted at `path`, bounded by
    /// `nb_lines_max` entries; the root's listing is awaited first.
    pub fn from(path: Vec<u8>, nb_lines_max: u16) -> (b: TreeBuilder)
        requires
            nb_lines_max >= 1,
        ensures
            b.wf(),
            !b.is_done(),
            b.lines().len() == 0,
            b.pending_path() == Option::Some(path@),
            b.budget() == nb_lines_max as int,
    {
        TreeBuilder {
            lines: Vec::new(),
            child_iterators: Vec::new(),
            nb_lines_max: nb_lines_max as usize,
            current_depth: 0,
            max_depth: 0,
            scan: 0,
            round_end: 0,
            appended_in_round: false,
            phase: Phase::NeedRoot(path),
            rounds: Ghost(0nat),
        }
    }

    /// The path the builder needs listed, or nothing once expansion is
    /// over.
    pub fn pending(&self) -> (r: Option<Vec<u8>>)
        ensures
            r is Some <==> self.pending_path() is Some,
            r is Some ==> r.unwrap()@ == self.pending_path().unwrap(),
    {
        match &self.phase {
            Phase::NeedRoot(p) => Option::Some(copy_bytes(p)),
            Phase::NeedChild(p, _) => Option::Some(copy_bytes(p)),
            Phase::Done => Option::None,
        }
    }

    pub fn done(&self) -> (r: bool)
        ensures
            r == self.is_done(),
    {
        match &self.phase {
            Phase::Done => true,
            _ => false,
        }
    }
}

} // verus!

verus! {

/// The parts of a cursor that the scan never changes: its listing, its
/// kind, and the line it last emitted; only `next_index` may advance.
spec fn same_listing(a: ChildIterator, b: ChildIterator) -> bool {
    a.childs() == b.childs() && a.last_line() == b.last_line() && a.is_directory()
        == b.is_directory()
}

/// Each entry's claim record (some claimed child of an earlier entry
/// carries its path) survives when cursors only claim further children.
proof fn lemma_links_monotone(lines: Seq<TreeLine>, a: Seq<ChildIterator>, b: Seq<ChildIterator>)
    requires
        a.len() == lines.len(),
        b.len() == lines.len(),
        forall|i: int| 0 <= i < lines.len() ==> (#[trigger] b[i]).childs() == a[i].childs(),
        forall|i: int|
            0 <= i < lines.len() ==> (#[trigger] b[i]).next_index() >= a[i].next_index(),
        forall|j: int|
            1 <= j < lines.len() ==> exists|i: int|
                0 <= i < j && is_child_path(lines[i].path@, (#[trigger] lines[j]).path@)
                    && lines[j].depth == lines[i].depth + 1 && (exists|k: int|
                    0 <= k < a[i].next_index() && lines[j].path@ == (#[trigger] a[
                        i
                    ].childs()[k])@),
    ensures
        forall|j: int|
            1 <= j < lines.len() ==> exists|i: int|
                0 <= i < j && is_child_path(lines[i].path@, (#[trigger] lines[j]).path@)
                    && lines[j].depth == lines[i].depth + 1 && (exists|k: int|
                    0 <= k < b[i].next_index() && lines[j].path@ == (#[trigger] b[
                        i
                    ].childs()[k])@),
{
    assert forall|j: int| 1 <= j < lines.len() implies exists|i: int|
        0 <= i < j && is_child_path(lines[i].path@, (#[trigger] lines[j]).path@) && lines[
        j
    ].depth == lines[i].depth + 1 && (exists|k: int|
        0 <= k < b[i].next_index() && lines[j].path@ == (#[trigger] b[i].childs()[k])@) by {
        let i = choose|i: int|
            0 <= i < j && is_child_path(lines[i].path@, lines[j].path@) && lines[j].depth
                == lines[i].depth + 1 && (exists|k: int|
                0 <= k < a[i].next_index() && lines[j].path@ == (#[trigger] a[i].childs()[k])@);
        let k = choose|k: int|
            0 <= k < a[i].next_index() && lines[j].path@ == (#[trigger] a[i].childs()[k])@;
        assert(0 <= k < b[i].next_index() && lines[j].path@ == (b[i].childs()[k])@);
    }
}

/// The child a cursor is about to hand out has a path no entry carries
/// yet: earlier entries hold other claim slots of this directory, other
/// directories' children have another parent path, and the root sits a
/// level above.
proof fn lemma_claim_fresh(b: TreeBuilder, i: int, c: Seq<u8>)
    requires
        b.inv_core(),
        0 <= i < b.lines@.len(),
        b.child_iterators@[i].remaining() > 0,
        c == (b.child_iterators@[i].childs()[b.child_iterators@[i].next_index()])@,
    ensures
        forall|j: int| 0 <= j < b.lines@.len() ==> (#[trigger] b.lines@[j]).path@ != c,
{
    let lines = b.lines@;
    let its = b.child_iterators@;
    let pi = lines[i].path@;
    assert(its[i].wf(lines[i]));
    assert(is_child_path(pi, c));
    assert forall|j: int| 0 <= j < lines.len() implies (#[trigger] lines[j]).path@ != c by {
        if lines[j].path@ == c {
            lemma_child_sep_count(pi, c);
            assert(sep_count(lines[j].path@) == sep_count(lines[0].path@) + lines[j].depth);
            assert(sep_count(pi) == sep_count(lines[0].path@) + lines[i].depth);
            assert(lines[j].depth == lines[i].depth + 1);
            assert(j >= 1);
            let i2 = choose|i2: int|
                0 <= i2 < j && is_child_path(lines[i2].path@, lines[j].path@) && lines[j].depth
                    == lines[i2].depth + 1 && (exists|k: int|
                    0 <= k < its[i2].next_index() && lines[j].path@ == (#[trigger] its[
                        i2
                    ].childs()[k])@);
            lemma_parent_unique(lines[i2].path@, pi, c);
            assert(lines[i2].path@ == pi);
            assert(i2 == i);
            let k = choose|k: int|
                0 <= k < its[i].next_index() && lines[j].path@ == (#[trigger] its[
                    i
                ].childs()[k])@;
            assert(k != its[i].next_index());
            assert((its[i].childs()[k])@ != (its[i].childs()[its[i].next_index()])@);
            assert(false);
        }
    }
}

impl TreeBuilder {
    /// Runs the round-robin scan until it either claims the next child
    /// to append (whose listing the caller must hand in) or finds that
    /// expansion is over.
    #[verifier::rlimit(100)]
    fn advance(&mut self)
        requires
            old(self).inv_core(),
            old(self).inv_round(),
            old(self).phase is Done,
            old(self).lines@.len() >= 1,
        ensures
            final(self).wf(),
            final(self).lines@ == old(self).lines@,
            final(self).nb_lines_max == old(self).nb_lines_max,
            forall|i: int|
                0 <= i < old(self).lines@.len() ==> final(self).last_of(i) == old(self).last_of(
                    i,
                ),
            forall|i: int|
                0 <= i < old(self).lines@.len() ==> final(self).childs_of(i) == old(
                    self,
                ).childs_of(i),
    {
        loop
            invariant_except_break
                self.inv_core(),
                self.inv_round(),
                self.phase is Done,
                self.lines@ == old(self).lines@,
                self.nb_lines_max == old(self).nb_lines_max,
                self.lines@.len() >= 1,
                forall|i: int|
                    0 <= i < old(self).lines@.len() ==> same_listing(
                        #[trigger] self.child_iterators@[i],
                        old(self).child_iterators@[i],
                    ),
            ensures
                self.wf(),
                self.lines@ == old(self).lines@,
                self.nb_lines_max == old(self).nb_lines_max,
                forall|i: int|
                    0 <= i < old(self).lines@.len() ==> same_listing(
                        #[trigger] self.child_iterators@[i],
                        old(self).child_iterators@[i],
                    ),
            decreases
                    self.max_depth as int - self.current_depth as int,
                    (if self.appended_in_round {
                        1int
                    } else {
                        0int
                    }),
                    self.round_end as int - self.scan as int,
        {
            if self.lines.len() >= self.nb_lines_max {
                proof {
                    assert(self.lines@.len() == self.nb_lines_max);
                }
                break ;
            }
            if self.scan < self.round_end {
                let i = self.scan;
                if self.lines[i].depth == self.current_depth {
                    let ghost b0 = *self;
                    let ghost its0 = self.child_iterators@;
                    let cursor = &mut self.child_iterators[i];
                    let r = cursor.next_child();
                    match r {
                        Option::Some(child) => {
                            self.scan = i + 1;
                            self.appended_in_round = true;
                            self.phase = Phase::NeedChild(child, i);
                            proof {
                                let its = self.child_iterators@;
                                let lines = self.lines@;
                                let n = lines.len() as int;
                                assert(its0[i as int].remaining() > 0);
                                assert(its[i as int].wf(lines[i as int]));
                                assert(its[i as int].childs().len() > 0);
                                assert(lines[i as int].content is Dir);
                                assert forall|k: int| 0 <= k < n implies (#[trigger] its[k]).wf(
                                    lines[k],
                                ) by {
                                    if k != i {
                                        assert(its[k] == its0[k]);
                                    }
                                }
                                assert forall|k: int|
                                    0 <= k < n implies same_listing(
                                    #[trigger] its[k],
                                    its0[k],
                                ) by {
                                    if k != i {
                                        assert(its[k] == its0[k]);
                                    }
                                }
                                assert forall|k: int|
                                    0 <= k < n implies (#[trigger] its[k]).next_index() >= its0[
                                    k
                                ].next_index() by {
                                    if k != i {
                                        assert(its[k] == its0[k]);
                                    }
                                }
                                lemma_links_monotone(lines, its0, its);
                                assert(self.inv_core());
                                lemma_claim_fresh(b0, i as int, its0[i as int].childs()[its0[
                                    i as int
                                ].next_index()]@);
                                assert forall|j: int|
                                    0 <= j < n && (#[trigger] lines[j]).depth
                                        == self.current_depth && its[j].remaining() > 0 implies
                                    its[j].next_index() == self.rounds@ + (if j < self.scan {
                                        1int
                                    } else {
                                        0int
                                    }) by {
                                    if j != i {
                                        assert(its[j] == its0[j]);
                                    }
                                }
                                assert(self.inv_round());
                                assert(self.phase_inv());
                            }
                            break ;
                        },
                        Option::None => {
                            self.scan = i + 1;
                            proof {
                                let its = self.child_iterators@;
                                let lines = self.lines@;
                                let n = lines.len() as int;
                                assert(its0[i as int].remaining() == 0);
                                assert forall|k: int| 0 <= k < n implies (#[trigger] its[k]).wf(
                                    lines[k],
                                ) by {
                                    if k != i {
                                        assert(its[k] == its0[k]);
                                    }
                                }
                                assert forall|k: int|
                                    0 <= k < n implies same_listing(
                                    #[trigger] its[k],
                                    its0[k],
                                ) by {
                                    if k != i {
                                        assert(its[k] == its0[k]);
                                    }
                                }
                                assert forall|k: int|
                                    0 <= k < n implies (#[trigger] its[k]).next_index() >= its0[
                                    k
                                ].next_index() by {
                                    if k != i {
                                        assert(its[k] == its0[k]);
                                    }
                                }
                                lemma_links_monotone(lines, its0, its);
                                assert forall|j: int|
                                    0 <= j < n && (#[trigger] lines[j]).depth
                                        == self.current_depth && its[j].remaining() > 0 implies
                                    its[j].next_index() == self.rounds@ + (if j < self.scan {
                                        1int
                                    } else {
                                        0int
                                    }) by {
                                    if j != i {
                                        assert(its[j] == its0[j]);
                                    }
                                }
                                assert(self.inv_core());
                                assert(self.inv_round());
                            }
                        },
                    }
                } else {
                    self.scan = self.scan + 1;
                }
            } else {
                if !self.appended_in_round {
                    if self.max_depth > self.current_depth {
                        self.current_depth = self.current_depth + 1;
                        self.scan = 0;
                        self.round_end = self.lines.len();
                        self.rounds = Ghost(0nat);
                        proof {
                            let its = self.child_iterators@;
                            let lines = self.lines@;
                            let n = lines.len() as int;
                            assert forall|j: int|
                                0 <= j < n && (#[trigger] lines[j]).depth
                                    < self.current_depth implies its[j].remaining() == 0 by {
                                assert(lines[j].depth <= self.current_depth - 1);
                            }
                            assert(self.inv_round());
                        }
                    } else {
                        proof {
                            let its = self.child_iterators@;
                            let lines = self.lines@;
                            let n = lines.len() as int;
                            assert forall|j: int| 0 <= j < n implies (#[trigger] its[
                                j
                            ]).remaining() == 0 by {
                                assert(lines[j].depth <= self.max_depth);
                                if lines[j].depth == self.current_depth {
                                    assert(j < self.round_end);
                                }
                            }
                        }
                        break ;
                    }
                } else {
                    self.appended_in_round = false;
                    self.scan = 0;
                    self.round_end = self.lines.len();
                    self.rounds = Ghost(self.rounds@ + 1);
                    proof {
                        let its = self.child_iterators@;
                        let lines = self.lines@;
                        let n = lines.len() as int;
                        assert forall|j: int|
                            0 <= j < n && (#[trigger] lines[j]).depth == self.current_depth
                                && its[j].remaining() > 0 implies its[j].next_index()
                            == self.rounds@ + (if j < self.scan {
                                1int
                            } else {
                                0int
                            }) by {
                            assert(j < self.round_end);
                        }
                        assert(self.inv_round());
                    }
                }
            }
        }
    }

    /// Appends the entry whose listing the builder asked for: whether it
    /// is a directory, and if so its direct child paths (in any order;
    /// the cursor sorts them). The builder then claims the next child to
    /// expand, or ends the expansion.
    #[verifier::rlimit(100)]
    pub fn push(&mut self, is_dir: bool, childs: Vec<Vec<u8>>)
        requires
            old(self).wf(),
            !old(self).is_done(),
            childs@.len() < usize::MAX,
            is_dir ==> forall|k: int|
                0 <= k < childs@.len() ==> is_child_path(
                    old(self).pending_path().unwrap(),
                    (#[trigger] childs@[k])@,
                ),
            is_dir ==> paths_distinct(childs@),
            !is_dir ==> childs@.len() == 0,
        ensures
            final(self).wf(),
            final(self).budget() == old(self).budget(),
            final(self).lines().len() == old(self).lines().len() + 1,
            final(self).lines().len() <= final(self).budget(),
            forall|j: int|
                0 <= j < old(self).lines().len() ==> final(self).lines()[j] == old(self).lines()[
                    j
                ],
            ({
                let l = final(self).lines().last();
                &&& l.path@ == old(self).pending_path().unwrap()
                &&& l.content == (if is_dir {
                    LineType::Dir
                } else {
                    LineType::File
                })
                &&& (old(self).lines().len() == 0 ==> l.depth == 0)
                &&& (old(self).lines().len() > 0 ==> l.depth == old(self).lines()[old(
                    self,
                ).pending_parent()].depth + 1)
                &&& (basename(l.path@).len() > 0 ==> l.name@ == lossy_of(basename(l.path@)))
                &&& (basename(l.path@).len() == 0 ==> l.name@ == "???"@)
            }),
            old(self).lines().len() > 0 ==> final(self).last_of(old(self).pending_parent()) == old(
                self,
            ).lines().len(),
            is_dir ==> final(self).childs_of(old(self).lines().len() as int).to_multiset()
                == childs@.to_multiset(),
            !is_dir ==> final(self).childs_of(old(self).lines().len() as int) == Seq::<
                Vec<u8>,
            >::empty(),
            forall|i: int|
                0 <= i < old(self).lines().len() ==> final(self).childs_of(i) == old(
                    self,
                ).childs_of(i),
    {
        let mut ph = Phase::Done;
        core::mem::swap(&mut ph, &mut self.phase);
        match ph {
            Phase::NeedRoot(path) => {
                let line = TreeLine::create(path, 0, is_dir);
                let it = ChildIterator::from(&line, childs);
                self.lines.push(line);
                self.child_iterators.push(it);
                self.round_end = 1;
                self.scan = 0;
                self.current_depth = 0;
                self.max_depth = 0;
                self.appended_in_round = false;
                self.rounds = Ghost(0nat);
                proof {
                    let lines = self.lines@;
                    let rp = lines[0].path@;
                    assert(rp.is_prefix_of(rp)) by {
                        assert(rp =~= rp.subrange(0, rp.len() as int));
                    }
                    assert(self.inv_core());
                    assert(self.inv_round());
                    assert(self.childs_of(0) == self.child_iterators@[0].childs());
                }
            },
            Phase::NeedChild(path, parent) => {
                let ghost pre = *old(self);
                let d0 = self.lines[parent].depth;
                proof {
                    assert(d0 as int <= parent as int);
                    assert(parent < self.lines@.len() <= 65535);
                }
                let line = TreeLine::create(path, d0 + 1, is_dir);
                let it = ChildIterator::from(&line, childs);
                let n = self.lines.len();
                let ghost its0 = self.child_iterators@;
                let pit = &mut self.child_iterators[parent];
                pit.index_last_line = n;
                self.max_depth = d0 + 1;
                self.lines.push(line);
                self.child_iterators.push(it);
                proof {
                    let lines = self.lines@;
                    let its = self.child_iterators@;
                    let nn = lines.len() as int;
                    let cp = lines[nn - 1].path@;
                    let pp = lines[parent as int].path@;
                    let rp = lines[0].path@;
                    assert(is_child_path(pp, cp));
                    assert(rp.is_prefix_of(pp));
                    assert(rp =~= cp.subrange(0, rp.len() as int)) by {
                        assert(pp =~= cp.subrange(0, pp.len() as int));
                        assert forall|m: int| 0 <= m < rp.len() implies rp[m] == cp.subrange(
                            0,
                            rp.len() as int,
                        )[m] by {
                            assert(rp[m] == pp.subrange(0, rp.len() as int)[m]);
                            assert(pp[m] == cp.subrange(0, pp.len() as int)[m]);
                        }
                    }
                    assert(rp.is_prefix_of(cp));
                    lemma_child_sep_count(pp, cp);
                    assert forall|k: int| 0 <= k < nn implies (#[trigger] its[k]).wf(
                        lines[k],
                    ) by {
                        if k != parent as int && k != nn - 1 {
                            assert(its[k] == its0[k]);
                        }
                    }
                    assert forall|k: int|
                        0 <= k < nn - 1 implies (#[trigger] its[k]).childs() == its0[k].childs()
                            && its[k].next_index() == its0[k].next_index() by {
                        if k != parent as int {
                            assert(its[k] == its0[k]);
                        }
                    }
                    assert forall|j: int| 1 <= j < nn implies exists|i: int|
                        0 <= i < j && is_child_path(lines[i].path@, (#[trigger] lines[j]).path@)
                            && lines[j].depth == lines[i].depth + 1 && (exists|k: int|
                            0 <= k < its[i].next_index() && lines[j].path@ == (#[trigger] its[
                                i
                            ].childs()[k])@) by {
                        if j < nn - 1 {
                            assert(pre.inv_core());
                            let i0 = choose|i: int|
                                0 <= i < j && is_child_path(
                                    pre.lines@[i].path@,
                                    pre.lines@[j].path@,
                                ) && pre.lines@[j].depth == pre.lines@[i].depth + 1 && (exists|
                                    k: int,
                                |
                                    0 <= k < pre.child_iterators@[i].next_index()
                                        && pre.lines@[j].path@ == (#[trigger] pre.child_iterators@[
                                        i
                                    ].childs()[k])@);
                            let k0 = choose|k: int|
                                0 <= k < pre.child_iterators@[i0].next_index()
                                    && pre.lines@[j].path@ == (#[trigger] pre.child_iterators@[
                                    i0
                                ].childs()[k])@;
                            assert(its0 == pre.child_iterators@);
                            assert(0 <= i0 < j && is_child_path(lines[i0].path@, lines[j].path@)
                                && lines[j].depth == lines[i0].depth + 1 && 0 <= k0 < its[
                                i0
                            ].next_index() && lines[j].path@ == (its[i0].childs()[k0])@);
                        } else {
                            let np = its[parent as int].next_index();
                            assert(its[parent as int].childs() == its0[
                                parent as int
                            ].childs() && np == its0[parent as int].next_index());
                            assert(lines[j].path@ == (its[parent as int].childs()[np - 1])@);
                            assert(0 <= parent as int && (parent as int) < j && is_child_path(
                                lines[parent as int].path@,
                                lines[j].path@,
                            ) && lines[j].depth == lines[parent as int].depth + 1);
                        }
                    }
                    assert forall|a: int, b: int|
                        0 <= a < b < nn implies (#[trigger] lines[a]).path@ != (#[trigger] lines[
                        b
                    ]).path@ by {
                        if b == nn - 1 {
                            assert(pre.lines@[a].path@ != cp);
                        }
                    }
                    assert(self.inv_core());
                    assert forall|j: int|
                        0 <= j < nn && (#[trigger] lines[j]).depth == self.current_depth && its[
                            j
                        ].remaining() > 0 implies its[j].next_index() == self.rounds@ + (if j
                        < self.scan {
                        1int
                    } else {
                        0int
                    }) by {
                        if j < nn - 1 && j != parent as int {
                            assert(its[j] == its0[j]);
                        }
                    }
                    assert(self.inv_round());
                    assert forall|i: int|
                        0 <= i < nn - 1 implies (#[trigger] its[i]).childs() == its0[
                        i
                    ].childs() by {
                        if i != parent as int {
                            assert(its[i] == its0[i]);
                        }
                    }
                }
            },
            Phase::Done => {
                proof {
                    assert(false);
                }
            },
        }
        self.advance();
    }

    /// Declines the child the builder just claimed (say, its stat
    /// failed): the claim is consumed, no entry is appended for it, and
    /// the scan goes on with the remaining candidates.
    #[verifier::rlimit(100)]
    pub fn skip_pending(&mut self)
        requires
            old(self).wf(),
            !old(self).is_done(),
            old(self).lines().len() > 0,
        ensures
            final(self).wf(),
            final(self).budget() == old(self).budget(),
            final(self).lines() == old(self).lines(),
            forall|i: int|
                0 <= i < old(self).lines().len() ==> final(self).last_of(i) == old(self).last_of(
                    i,
                ),
            forall|i: int|
                0 <= i < old(self).lines().len() ==> final(self).childs_of(i) == old(
                    self,
                ).childs_of(i),
    {
        self.phase = Phase::Done;
        self.advance();
    }
}

} // verus!

verus! {

/// The guarantees the final ordering gives a renderer: entries sorted by
/// path, the root first at depth 0, every path under the root's, depth
/// measured by separator count, and every deeper entry preceded (somewhere)
/// by its direct parent.
pub open spec fn shape_wf(s: Seq<TreeLine>) -> bool {
    &&& s.len() >= 1
    &&& lines_sorted(s)
    &&& s[0].depth == 0
    &&& forall|j: int| 0 <= j < s.len() ==> s[0].path@.is_prefix_of((#[trigger] s[j]).path@)
    &&& forall|j: int|
        0 <= j < s.len() ==> sep_count((#[trigger] s[j]).path@) == sep_count(s[0].path@) + s[
            j
        ].depth
    &&& forall|j: int|
        0 <= j < s.len() && (#[trigger] s[j]).depth >= 1 ==> exists|i: int|
            0 <= i < s.len() && is_child_path(s[i].path@, s[j].path@) && s[j].depth == s[i].depth
                + 1
}

impl Tree {
    pub open spec fn wf_shape(self) -> bool {
        shape_wf(self.lines@)
    }
}

spec fn prune_upto(pre: TreeBuilder, cur: Seq<TreeLine>, j: int, upto: int) -> bool {
    if exists|i: int| i < upto && pre.prunes(i, j) {
        let i = choose|i: int| i < upto && pre.prunes(i, j);
        let c = pre.unlisted(i) + 1;
        &&& cur[j].path@ == pre.lines()[j].path@
        &&& cur[j].depth == pre.lines()[j].depth
        &&& cur[j].content == LineType::Pruning(c as usize)
        &&& cur[j].name@ == pruning_label_spec(c as nat)
    } else {
        cur[j] == pre.lines()[j]
    }
}

/// Once the rewrite pass has walked all entries, the sequence stands in
/// the prune relation with the builder, the root entry is untouched,
/// and the paths are still pairwise distinct.
proof fn lemma_prune_complete(pre: TreeBuilder, mid: Seq<TreeLine>)
    requires
        pre.wf(),
        mid.len() == pre.lines@.len(),
        forall|j: int|
            0 <= j < mid.len() ==> #[trigger] prune_upto(pre, mid, j, pre.lines@.len() as int),
    ensures
        pre.prune_rel(mid),
        mid.len() > 0 ==> mid[0] == pre.lines@[0],
        line_paths_distinct(mid),
{
    let n = pre.lines@.len() as int;
    assert forall|j: int| 0 <= j < mid.len() implies #[trigger] pre.prune_target_ok(mid, j) by {
        assert(prune_upto(pre, mid, j, n));
        if exists|w: int| pre.prunes(w, j) {
            let a = choose|a: int| pre.prunes(a, j);
            assert(a < n);
            let b = choose|b: int| b < n && pre.prunes(b, j);
            assert(b == a);
        } else {
            assert(!exists|w: int| w < n && pre.prunes(w, j));
        }
    }
    assert(pre.prune_rel(mid));
    if mid.len() > 0 {
        assert(forall|w: int| !(#[trigger] pre.prunes(w, 0)));
        assert(!(exists|w: int| pre.prunes(w, 0)));
        assert(pre.prune_target_ok(mid, 0));
        assert(mid[0] == pre.lines@[0]);
    }
    assert forall|a: int, b: int|
        0 <= a < b < mid.len() implies (#[trigger] mid[a]).path@ != (#[trigger] mid[
        b
    ]).path@ by {
        assert(pre.prune_target_ok(mid, a));
        assert(pre.prune_target_ok(mid, b));
        assert(mid[a].path@ == pre.lines@[a].path@);
        assert(mid[b].path@ == pre.lines@[b].path@);
        assert(pre.lines@[a].path@ != pre.lines@[b].path@);
    }
}

proof fn lemma_shape_transfer(pre: TreeBuilder, mid: Seq<TreeLine>, fin: Seq<TreeLine>)
    requires
        pre.inv_core(),
        pre.lines@.len() >= 1,
        mid.len() == pre.lines@.len(),
        forall|j: int|
            0 <= j < mid.len() ==> (#[trigger] mid[j]).path@ == pre.lines@[j].path@ && mid[
                j
            ].depth == pre.lines@[j].depth,
        mid[0] == pre.lines@[0],
        fin.to_multiset() == mid.to_multiset(),
        fin.len() == mid.len(),
        lines_sorted(fin),
    ensures
        shape_wf(fin),
{
    broadcast use vstd::seq_lib::group_to_multiset_ensures;
    broadcast use vstd::multiset::group_multiset_axioms;

    let rp = pre.lines@[0].path@;
    assert forall|j: int| 0 <= j < fin.len() implies exists|k: int|
        0 <= k < mid.len() && mid[k] == #[trigger] fin[j] by {
        assert(fin.contains(fin[j]));
        assert(fin.to_multiset().count(fin[j]) > 0);
        assert(mid.to_multiset().count(fin[j]) > 0);
        assert(mid.contains(fin[j]));
    }
    assert forall|j: int| 0 <= j < fin.len() implies rp.is_prefix_of((#[trigger] fin[j]).path@)
        && sep_count(fin[j].path@) == sep_count(rp) + fin[j].depth && (fin[j].depth == 0 ==> fin[
        j
    ].path@ == rp) by {
        let k = choose|k: int| 0 <= k < mid.len() && mid[k] == fin[j];
        assert(pre.lines@[0].path@.is_prefix_of(pre.lines@[k].path@));
        if fin[j].depth == 0 {
            assert(k == 0 || pre.lines@[k].depth >= 1);
        }
    }
    assert(mid.contains(mid[0]));
    assert(mid.to_multiset().count(mid[0]) > 0);
    assert(fin.to_multiset().count(mid[0]) > 0);
    assert(fin.contains(mid[0]));
    let k0 = choose|k: int| 0 <= k < fin.len() && fin[k] == mid[0];
    lemma_prefix_lex_le(rp, fin[0].path@);
    if k0 > 0 {
        assert(lex_le(fin[0].path@, fin[k0].path@));
        lemma_lex_le_antisym(rp, fin[0].path@);
    }
    assert(fin[0].path@ == rp);
    assert(sep_count(fin[0].path@) == sep_count(rp) + fin[0].depth);
    assert(fin[0].depth == 0);
    assert forall|j: int| 0 <= j < fin.len() && (#[trigger] fin[j]).depth >= 1 implies exists|
        i: int,
    | 0 <= i < fin.len() && is_child_path(fin[i].path@, fin[j].path@) && fin[j].depth == fin[
        i
    ].depth + 1 by {
        let k = choose|k: int| 0 <= k < mid.len() && mid[k] == fin[j];
        assert(pre.lines@[k].depth == fin[j].depth);
        assert(k >= 1);
        let i0 = choose|i: int|
            0 <= i < k && is_child_path(pre.lines@[i].path@, pre.lines@[k].path@) && pre.lines@[
                k
            ].depth == pre.lines@[i].depth + 1 && (exists|w: int|
                0 <= w < pre.child_iterators@[i].next_index() && pre.lines@[k].path@ == (
                #[trigger] pre.child_iterators@[i].childs()[w])@);
        assert(mid[i0].path@ == pre.lines@[i0].path@);
        assert(mid.contains(mid[i0]));
        assert(mid.to_multiset().count(mid[i0]) > 0);
        assert(fin.to_multiset().count(mid[i0]) > 0);
        assert(fin.contains(mid[i0]));
        let i1 = choose|i: int| 0 <= i < fin.len() && fin[i] == mid[i0];
        assert(0 <= i1 < fin.len() && is_child_path(fin[i1].path@, fin[j].path@) && fin[j].depth
            == fin[i1].depth + 1);
    }
}

impl TreeBuilder {
    /// Finishes the build: rewrites, for every directory that still had
    /// unclaimed children, its most recently emitted child into a
    /// pruning placeholder, then orders all entries by path. The paths
    /// come out pairwise distinct, so the ordering is strictly
    /// ascending.
    #[verifier::rlimit(100)]
    pub fn build(self) -> (t: Tree)
        requires
            self.wf(),
            self.is_done(),
        ensures
            t.lines@.len() == self.lines().len(),
            1 <= t.lines@.len() <= self.budget(),
            lines_sorted(t.lines@),
            exists|mid: Seq<TreeLine>|
                #[trigger] self.prune_rel(mid) && t.lines@.to_multiset() == mid.to_multiset(),
            line_paths_distinct(t.lines@),
            t.wf_shape(),
    {
        let ghost pre = self;
        let TreeBuilder { lines, child_iterators, .. } = self;
        let mut lines = lines;
        let iters = child_iterators;
        let n = lines.len();
        let mut i: usize = 0;
        proof {
            assert(pre.inv_core());
        }
        while i < n
            invariant
                forall|k: int|
                    0 <= k < n ==> (#[trigger] pre.child_iterators@[k]).wf(pre.lines@[k]),
                forall|k: int|
                    0 <= k < n ==> (#[trigger] pre.child_iterators@[k]).last_line() == 0 || 0
                        < pre.child_iterators@[k].last_line() < n,
                forall|i1: int, i2: int|
                    0 <= i1 < n && 0 <= i2 < n && i1 != i2 && (#[trigger] pre.child_iterators@[
                        i1
                    ]).last_line() != 0 ==> pre.child_iterators@[i1].last_line() != (
                    #[trigger] pre.child_iterators@[i2]).last_line(),
                iters@ == pre.child_iterators@,
                iters@.len() == n,
                n == lines@.len(),
                n == pre.lines@.len(),
                i <= n,
                forall|j: int|
                    0 <= j < n ==> (#[trigger] lines@[j]).path@ == pre.lines@[j].path@ && lines@[
                        j
                    ].depth == pre.lines@[j].depth,
                forall|j: int| 0 <= j < n ==> #[trigger] prune_upto(pre, lines@, j, i as int),
            decreases n - i,
        {
            let last = iters[i].index_last_line;
            proof {
                assert(iters@[i as int].wf(pre.lines@[i as int]));
            }
            if last != 0 {
                let count = iters[i].nb_unlisted();
                if count > 0 {
                    proof {
                        assert(0 < last < n);
                    }
                    let c = count + 1;
                    let label = pruning_label(c);
                    let ghost cur0 = lines@;
                    let lref = &mut lines[last];
                    lref.content = LineType::Pruning(c);
                    lref.name = label;
                    proof {
                        assert(pre.prunes(i as int, last as int));
                        assert forall|j: int| 0 <= j < n implies #[trigger] prune_upto(
                            pre,
                            lines@,
                            j,
                            i as int + 1,
                        ) by {
                            if j == last as int {
                                let w = choose|w: int| w < i + 1 && pre.prunes(w, j);
                                assert(pre.prunes(i as int, j));
                                assert(w == i as int);
                            } else {
                                assert(lines@[j] == cur0[j]);
                                if exists|w: int| w < i + 1 && pre.prunes(w, j) {
                                    let w = choose|w: int| w < i + 1 && pre.prunes(w, j);
                                    assert(w != i as int);
                                    assert(w < i);
                                    let w0 = choose|w0: int| w0 < i && pre.prunes(w0, j);
                                    assert(w0 == w);
                                    assert(prune_upto(pre, cur0, j, i as int));
                                } else {
                                    assert(!exists|w: int| w < i && pre.prunes(w, j));
                                }
                            }
                        }
                    }
                } else {
                    proof {
                        assert forall|j: int| 0 <= j < n implies #[trigger] prune_upto(
                            pre,
                            lines@,
                            j,
                            i as int + 1,
                        ) by {
                            assert(!pre.prunes(i as int, j));
                            assert(prune_upto(pre, lines@, j, i as int));
                            if exists|w: int| w < i + 1 && pre.prunes(w, j) {
                                let w = choose|w: int| w < i + 1 && pre.prunes(w, j);
                                assert(w < i);
                            }
                        }
                    }
                }
            } else {
                proof {
                    assert forall|j: int| 0 <= j < n implies #[trigger] prune_upto(
                        pre,
                        lines@,
                        j,
                        i as int + 1,
                    ) by {
                        assert(!pre.prunes(i as int, j));
                        assert(prune_upto(pre, lines@, j, i as int));
                        if exists|w: int| w < i + 1 && pre.prunes(w, j) {
                            let w = choose|w: int| w < i + 1 && pre.prunes(w, j);
                            assert(w < i);
                        }
                    }
                }
            }
            i = i + 1;
        }
        let ghost mid = lines@;
        proof {
            lemma_prune_complete(pre, mid);
        }
        let sorted = sort_lines(lines);
        proof {
            lemma_shape_transfer(pre, mid, sorted@);
            lemma_line_paths_distinct_permuted(mid, sorted@);
        }
        Tree { lines: sorted }
    }
}

/// With a budget of at least one, any reachable state holds at most
/// `budget` entries; so does the finished tree.
pub proof fn lemma_budget_bound(b: TreeBuilder)
    requires
        b.wf(),
    ensures
        b.lines().len() <= b.budget(),
{
}

/// Sibling fairness: at any reachable state, two entries at the same
/// depth that both still have unclaimed children have emitted child
/// counts that differ by at most one.
pub proof fn lemma_sibling_fairness(b: TreeBuilder, i: int, j: int)
    requires
        b.wf(),
        0 <= i < b.lines().len(),
        0 <= j < b.lines().len(),
        b.lines()[i].depth == b.lines()[j].depth,
        b.unlisted(i) > 0,
        b.unlisted(j) > 0,
    ensures
        b.emitted(i) <= b.emitted(j) + 1,
        b.emitted(j) <= b.emitted(i) + 1,
{
    let d = b.lines@[i].depth;
    if d < b.current_depth {
        assert(b.child_iterators@[i].remaining() == 0);
    } else if d == b.current_depth {
        assert(b.child_iterators@[i].next_index() == b.rounds@ + (if i < b.scan {
            1int
        } else {
            0int
        }));
        assert(b.child_iterators@[j].next_index() == b.rounds@ + (if j < b.scan {
            1int
        } else {
            0int
        }));
    } else {
        assert(b.child_iterators@[i].next_index() == 0);
        assert(b.child_iterators@[j].next_index() == 0);
    }
}

/// Each directory rewrites at most its single most recent child, that
/// line is one of its own children (one level deeper), and no line is
/// rewritten on behalf of two directories.
pub proof fn lemma_prune_unique(b: TreeBuilder, i1: int, i2: int, j1: int, j2: int)
    requires
        b.wf(),
        b.prunes(i1, j1),
        b.prunes(i2, j2),
    ensures
        (i1 == i2) <==> (j1 == j2),
        is_child_path(b.lines()[i1].path@, b.lines()[j1].path@),
        b.lines()[j1].depth == b.lines()[i1].depth + 1,
{
    assert(b.child_iterators@[i1].last_line() == j1);
    assert(b.child_iterators@[i2].last_line() == j2);
}

/// When expansion stopped with the budget unspent, every directory was
/// fully listed and the pruning rewrite changes nothing.
/// The counters of entry `i` account exactly for the listing held for
/// it: unclaimed plus emitted children make up the whole listing.
pub proof fn lemma_cursor_accounting(b: TreeBuilder, i: int)
    requires
        b.wf(),
        0 <= i < b.lines().len(),
    ensures
        b.unlisted(i) == b.childs_of(i).len() - b.emitted(i),
        0 <= b.emitted(i) <= b.childs_of(i).len(),
{
}

/// Every entry the expansion appends is a real file or directory; the
/// placeholder kind enters only through the rewrite in `build`.
pub proof fn lemma_entries_real(b: TreeBuilder, j: int)
    requires
        b.wf(),
        0 <= j < b.lines().len(),
    ensures
        b.lines()[j].content is Dir || b.lines()[j].content is File,
{
}

/// A placeholder in the rewritten sequence always stands for a
/// genuinely truncated directory: one with unclaimed children left.
pub proof fn lemma_placeholder_means_truncated(b: TreeBuilder, mid: Seq<TreeLine>, j: int)
    requires
        b.wf(),
        b.prune_rel(mid),
        0 <= j < mid.len(),
        mid[j].content is Pruning,
    ensures
        exists|i: int| #[trigger] b.prunes(i, j) && b.unlisted(i) > 0,
{
    assert(b.prune_target_ok(mid, j));
    if !(exists|i: int| b.prunes(i, j)) {
        assert(mid[j] == b.lines()[j]);
        lemma_entries_real(b, j);
        assert(false);
    }
    let i = choose|i: int| b.prunes(i, j);
    assert(b.prunes(i, j) && b.unlisted(i) > 0);
}

pub proof fn lemma_exhausted_fully_listed(b: TreeBuilder, mid: Seq<TreeLine>)
    requires
        b.wf(),
        b.is_done(),
        b.lines().len() < b.budget(),
        b.prune_rel(mid),
    ensures
        forall|i: int| 0 <= i < b.lines().len() ==> b.unlisted(i) == 0,
        mid =~= b.lines(),
{
    assert forall|j: int| 0 <= j < mid.len() implies mid[j] == b.lines()[j] by {
        assert(b.prune_target_ok(mid, j));
        if exists|i: int| b.prunes(i, j) {
            let i = choose|i: int| b.prunes(i, j);
            assert(b.unlisted(i) == 0);
        }
    }
}

} // verus!
