//! The causal graph: run-length history entries over contiguous time ranges,
//! with parent/child edges, shadows, and root-children bookkeeping.

use vstd::prelude::*;
use crate::frontier::{advance_spec, lemma_advance_compose, lemma_advance_shape, sorted_strict, Frontier, slice_contains, sv_elems};
use crate::rle::{end_of, HasLength, MergableSpan, RleEntry, RleKeyed, RleVec};
use crate::span::TimeSpan;
use crate::ROOT_TIME;

verus! {

/// One run of history: a contiguous time range, its causal parents, the
/// shadow, and index-based edges to parent and child entries.
#[derive(Debug)]
pub struct HistoryEntry {
    pub span: TimeSpan,
    pub shadow: usize,
    pub parents: Frontier,
    pub parent_indexes: Vec<usize>,
    pub child_indexes: Vec<usize>,
}

impl HistoryEntry {
    /// The last time this entry covers.
    pub fn last_time(&self) -> (r: usize)
        requires
            self.span.start < self.span.end,
        ensures
            r == self.span.spec_last(),
    {
        self.span.end - 1
    }
}

impl HasLength for HistoryEntry {
    open spec fn rle_wf(&self) -> bool {
        self.span.start <= self.span.end
    }

    open spec fn spec_len(&self) -> usize {
        (self.span.end - self.span.start) as usize
    }

    fn len(&self) -> (r: usize) {
        self.span.end - self.span.start
    }
}

impl RleKeyed for HistoryEntry {
    open spec fn spec_rle_key(&self) -> usize {
        self.span.start
    }

    fn rle_key(&self) -> (r: usize) {
        self.span.start
    }
}

impl MergableSpan for HistoryEntry {
    open spec fn spec_can_append(&self, other: &Self) -> bool {
        &&& other.span.start == self.span.end
        &&& other.parents@.len() == 1
        &&& other.parents@[0] == self.span.spec_last()
        &&& other.shadow == self.shadow
    }

    open spec fn spec_append(&self, other: &Self) -> Self {
        HistoryEntry {
            span: TimeSpan { start: self.span.start, end: other.span.end },
            shadow: self.shadow,
            parents: self.parents,
            parent_indexes: self.parent_indexes,
            child_indexes: self.child_indexes,
        }
    }

    fn can_append(&self, other: &Self) -> (r: bool) {
        other.span.start == self.span.end && other.parents.len() == 1 && self.span.end >= 1
            && other.parents.get(0) == self.span.end - 1 && other.shadow == self.shadow
    }

    fn append(&mut self, other: Self) {
        self.span.end = other.span.end;
    }
}

impl RleEntry for HistoryEntry {
    proof fn lemma_wf_shape(&self) {
    }

    proof fn lemma_append_shape(&self, other: &Self) {
    }
}

/// A plain copy of one history run: its span and its parents.
#[derive(Clone, Debug, PartialEq, Eq)]
pub struct MinimalHistoryEntry {
    pub span: TimeSpan,
    pub parents: Vec<usize>,
}

/// The whole causal graph.
#[derive(Debug)]
pub struct History {
    pub entries: RleVec<HistoryEntry>,
    pub root_child_indexes: Vec<usize>,
}

/// The frontier recomputed from scratch: advance an empty history's
/// frontier over every run in index order.
pub open spec fn slow_frontier(es: Seq<HistoryEntry>) -> Seq<usize>
    decreases es.len(),
{
    if es.len() == 0 {
        seq![ROOT_TIME]
    } else {
        advance_spec(slow_frontier(es.drop_last()), es.last().parents@, es.last().span)
    }
}

/// The parents list of an entry that sits directly above the origin.
pub open spec fn is_root_parents(p: Seq<usize>) -> bool {
    p.len() == 1 && p[0] == ROOT_TIME
}

/// A valid parents list for an entry starting at `start`: either the lone
/// ROOT sentinel, or a strictly ascending set of earlier times.
pub open spec fn parents_valid(parents: Seq<usize>, start: int) -> bool {
    &&& parents.len() > 0
    &&& (is_root_parents(parents) || (sorted_strict(parents) && forall|j: int|
        0 <= j < parents.len() ==> parents[j] < start))
}

/// The shadow the insertion algorithm computes for a run starting at `s`
/// with the given parents: while the time just below the cursor is a parent,
/// jump to the shadow of the entry containing it; a cursor on 0 means the
/// run sits above all of history, recorded as ROOT.
pub open spec fn shadow_walk(
    h: RleVec<HistoryEntry>,
    parents: Seq<usize>,
    s: int,
) -> int
    decreases s,
{
    if s >= 1 && parents.contains((s - 1) as usize) {
        let e = h.entries()[h.spec_idx(s - 1)];
        if e.shadow == ROOT_TIME {
            ROOT_TIME as int
        } else if e.shadow < s {
            shadow_walk(h, parents, e.shadow as int)
        } else {
            e.shadow as int
        }
    } else if s == 0 {
        ROOT_TIME as int
    } else {
        s
    }
}

impl History {
    /// The graph's structural invariant: entries packed; every parent earlier
    /// than its child's range and resolved to the entry that contains it;
    /// parent/child index lists mirror one another exactly; the root-children
    /// list holds exactly the entries whose parents are ROOT.
    pub open spec fn wf(self) -> bool {
        let es = self.entries.entries();
        &&& self.entries.wf()
        &&& forall|i: int| 0 <= i < es.len() ==> self.entry_wf(i)
        &&& forall|i: int, c: int|
            0 <= i < es.len() && 0 <= c < es[i].child_indexes@.len() ==> {
                let ci = #[trigger] es[i].child_indexes@[c] as int;
                &&& i < ci < es.len()
                &&& exists|j: int|
                    0 <= j < es[ci].parents@.len() && es[i].span.spec_contains(
                        #[trigger] es[ci].parents@[j] as int,
                    )
                &&& forall|c2: int| 0 <= c2 < c ==> es[i].child_indexes@[c2] != es[i].child_indexes@[c]
            }
        &&& sorted_strict(self.root_child_indexes@)
        &&& forall|j: int|
            0 <= j < self.root_child_indexes@.len() ==> {
                let i = #[trigger] self.root_child_indexes@[j] as int;
                i < es.len() && is_root_parents(es[i].parents@)
            }
        &&& forall|i: int|
            0 <= i < es.len() && is_root_parents((#[trigger] es[i].parents@))
                ==> self.root_child_indexes@.contains(i as usize)
    }

    /// The per-entry part of the invariant.
    #[verifier::opaque]
    pub open spec fn entry_wf(self, i: int) -> bool {
        let es = self.entries.entries();
        let e = es[i];
        &&& parents_valid(e.parents@, e.span.start as int)
        &&& (e.shadow == ROOT_TIME || e.shadow <= e.span.start)
        &&& if is_root_parents(e.parents@) {
            e.parent_indexes@.len() == 0
        } else {
            &&& e.parent_indexes@.len() == e.parents@.len()
            &&& forall|j: int|
                0 <= j < e.parents@.len() ==> {
                    let pi = #[trigger] e.parent_indexes@[j] as int;
                    &&& 0 <= pi < i
                    &&& es[pi].span.spec_contains(e.parents@[j] as int)
                    &&& es[pi].child_indexes@.contains(i as usize)
                }
        }
    }

    pub fn new() -> (r: History)
        ensures
            r.wf(),
            r.entries.entries().len() == 0,
            r.entries.total_end() == 0,
            r.root_child_indexes@.len() == 0,
    {
        History { entries: RleVec::new(), root_child_indexes: Vec::new() }
    }

    /// The number of times the graph covers.
    pub fn total_len(&self) -> (r: usize)
        requires
            self.entries.wf(),
        ensures
            r == self.entries.total_end(),
    {
        self.entries.total_len()
    }

    /// Append one run to the graph: extend the last entry when the run
    /// linearly continues it, otherwise create a new entry and wire the
    /// parent/child edges both ways.
    pub fn insert(&mut self, parents: &[usize], range: TimeSpan)
        requires
            old(self).wf(),
            range.start == old(self).entries.total_end(),
            range.start < range.end,
            range.end < ROOT_TIME,
            parents_valid(parents@, range.start as int),
        ensures
            final(self).wf(),
            final(self).entries.total_end() == range.end,
            final(self).inserted_shape(*old(self), parents@, range),
    {
        let ghost pre = *self;
        let n = self.entries.num_entries();
        let shadow = self.walk_shadow(parents, range);

        // Decide whether this run merges into the last entry.
        let will_merge = if n > 0 {
            proof {
                self.entries.lemma_entry_facts(n - 1);
            }
            let last = &self.entries.0[n - 1];
            parents.len() == 1 && parents[0] == last.last_time() && shadow == last.shadow
        } else {
            false
        };

        let mut parent_indexes: Vec<usize> = Vec::new();
        if !will_merge {
            // Wire up edges: the new entry's index will be n.
            if parents.len() == 1 && parents[0] == ROOT_TIME {
                self.root_child_indexes.push(n);
            } else {
                parent_indexes = self.wire_parents(parents, Ghost(range.start as int));
            }
        }

        let txn = HistoryEntry {
            span: range,
            shadow,
            parents: Frontier::from_slice(parents),
            parent_indexes,
            child_indexes: Vec::new(),
        };
        let ghost wired = *self;
        let did_merge = self.entries.push(txn);
        proof {
            assert(will_merge == did_merge);
            if did_merge {
                assert(self.entries.entries() =~= wired.entries.entries().update(
                    n - 1,
                    wired.entries.entries()[n - 1].spec_append(&txn),
                ));
                lemma_wf_merged(pre, *self);
            } else {
                lemma_wf_new(pre, *self, parents@, range, shadow);
            }
        }
    }

    /// Walk the shadow down through parent runs (the algorithm of
    /// [`shadow_walk`]), mapping a cursor that reached 0 to ROOT.
    fn walk_shadow(&self, parents: &[usize], range: TimeSpan) -> (r: usize)
        requires
            self.wf(),
            range.start == self.entries.total_end(),
            range.start < range.end,
            range.end < ROOT_TIME,
            parents_valid(parents@, range.start as int),
        ensures
            r == shadow_spec(self.entries, parents@, range.start as int),
            r == ROOT_TIME || r <= range.start,
    {
        let mut shadow: usize = range.start;
        let mut hit_root = false;
        while !hit_root && shadow >= 1 && slice_contains(parents, shadow - 1)
            invariant
                self.wf(),
                range.start == self.entries.total_end(),
                range.start < range.end,
                range.end < ROOT_TIME,
                parents_valid(parents@, range.start as int),
                !hit_root ==> shadow <= range.start,
                !hit_root ==> shadow_walk(self.entries, parents@, range.start as int)
                    == shadow_walk(self.entries, parents@, shadow as int),
                hit_root ==> shadow == ROOT_TIME && shadow_walk(
                    self.entries,
                    parents@,
                    range.start as int,
                ) == ROOT_TIME,
            decreases (if hit_root {
                0int
            } else {
                shadow + 1
            }),
        {
            proof {
                reveal(History::entry_wf);
                self.entries.lemma_idx(shadow - 1);
                assert(self.entry_wf(self.entries.spec_idx(shadow - 1)));
            }
            let (e, _off) = self.entries.find_packed_with_offset(shadow - 1);
            if e.shadow == ROOT_TIME {
                hit_root = true;
                shadow = ROOT_TIME;
            } else {
                shadow = e.shadow;
            }
        }
        if shadow == 0 {
            shadow = ROOT_TIME;
        }
        shadow
    }

    /// Record the new entry (index `n`) as a child of each entry containing
    /// one of its parents, and resolve each parent to its entry index.
    #[verifier::rlimit(100)]
    #[verifier::spinoff_prover]
    fn wire_parents(&mut self, parents: &[usize], Ghost(start): Ghost<int>) -> (pidx: Vec<usize>)
        requires
            old(self).wf(),
            parents_valid(parents@, start),
            !is_root_parents(parents@),
            start <= old(self).entries.total_end(),
        ensures
            final(self).root_child_indexes@ == old(self).root_child_indexes@,
            final(self).entries.entries().len() == old(self).entries.entries().len(),
            final(self).entries.wf(),
            final(self).entries.total_end() == old(self).entries.total_end(),
            forall|x: int|
                0 <= x < old(self).entries.entries().len() ==> unchanged_but_children(
                    old(self).entries.entries()[x],
                    #[trigger] final(self).entries.entries()[x],
                ),
            forall|x: int|
                0 <= x < old(self).entries.entries().len() ==> (#[trigger] final(self).entries.entries()[x]).child_indexes@ == (if pidx@.contains(x as usize) {
                    old(self).entries.entries()[x].child_indexes@.push(
                        old(self).entries.entries().len() as usize,
                    )
                } else {
                    old(self).entries.entries()[x].child_indexes@
                }),
            pidx@.len() == parents@.len(),
            forall|jj: int|
                0 <= jj < parents@.len() ==> #[trigger] pidx@[jj] == old(self).entries.spec_idx(
                    parents@[jj] as int,
                ),
    {
        let ghost orig = *self;
        let n = self.entries.num_entries();
        proof {
            assert forall|x: int, c: int|
                0 <= x < n && 0 <= c < orig.entries.entries()[x].child_indexes@.len() implies ((
            #[trigger] orig.entries.entries()[x].child_indexes@[c]) as int) < n by {}
        }
        let mut parent_indexes: Vec<usize> = Vec::new();
        let mut j: usize = 0;
        while j < parents.len()
            invariant
                orig.entries.wf(),
                parents_valid(parents@, start),
                !is_root_parents(parents@),
                start <= orig.entries.total_end(),
                j <= parents@.len(),
                n == orig.entries.entries().len(),
                self.root_child_indexes@ == orig.root_child_indexes@,
                self.entries.entries().len() == n,
                parent_indexes@.len() == j,
                self.entries.wf(),
                self.entries.total_end() == orig.entries.total_end(),
                forall|x: int, c: int|
                    0 <= x < n && 0 <= c < orig.entries.entries()[x].child_indexes@.len() ==> ((
                    #[trigger] orig.entries.entries()[x].child_indexes@[c]) as int) < n,
                forall|x: int|
                    0 <= x < n ==> unchanged_but_children(
                        orig.entries.entries()[x],
                        #[trigger] self.entries.entries()[x],
                    ),
                forall|x: int|
                    0 <= x < n ==> (#[trigger] self.entries.entries()[x]).child_indexes@ == (
                    if parent_indexes@.contains(x as usize) {
                        orig.entries.entries()[x].child_indexes@.push(n)
                    } else {
                        orig.entries.entries()[x].child_indexes@
                    }),
                forall|jj: int|
                    0 <= jj < j ==> #[trigger] parent_indexes@[jj] == orig.entries.spec_idx(
                        parents@[jj] as int,
                    ),
            decreases parents@.len() - j,
        {
            let ghost pre_iter = *self;
            let ghost pidx_pre = parent_indexes@;
            let p = parents[j];
            proof {
                assert(parents@[j as int] < start);
            }
            let idx = self.wire_one(p, n, Ghost(orig));
            parent_indexes.push(idx);
            proof {
                assert forall|x: int| 0 <= x < n implies (
                #[trigger] self.entries.entries()[x]).child_indexes@ == (
                if parent_indexes@.contains(x as usize) {
                    orig.entries.entries()[x].child_indexes@.push(n)
                } else {
                    orig.entries.entries()[x].child_indexes@
                }) by {
                    if x == idx {
                        assert(parent_indexes@[j as int] == idx as usize);
                        assert(parent_indexes@.contains(x as usize));
                    } else {
                        if parent_indexes@.contains(x as usize) {
                            let w = choose|w: int|
                                0 <= w < parent_indexes@.len() && parent_indexes@[w]
                                    == x as usize;
                            assert(w < j);
                            assert(pidx_pre[w] == x as usize);
                            assert(pidx_pre.contains(x as usize));
                        } else {
                            if pidx_pre.contains(x as usize) {
                                let w = choose|w: int|
                                    0 <= w < pidx_pre.len() && pidx_pre[w] == x as usize;
                                assert(parent_indexes@[w] == x as usize);
                                assert(parent_indexes@.contains(x as usize));
                            }
                        }
                    }
                }
            }
            j = j + 1;
        }
        parent_indexes
    }

    /// Make entry `idx` (the one containing time `p`) list `n` among its
    /// children, once.
    #[verifier::rlimit(100)]
    #[verifier::spinoff_prover]
    fn wire_one(&mut self, p: usize, n: usize, Ghost(orig): Ghost<History>) -> (idx: usize)
        requires
            orig.entries.wf(),
            n == orig.entries.entries().len(),
            old(self).entries.entries().len() == n,
            old(self).entries.wf(),
            old(self).entries.total_end() == orig.entries.total_end(),
            p < orig.entries.total_end(),
            forall|x: int, c: int|
                0 <= x < n && 0 <= c < orig.entries.entries()[x].child_indexes@.len() ==> ((
                #[trigger] orig.entries.entries()[x].child_indexes@[c]) as int) < n,
            forall|x: int|
                0 <= x < n ==> unchanged_but_children(
                    orig.entries.entries()[x],
                    #[trigger] old(self).entries.entries()[x],
                ),
            forall|x: int|
                0 <= x < n ==> ((#[trigger] old(self).entries.entries()[x]).child_indexes@
                    == orig.entries.entries()[x].child_indexes@ || old(self).entries.entries()[
                    x
                ].child_indexes@ == orig.entries.entries()[x].child_indexes@.push(n as usize)),
        ensures
            idx == orig.entries.spec_idx(p as int),
            0 <= idx < n,
            final(self).root_child_indexes@ == old(self).root_child_indexes@,
            final(self).entries.entries().len() == n,
            final(self).entries.wf(),
            final(self).entries.total_end() == old(self).entries.total_end(),
            forall|x: int|
                0 <= x < n ==> unchanged_but_children(
                    orig.entries.entries()[x],
                    #[trigger] final(self).entries.entries()[x],
                ),
            forall|x: int|
                0 <= x < n && x != idx ==> (#[trigger] final(self).entries.entries()[
                    x
                ]).child_indexes@ == old(self).entries.entries()[x].child_indexes@,
            final(self).entries.entries()[idx as int].child_indexes@ == orig.entries.entries()[
                idx as int
            ].child_indexes@.push(n as usize),
    {
        let ghost pre = *self;
        proof {
            orig.entries.lemma_idx(p as int);
            self.entries.lemma_idx(p as int);
            lemma_same_idx(orig.entries, self.entries, p as int);
        }
        let idx = self.entries.find_index(p).unwrap();
        let ghost ocl = orig.entries.entries()[idx as int].child_indexes@;
        proof {
            if ocl.contains(n) {
                let c = choose|c: int| 0 <= c < ocl.len() && ocl[c] == n;
                assert((ocl[c] as int) < n);
                assert(false);
            }
        }
        let already = contains_usize(&self.entries.0[idx].child_indexes, n);
        if already {
            proof {
                assert(pre.entries.entries()[idx as int].child_indexes@ == ocl.push(n));
            }
        } else {
            let mut e = self.entries.0.remove(idx);
            e.child_indexes.push(n);
            self.entries.0.insert(idx, e);
            proof {
                assert(self.entries.0@ =~= pre.entries.0@.update(
                    idx as int,
                    self.entries.0@[idx as int],
                ));
                assert(ocl.push(n)[ocl.len() as int] == n);
                assert(pre.entries.entries()[idx as int].child_indexes@ == ocl);
                assert(self.entries.entries()[idx as int].child_indexes@ == ocl.push(n));
            }
        }
        proof {
            assert forall|x: int| 0 <= x < n implies (#[trigger] self.entries.entries()[x]).span
                == pre.entries.entries()[x].span by {}
            lemma_wf_same_spans(pre.entries, self.entries);
        }
        idx
    }

    /// What `insert` did, stated over the old and new graph.
    pub open spec fn inserted_shape(
        self,
        old_h: History,
        parents: Seq<usize>,
        range: TimeSpan,
    ) -> bool {
        let sh = shadow_spec(old_h.entries, parents, range.start as int);
        let es = self.entries.entries();
        let old_es = old_h.entries.entries();
        let n = old_es.len() as int;
        if spec_will_merge(old_h.entries, parents, sh, range) {
            &&& es.len() == n
            &&& es[n - 1].span == TimeSpan { start: old_es[n - 1].span.start, end: range.end }
            &&& es[n - 1].shadow == old_es[n - 1].shadow
            &&& es[n - 1].parents@ == old_es[n - 1].parents@
            &&& es[n - 1].parent_indexes@ == old_es[n - 1].parent_indexes@
            &&& es[n - 1].child_indexes@ == old_es[n - 1].child_indexes@
            &&& forall|i: int| 0 <= i < n - 1 ==> es[i] == old_es[i]
            &&& self.root_child_indexes@ == old_h.root_child_indexes@
        } else {
            &&& es.len() == n + 1
            &&& es[n].span == range
            &&& es[n].shadow == sh
            &&& es[n].parents@ =~= parents
            &&& es[n].child_indexes@.len() == 0
            &&& forall|i: int| 0 <= i < n ==> unchanged_but_children(old_es[i], #[trigger] es[i])
            &&& self.root_child_indexes@ == (if is_root_parents(parents) {
                old_h.root_child_indexes@.push(n as usize)
            } else {
                old_h.root_child_indexes@
            })
        }
    }
}

/// The shadow `insert` stores: the walk's result, with a cursor that reached
/// 0 recorded as ROOT.
pub open spec fn shadow_spec(h: RleVec<HistoryEntry>, parents: Seq<usize>, s: int) -> usize {
    let w = shadow_walk(h, parents, s);
    if w == 0 {
        ROOT_TIME
    } else {
        w as usize
    }
}

/// Whether a run with this shadow merges into the last entry.
pub open spec fn spec_will_merge(
    h: RleVec<HistoryEntry>,
    parents: Seq<usize>,
    sh: usize,
    range: TimeSpan,
) -> bool {
    let es = h.entries();
    es.len() > 0 && parents.len() == 1 && parents[0] == es[es.len() - 1].span.spec_last()
        && sh == es[es.len() - 1].shadow
}

/// Everything of an entry but its child list.
pub open spec fn unchanged_but_children(a: HistoryEntry, b: HistoryEntry) -> bool {
    &&& a.span == b.span
    &&& a.shadow == b.shadow
    &&& a.parents@ == b.parents@
    &&& a.parent_indexes@ == b.parent_indexes@
}

/// The relation between a graph and its state after the last entry's span
/// was extended in place.
pub open spec fn merged_shape(pre: History, post: History) -> bool {
    let n = pre.entries.entries().len() as int;
    let l = post.entries.entries()[n - 1];
    let lo = pre.entries.entries()[n - 1];
    &&& pre.entries.entries().len() > 0
    &&& post.entries.entries().len() == n
    &&& post.root_child_indexes@ == pre.root_child_indexes@
    &&& forall|i: int|
        0 <= i < n - 1 ==> #[trigger] post.entries.entries()[i] == pre.entries.entries()[i]
    &&& l.span.start == lo.span.start
    &&& l.span.end >= lo.span.end
    &&& l.shadow == lo.shadow
    &&& l.parents@ == lo.parents@
    &&& l.parent_indexes@ == lo.parent_indexes@
    &&& l.child_indexes@ == lo.child_indexes@
    &&& pre.entries.total_end() <= post.entries.total_end()
}

/// Extending the last entry's span preserves the graph invariant.
#[verifier::rlimit(100)]
#[verifier::spinoff_prover]
pub proof fn lemma_wf_merged(pre: History, post: History)
    requires
        pre.wf(),
        post.entries.wf(),
        merged_shape(pre, post),
    ensures
        post.wf(),
{
    lemma_wf_merged_entries(pre, post);
    let n = pre.entries.entries().len() as int;
    let es = post.entries.entries();
    assert forall|i: int, c: int|
        0 <= i < es.len() && 0 <= c < es[i].child_indexes@.len() implies {
        let ci = #[trigger] es[i].child_indexes@[c] as int;
        &&& i < ci < es.len()
        &&& exists|j: int|
            0 <= j < es[ci].parents@.len() && es[i].span.spec_contains(
                #[trigger] es[ci].parents@[j] as int,
            )
        &&& forall|c2: int| 0 <= c2 < c ==> es[i].child_indexes@[c2] != es[i].child_indexes@[c]
    } by {
        assert(pre.entries.entries()[i].child_indexes@ == es[i].child_indexes@);
        let ci = es[i].child_indexes@[c] as int;
        let j = choose|j: int|
            0 <= j < pre.entries.entries()[ci].parents@.len() && pre.entries.entries()[
                i
            ].span.spec_contains(#[trigger] pre.entries.entries()[ci].parents@[j] as int);
        assert(es[ci].parents@ == pre.entries.entries()[ci].parents@);
        assert(pre.entries.entries()[i].span.spec_contains(es[ci].parents@[j] as int));
        assert(es[i].span.spec_contains(es[ci].parents@[j] as int));
    }
    assert forall|i: int|
        0 <= i < es.len() && is_root_parents((#[trigger] es[i].parents@)) implies post
        .root_child_indexes@.contains(i as usize) by {
        assert(is_root_parents(pre.entries.entries()[i].parents@));
    }
}

#[verifier::rlimit(100)]
#[verifier::spinoff_prover]
proof fn lemma_wf_merged_entries(pre: History, post: History)
    requires
        pre.wf(),
        post.entries.wf(),
        merged_shape(pre, post),
    ensures
        forall|i: int| 0 <= i < post.entries.entries().len() ==> post.entry_wf(i),
{
    reveal(History::entry_wf);
    let n = pre.entries.entries().len() as int;
    let es = post.entries.entries();
    assert forall|i: int| 0 <= i < es.len() implies post.entry_wf(i) by {
        assert(pre.entry_wf(i));
        let e = es[i];
        let eo = pre.entries.entries()[i];
        if !is_root_parents(e.parents@) {
            assert forall|j: int| 0 <= j < e.parents@.len() implies {
                let pi = #[trigger] e.parent_indexes@[j] as int;
                &&& 0 <= pi < i
                &&& es[pi].span.spec_contains(e.parents@[j] as int)
                &&& es[pi].child_indexes@.contains(i as usize)
            } by {
                let pi = eo.parent_indexes@[j] as int;
                assert(e.span.start == eo.span.start);
                if pi < n - 1 {
                    assert(es[pi] == pre.entries.entries()[pi]);
                }
            }
        }
    }
}

/// The relation between a graph and its state after a fresh entry for
/// `range` (shadow `sh`, the given parents) was appended and wired in.
pub open spec fn new_shape(
    pre: History,
    post: History,
    parents: Seq<usize>,
    range: TimeSpan,
    sh: usize,
) -> bool {
    let n = pre.entries.entries().len() as int;
    let e = post.entries.entries()[n];
    &&& n <= usize::MAX
    &&& parents_valid(parents, range.start as int)
    &&& range.start == pre.entries.total_end()
    &&& range.start < range.end
    &&& (sh == ROOT_TIME || sh <= range.start)
    &&& post.entries.entries().len() == n + 1
    &&& e.span == range
    &&& e.shadow == sh
    &&& e.parents@ =~= parents
    &&& e.child_indexes@.len() == 0
    &&& if is_root_parents(parents) {
        e.parent_indexes@.len() == 0
    } else {
        e.parent_indexes@.len() == parents.len() && forall|j: int|
            0 <= j < parents.len() ==> #[trigger] e.parent_indexes@[j] == pre.entries.spec_idx(
                parents[j] as int,
            )
    }
    &&& forall|x: int|
        0 <= x < n ==> unchanged_but_children(
            pre.entries.entries()[x],
            #[trigger] post.entries.entries()[x],
        )
    &&& forall|x: int|
        0 <= x < n ==> (#[trigger] post.entries.entries()[x]).child_indexes@ == (if
        e.parent_indexes@.contains(x as usize) {
            pre.entries.entries()[x].child_indexes@.push(n as usize)
        } else {
            pre.entries.entries()[x].child_indexes@
        })
    &&& post.root_child_indexes@ == (if is_root_parents(parents) {
        pre.root_child_indexes@.push(n as usize)
    } else {
        pre.root_child_indexes@
    })
}

/// Appending a fresh, correctly wired entry preserves the graph invariant.
#[verifier::rlimit(100)]
#[verifier::spinoff_prover]
pub proof fn lemma_wf_new(
    pre: History,
    post: History,
    parents: Seq<usize>,
    range: TimeSpan,
    sh: usize,
)
    requires
        pre.wf(),
        post.entries.wf(),
        new_shape(pre, post, parents, range, sh),
    ensures
        post.wf(),
{
    lemma_wf_new_entries(pre, post, parents, range, sh);
    lemma_wf_new_children(pre, post, parents, range, sh);
    lemma_wf_new_root(pre, post, parents, range, sh);
    let es = post.entries.entries();
    assert forall|i: int, c: int|
        0 <= i < es.len() && 0 <= c < es[i].child_indexes@.len() implies {
        let ci = #[trigger] es[i].child_indexes@[c] as int;
        &&& i < ci < es.len()
        &&& exists|j: int|
            0 <= j < es[ci].parents@.len() && es[i].span.spec_contains(
                #[trigger] es[ci].parents@[j] as int,
            )
        &&& forall|c2: int| 0 <= c2 < c ==> es[i].child_indexes@[c2] != es[i].child_indexes@[c]
    } by {
        assert(child_link_ok(post, i, c));
    }
}

#[verifier::rlimit(100)]
#[verifier::spinoff_prover]
proof fn lemma_wf_new_entries(
    pre: History,
    post: History,
    parents: Seq<usize>,
    range: TimeSpan,
    sh: usize,
)
    requires
        pre.wf(),
        post.entries.wf(),
        new_shape(pre, post, parents, range, sh),
    ensures
        forall|i: int| 0 <= i < post.entries.entries().len() ==> post.entry_wf(i),
{
    reveal(History::entry_wf);
    let n = pre.entries.entries().len() as int;
    let es = post.entries.entries();
    assert forall|i: int| 0 <= i < es.len() implies post.entry_wf(i) by {
        if i < n {
            assert(pre.entry_wf(i));
            let e = es[i];
            let eo = pre.entries.entries()[i];
            if !is_root_parents(e.parents@) {
                assert forall|j: int| 0 <= j < e.parents@.len() implies {
                    let pi = #[trigger] e.parent_indexes@[j] as int;
                    &&& 0 <= pi < i
                    &&& es[pi].span.spec_contains(e.parents@[j] as int)
                    &&& es[pi].child_indexes@.contains(i as usize)
                } by {
                    let pi = eo.parent_indexes@[j] as int;
                    let pcl = pre.entries.entries()[pi].child_indexes@;
                    assert(pcl.contains(i as usize));
                    let w = choose|w: int| 0 <= w < pcl.len() && pcl[w] == i as usize;
                    assert(es[pi].child_indexes@[w] == i as usize);
                }
            }
        } else {
            let e = es[n];
            if !is_root_parents(parents) {
                assert forall|j: int| 0 <= j < e.parents@.len() implies {
                    let pi = #[trigger] e.parent_indexes@[j] as int;
                    &&& 0 <= pi < n
                    &&& es[pi].span.spec_contains(e.parents@[j] as int)
                    &&& es[pi].child_indexes@.contains(n as usize)
                } by {
                    let pi = e.parent_indexes@[j] as int;
                    assert(e.parents@[j] == parents[j]);
                    assert(pi == pre.entries.spec_idx(parents[j] as int));
                    pre.entries.lemma_idx(parents[j] as int);
                    assert(e.parent_indexes@.contains(pi as usize));
                    assert(es[pi].child_indexes@ == pre.entries.entries()[
                        pi
                    ].child_indexes@.push(n as usize));
                    assert(es[pi].child_indexes@[es[pi].child_indexes@.len() - 1] == n as usize);
                }
            }
        }
    }
}

/// The conditions `wf` puts on the `c`-th child link of entry `i`.
pub open spec fn child_link_ok(h: History, i: int, c: int) -> bool {
    let es = h.entries.entries();
    let ci = es[i].child_indexes@[c] as int;
    &&& i < ci < es.len()
    &&& exists|j: int|
        0 <= j < es[ci].parents@.len() && es[i].span.spec_contains(
            #[trigger] es[ci].parents@[j] as int,
        )
    &&& forall|c2: int| 0 <= c2 < c ==> es[i].child_indexes@[c2] != es[i].child_indexes@[c]
}

#[verifier::rlimit(100)]
#[verifier::spinoff_prover]
proof fn lemma_wf_new_children(
    pre: History,
    post: History,
    parents: Seq<usize>,
    range: TimeSpan,
    sh: usize,
)
    requires
        pre.wf(),
        post.entries.wf(),
        new_shape(pre, post, parents, range, sh),
    ensures
        forall|i: int, c: int|
            0 <= i < post.entries.entries().len() && 0 <= c < post.entries.entries()[
                i
            ].child_indexes@.len() ==> child_link_ok(post, i, c),
{
    let n = pre.entries.entries().len() as int;
    let es = post.entries.entries();
    assert forall|i: int, c: int|
        0 <= i < es.len() && 0 <= c < es[i].child_indexes@.len() implies {
        let ci = #[trigger] es[i].child_indexes@[c] as int;
        &&& i < ci < es.len()
        &&& exists|j: int|
            0 <= j < es[ci].parents@.len() && es[i].span.spec_contains(
                #[trigger] es[ci].parents@[j] as int,
            )
        &&& forall|c2: int| 0 <= c2 < c ==> es[i].child_indexes@[c2] != es[i].child_indexes@[c]
    } by {
        assert(i < n);
        let eo = pre.entries.entries()[i];
        if c < eo.child_indexes@.len() {
            let ci = eo.child_indexes@[c] as int;
            assert(es[i].child_indexes@[c] == eo.child_indexes@[c]);
            let j = choose|j: int|
                0 <= j < pre.entries.entries()[ci].parents@.len() && pre.entries.entries()[
                    i
                ].span.spec_contains(#[trigger] pre.entries.entries()[ci].parents@[j] as int);
            assert(es[ci].parents@ == pre.entries.entries()[ci].parents@);
            assert(pre.entries.entries()[i].span.spec_contains(es[ci].parents@[j] as int));
            assert(es[i].span.spec_contains(es[ci].parents@[j] as int));
            assert forall|c2: int| 0 <= c2 < c implies es[i].child_indexes@[c2] != es[
                i
            ].child_indexes@[c] by {
                assert(es[i].child_indexes@[c2] == eo.child_indexes@[c2]);
            }
        } else {
            assert(es[i].child_indexes@[c] == n as usize);
            assert(!is_root_parents(parents));
            assert(es[n].parent_indexes@.contains(i as usize));
            let jj = choose|jj: int|
                0 <= jj < es[n].parent_indexes@.len() && es[n].parent_indexes@[jj]
                    == i as usize;
            assert(es[n].parent_indexes@[jj] == pre.entries.spec_idx(parents[jj] as int));
            pre.entries.lemma_idx(parents[jj] as int);
            assert(es[n].parents@[jj] == parents[jj]);
            assert(es[i].span == pre.entries.entries()[i].span);
            assert(pre.entries.entries()[i].rle_wf());
            assert(end_of(pre.entries.entries()[i]) == pre.entries.entries()[i].span.end);
            assert(pre.entries.entries()[i].span.spec_contains(parents[jj] as int));
            assert(es[i].span.spec_contains(es[n].parents@[jj] as int));
            assert forall|c2: int| 0 <= c2 < c implies es[i].child_indexes@[c2] != es[
                i
            ].child_indexes@[c] by {
                assert(es[i].child_indexes@[c2] == eo.child_indexes@[c2]);
                assert((eo.child_indexes@[c2] as int) < n);
            }
        }
    }
}

#[verifier::rlimit(100)]
#[verifier::spinoff_prover]
proof fn lemma_wf_new_root(
    pre: History,
    post: History,
    parents: Seq<usize>,
    range: TimeSpan,
    sh: usize,
)
    requires
        pre.wf(),
        post.entries.wf(),
        new_shape(pre, post, parents, range, sh),
    ensures
        sorted_strict(post.root_child_indexes@),
        forall|j: int|
            0 <= j < post.root_child_indexes@.len() ==> {
                let i = #[trigger] post.root_child_indexes@[j] as int;
                i < post.entries.entries().len() && is_root_parents(
                    post.entries.entries()[i].parents@,
                )
            },
        forall|i: int|
            0 <= i < post.entries.entries().len() && is_root_parents(
                (#[trigger] post.entries.entries()[i].parents@),
            ) ==> post.root_child_indexes@.contains(i as usize),
{
    let n = pre.entries.entries().len() as int;
    let es = post.entries.entries();
    assert forall|j: int| 0 <= j < post.root_child_indexes@.len() implies {
        let i = #[trigger] post.root_child_indexes@[j] as int;
        i < es.len() && is_root_parents(es[i].parents@)
    } by {
        if j < pre.root_child_indexes@.len() {
            assert(post.root_child_indexes@[j] == pre.root_child_indexes@[j]);
            let i = pre.root_child_indexes@[j] as int;
            assert(is_root_parents(pre.entries.entries()[i].parents@));
            assert(es[i].parents@ == pre.entries.entries()[i].parents@);
        } else {
            assert(is_root_parents(parents));
            assert(post.root_child_indexes@[j] == n as usize);
            assert(es[n].parents@ =~= parents);
        }
    }
    assert forall|j: int, k: int|
        0 <= j < k < post.root_child_indexes@.len() implies post.root_child_indexes@[j]
        < post.root_child_indexes@[k] by {
        if k < pre.root_child_indexes@.len() {
            assert(post.root_child_indexes@[j] == pre.root_child_indexes@[j]);
            assert(post.root_child_indexes@[k] == pre.root_child_indexes@[k]);
        } else {
            assert(is_root_parents(parents));
            assert(post.root_child_indexes@[k] == n as usize);
            assert(post.root_child_indexes@[j] == pre.root_child_indexes@[j]);
            assert((pre.root_child_indexes@[j] as int) < n);
        }
    }
    assert forall|i: int|
        0 <= i < es.len() && is_root_parents((#[trigger] es[i].parents@)) implies post
        .root_child_indexes@.contains(i as usize) by {
        if i < n {
            assert(es[i].parents@ == pre.entries.entries()[i].parents@);
            assert(is_root_parents(pre.entries.entries()[i].parents@));
            assert(pre.root_child_indexes@.contains(i as usize));
            let w = choose|w: int|
                0 <= w < pre.root_child_indexes@.len() && pre.root_child_indexes@[w]
                    == i as usize;
            assert(post.root_child_indexes@[w] == i as usize);
        } else {
            assert(es[n].parents@ =~= parents);
            assert(is_root_parents(parents));
            assert(post.root_child_indexes@[post.root_child_indexes@.len() - 1] == n as usize);
        }
    }
}

/// A packed vector stays well formed when entries keep their spans.
pub proof fn lemma_wf_same_spans(a: RleVec<HistoryEntry>, b: RleVec<HistoryEntry>)
    requires
        a.wf(),
        a.entries().len() == b.entries().len(),
        forall|i: int|
            0 <= i < a.entries().len() ==> (#[trigger] b.entries()[i]).span == a.entries()[i].span,
    ensures
        b.wf(),
        b.total_end() == a.total_end(),
{
    reveal(RleVec::wf);
}

/// Two packed vectors that cover `k` with equal prefixes resolve `k` to the
/// same index.
proof fn lemma_same_idx(a: RleVec<HistoryEntry>, b: RleVec<HistoryEntry>, k: int)
    requires
        a.wf(),
        b.wf(),
        0 <= k < a.total_end(),
        a.entries().len() == b.entries().len(),
        forall|i: int|
            0 <= i < a.entries().len() ==> (#[trigger] b.entries()[i]).span == a.entries()[i].span,
    ensures
        b.spec_idx(k) == a.spec_idx(k),
        b.total_end() == a.total_end(),
{
    a.lemma_idx(k);
    assert(b.total_end() == a.total_end());
    b.lemma_idx(k);
    assert(a.spec_covers(a.spec_idx(k), k));
    assert(b.spec_covers(a.spec_idx(k), k));
}

/// Whether a vector of indexes holds `x`.
fn contains_usize(v: &Vec<usize>, x: usize) -> (r: bool)
    ensures
        r == v@.contains(x),
{
    let mut i: usize = 0;
    while i < v.len()
        invariant
            i <= v@.len(),
            forall|j: int| 0 <= j < i ==> v@[j] != x,
        decreases v@.len() - i,
    {
        if v[i] == x {
            return true;
        }
        i = i + 1;
    }
    false
}

/// The slow walk over a well-formed prefix yields a sorted, non-empty set
/// of times below the prefix's end; ROOT appears only before any entry.
#[verifier::rlimit(100)]
pub proof fn lemma_slow_props(h: History, i: int)
    requires
        h.wf(),
        h.entries.total_end() < ROOT_TIME,
        0 <= i <= h.entries.entries().len(),
    ensures
        ({
            let f = slow_frontier(h.entries.entries().subrange(0, i));
            &&& sorted_strict(f)
            &&& f.len() > 0
            &&& (i == 0 ==> f =~= seq![ROOT_TIME])
            &&& (i > 0 ==> (forall|k: int|
                0 <= k < f.len() ==> (#[trigger] f[k] as int) < h.entries.entries()[
                    i - 1
                ].span.end) && !f.contains(ROOT_TIME))
        }),
    decreases i,
{
    reveal(History::entry_wf);
    let es = h.entries.entries();
    if i == 0 {
        assert(es.subrange(0, 0) =~= Seq::<HistoryEntry>::empty());
        let f = slow_frontier(es.subrange(0, 0));
        assert(f =~= seq![ROOT_TIME]);
        assert(f[0] == ROOT_TIME);
    } else {
        lemma_slow_props(h, i - 1);
        let prefix = es.subrange(0, i - 1);
        let cur = es.subrange(0, i);
        assert(cur.drop_last() =~= prefix);
        assert(cur.last() == es[i - 1]);
        let fp = slow_frontier(prefix);
        let e = es[i - 1];
        h.entries.lemma_entry_facts(i - 1);
        assert(h.entry_wf(i - 1));
        if i - 1 > 0 {
            h.entries.lemma_adjacent(i - 1);
            h.entries.lemma_entry_facts(i - 2);
            assert(es[i - 1].span.start == es[i - 2].span.end);
        } else {
            assert(e.span.start == 0);
            if !is_root_parents(e.parents@) {
                assert(e.parents@.len() > 0);
                assert((e.parents@[0] as int) < 0);
            }
        }
        assert forall|k: int|
            0 <= k < fp.len() implies (#[trigger] fp[k] as int) < e.span.start || fp[k]
            == ROOT_TIME by {
            if i - 1 == 0 {
                assert(fp[k] == ROOT_TIME);
            }
        }
        assert(fp.contains(ROOT_TIME) ==> e.parents@.contains(ROOT_TIME)) by {
            if fp.contains(ROOT_TIME) {
                if i - 1 > 0 {
                    let w = choose|w: int| 0 <= w < fp.len() && fp[w] == ROOT_TIME;
                    assert(false);
                } else {
                    assert(is_root_parents(e.parents@));
                    assert(e.parents@[0] == ROOT_TIME);
                }
            }
        }
        lemma_advance_shape(fp, e.parents@, e.span);
        let f = slow_frontier(cur);
        assert(f =~= advance_spec(fp, e.parents@, e.span));
        assert forall|k: int| 0 <= k < f.len() implies (#[trigger] f[k] as int)
            < e.span.end by {}
        assert(!f.contains(ROOT_TIME)) by {
            if f.contains(ROOT_TIME) {
                let w = choose|w: int| 0 <= w < f.len() && f[w] == ROOT_TIME;
                assert((f[w] as int) < e.span.end);
                assert(e.span.end <= h.entries.total_end());
            }
        }
    }
}

/// Inserting one run moves the slow walk exactly one `advance_spec` step.
#[verifier::rlimit(100)]
#[verifier::spinoff_prover]
pub proof fn lemma_slow_after_insert(
    pre: History,
    post: History,
    parents: Seq<usize>,
    range: TimeSpan,
)
    requires
        pre.wf(),
        pre.entries.total_end() < ROOT_TIME,
        range.start == pre.entries.total_end(),
        range.start < range.end,
        range.end < ROOT_TIME,
        parents_valid(parents, range.start as int),
        post.inserted_shape(pre, parents, range),
    ensures
        slow_frontier(post.entries.entries()) =~= advance_spec(
            slow_frontier(pre.entries.entries()),
            parents,
            range,
        ),
{
    reveal(History::entry_wf);
    let es = pre.entries.entries();
    let ns = post.entries.entries();
    let n = es.len() as int;
    let sh = shadow_spec(pre.entries, parents, range.start as int);
    if spec_will_merge(pre.entries, parents, sh, range) {
        // The last entry was extended in place.
        let prefix = es.subrange(0, n - 1);
        assert(ns.len() == n);
        assert(ns.subrange(0, n - 1) =~= prefix);
        assert(ns.drop_last() =~= prefix);
        assert(es.drop_last() =~= prefix);
        let old_last = es[n - 1];
        let new_last = ns[n - 1];
        pre.entries.lemma_entry_facts(n - 1);
        assert(pre.entry_wf(n - 1));
        assert(old_last.span.end == range.start) by {
            assert(end_of(old_last) == pre.entries.total_end());
        }
        lemma_slow_props(pre, n - 1);
        let fp = slow_frontier(prefix);
        if n - 1 > 0 {
            pre.entries.lemma_adjacent(n - 1);
            pre.entries.lemma_entry_facts(n - 2);
        } else {
            assert(old_last.span.start == 0);
            if !is_root_parents(old_last.parents@) {
                assert(old_last.parents@.len() > 0);
                assert((old_last.parents@[0] as int) < 0);
            }
        }
        assert forall|k: int|
            0 <= k < fp.len() implies (#[trigger] fp[k] as int) < old_last.span.start || fp[k]
            == ROOT_TIME by {
            if n - 1 == 0 {
                assert(fp[k] == ROOT_TIME);
            } else {
                assert((fp[k] as int) < es[n - 2].span.end);
            }
        }
        assert(fp.contains(ROOT_TIME) ==> old_last.parents@.contains(ROOT_TIME)) by {
            if fp.contains(ROOT_TIME) {
                if n - 1 > 0 {
                    let w = choose|w: int| 0 <= w < fp.len() && fp[w] == ROOT_TIME;
                    assert(false);
                } else {
                    assert(is_root_parents(old_last.parents@));
                    assert(old_last.parents@[0] == ROOT_TIME);
                }
            }
        }
        lemma_advance_compose(fp, old_last.parents@, old_last.span, range);
        assert(slow_frontier(es) =~= advance_spec(fp, old_last.parents@, old_last.span));
        assert(new_last.span == TimeSpan { start: old_last.span.start, end: range.end });
        assert(new_last.parents@ == old_last.parents@);
        assert(slow_frontier(ns) =~= advance_spec(fp, old_last.parents@, new_last.span));
        assert(parents =~= seq![(old_last.span.end - 1) as usize]) by {
            assert(parents.len() == 1);
            assert(parents[0] == old_last.span.spec_last());
        }
    } else {
        // A fresh entry was appended; the wiring touched only child lists,
        // which the slow walk never reads.
        assert(ns.len() == n + 1);
        assert(ns.drop_last().len() == n);
        assert forall|k: int|
            0 <= k < n implies (#[trigger] ns.drop_last()[k]).span == es[k].span
            && ns.drop_last()[k].parents@ == es[k].parents@ by {
            assert(unchanged_but_children(es[k], ns[k]));
        }
        lemma_slow_same(es, ns.drop_last());
        assert(ns.last() == ns[n]);
        assert(ns[n].span == range);
        assert(ns[n].parents@ =~= parents);
        assert(slow_frontier(ns) =~= advance_spec(
            slow_frontier(ns.drop_last()),
            ns[n].parents@,
            range,
        ));
    }
}

/// The slow walk reads only spans and parents.
pub proof fn lemma_slow_same(a: Seq<HistoryEntry>, b: Seq<HistoryEntry>)
    requires
        a.len() == b.len(),
        forall|k: int|
            0 <= k < a.len() ==> (#[trigger] b[k]).span == a[k].span && b[k].parents@
                == a[k].parents@,
    ensures
        slow_frontier(a) =~= slow_frontier(b),
    decreases a.len(),
{
    if a.len() > 0 {
        assert forall|k: int|
            0 <= k < a.drop_last().len() implies (#[trigger] b.drop_last()[k]).span
            == a.drop_last()[k].span && b.drop_last()[k].parents@
            == a.drop_last()[k].parents@ by {
            assert(b[k].span == a[k].span && b[k].parents@ == a[k].parents@);
        }
        lemma_slow_same(a.drop_last(), b.drop_last());
        assert(b.last().span == a.last().span && b.last().parents@ == a.last().parents@) by {
            assert(b[a.len() - 1].span == a[a.len() - 1].span);
        }
    }
}

} // verus!
