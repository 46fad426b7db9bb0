//! Run-length encoded entries and the sorted vector that stores them.
//!
//! An entry covers the half-open key range `[key, key + len)`. The vector
//! keeps entries packed (each entry starts where the previous one ended) and
//! merges an appended entry into the last one when the two are compatible.

use vstd::prelude::*;
use crate::span::TimeSpan;

verus! {

/// A value with a run length measured in atomic units.
pub trait HasLength {
    /// Internal validity of the value (spans do not run backwards, etc.).
    spec fn rle_wf(&self) -> bool;

    spec fn spec_len(&self) -> usize;

    fn len(&self) -> (r: usize)
        requires
            self.rle_wf(),
        ensures
            r == self.spec_len(),
    ;
}

/// A value that knows the key at which its run starts.
pub trait RleKeyed {
    spec fn spec_rle_key(&self) -> usize;

    fn rle_key(&self) -> (r: usize)
        ensures
            r == self.spec_rle_key(),
    ;
}

/// Derived helpers over a keyed, length-bearing value.
pub trait RleSpanHelpers: RleKeyed + HasLength {
    fn end(&self) -> (r: usize)
        requires
            self.rle_wf(),
            self.spec_rle_key() + self.spec_len() <= usize::MAX,
        ensures
            r == self.spec_rle_key() + self.spec_len(),
    {
        self.rle_key() + self.len()
    }

    fn span(&self) -> (r: TimeSpan)
        requires
            self.rle_wf(),
            self.spec_rle_key() + self.spec_len() <= usize::MAX,
        ensures
            r.start == self.spec_rle_key(),
            r.end == self.spec_rle_key() + self.spec_len(),
    {
        let start = self.rle_key();
        TimeSpan { start, end: start + self.len() }
    }
}

impl<V: RleKeyed + HasLength> RleSpanHelpers for V {}

/// A value whose run can absorb a compatible following run.
pub trait MergableSpan: HasLength + Sized {
    spec fn spec_can_append(&self, other: &Self) -> bool;

    spec fn spec_append(&self, other: &Self) -> Self;

    fn can_append(&self, other: &Self) -> (r: bool)
        requires
            self.rle_wf(),
            other.rle_wf(),
        ensures
            r == self.spec_can_append(other),
    ;

    fn append(&mut self, other: Self)
        requires
            old(self).rle_wf(),
            other.rle_wf(),
            old(self).spec_can_append(&other),
        ensures
            *final(self) == old(self).spec_append(&other),
    ;
}

/// A value whose run can be cut in two at a unit boundary.
pub trait SplitableSpan: HasLength + Sized {
    /// The first `at` units.
    spec fn spec_left(&self, at: int) -> Self;

    /// The units from `at` on.
    spec fn spec_right(&self, at: int) -> Self;

    /// Keep the first `at` units in place; return the rest.
    fn truncate(&mut self, at: usize) -> (r: Self)
        requires
            old(self).rle_wf(),
            0 < at < old(self).spec_len(),
        ensures
            *final(self) == old(self).spec_left(at as int),
            r == old(self).spec_right(at as int),
            final(self).rle_wf(),
            r.rle_wf(),
            final(self).spec_len() == at,
            r.spec_len() == old(self).spec_len() - at,
    ;

    /// Keep the units from `at` on in place; return the first `at`.
    fn truncate_keeping_right(&mut self, at: usize) -> (r: Self)
        requires
            old(self).rle_wf(),
            0 < at < old(self).spec_len(),
        ensures
            *final(self) == old(self).spec_right(at as int),
            r == old(self).spec_left(at as int),
            final(self).rle_wf(),
            r.rle_wf(),
            final(self).spec_len() == old(self).spec_len() - at,
            r.spec_len() == at,
    ;
}

/// The laws an entry type must obey for `RleVec` to keep its shape.
pub trait RleEntry: RleKeyed + MergableSpan {
    proof fn lemma_wf_shape(&self)
        requires
            self.rle_wf(),
        ensures
            self.spec_rle_key() + self.spec_len() <= usize::MAX,
    ;

    proof fn lemma_append_shape(&self, other: &Self)
        requires
            self.rle_wf(),
            other.rle_wf(),
            self.spec_can_append(other),
        ensures
            self.spec_append(other).rle_wf(),
            self.spec_append(other).spec_rle_key() == self.spec_rle_key(),
            self.spec_append(other).spec_len() == self.spec_len() + other.spec_len(),
            other.spec_rle_key() == self.spec_rle_key() + self.spec_len(),
    ;
}

/// The merge laws for a plain (un-keyed) run value.
pub trait MergeLaws: MergableSpan {
    proof fn lemma_value_append(&self, other: &Self)
        requires
            self.rle_wf(),
            other.rle_wf(),
            self.spec_can_append(other),
        ensures
            self.spec_append(other).rle_wf(),
            self.spec_append(other).spec_len() == self.spec_len() + other.spec_len(),
    ;
}

/// A key/value pair acting as a run starting at the key.
#[derive(Clone, Copy, Debug, PartialEq, Eq)]
pub struct KVPair<V>(pub usize, pub V);

impl<V: HasLength> HasLength for KVPair<V> {
    open spec fn rle_wf(&self) -> bool {
        self.1.rle_wf() && self.0 + self.1.spec_len() <= usize::MAX
    }

    open spec fn spec_len(&self) -> usize {
        self.1.spec_len()
    }

    fn len(&self) -> (r: usize) {
        self.1.len()
    }
}

impl<V: HasLength> RleKeyed for KVPair<V> {
    open spec fn spec_rle_key(&self) -> usize {
        self.0
    }

    fn rle_key(&self) -> (r: usize) {
        self.0
    }
}

impl<V: MergableSpan> MergableSpan for KVPair<V> {
    open spec fn spec_can_append(&self, other: &Self) -> bool {
        other.0 == self.0 + self.1.spec_len() && self.1.spec_can_append(&other.1)
    }

    open spec fn spec_append(&self, other: &Self) -> Self {
        KVPair(self.0, self.1.spec_append(&other.1))
    }

    fn can_append(&self, other: &Self) -> (r: bool) {
        other.0 == self.0 + self.1.len() && self.1.can_append(&other.1)
    }

    fn append(&mut self, other: Self) {
        self.1.append(other.1);
    }
}

impl<V: SplitableSpan> SplitableSpan for KVPair<V> {
    open spec fn spec_left(&self, at: int) -> Self {
        KVPair(self.0, self.1.spec_left(at))
    }

    open spec fn spec_right(&self, at: int) -> Self {
        KVPair((self.0 + at) as usize, self.1.spec_right(at))
    }

    fn truncate(&mut self, at: usize) -> (r: Self) {
        let remainder = self.1.truncate(at);
        KVPair(self.0 + at, remainder)
    }

    fn truncate_keeping_right(&mut self, at: usize) -> (r: Self) {
        let old_key = self.0;
        self.0 = self.0 + at;
        let trimmed = self.1.truncate_keeping_right(at);
        KVPair(old_key, trimmed)
    }
}

impl<V: MergeLaws> RleEntry for KVPair<V> {
    proof fn lemma_wf_shape(&self) {
    }

    proof fn lemma_append_shape(&self, other: &Self) {
        self.1.lemma_value_append(&other.1);
    }
}

/// The key one past the end of an entry's run.
pub open spec fn end_of<V: RleKeyed + HasLength>(e: V) -> int {
    e.spec_rle_key() + e.spec_len()
}

/// A vector of packed runs: each entry starts where the previous ended, the
/// first at key 0. An appended entry merges into the last in place when the
/// two are compatible.
#[derive(Clone, Debug)]
pub struct RleVec<V>(pub Vec<V>);

impl<V: RleEntry> RleVec<V> {
    pub open spec fn entries(self) -> Seq<V> {
        self.0@
    }

    #[verifier::opaque]
    pub open spec fn wf(self) -> bool {
        &&& forall|i: int|
            0 <= i < self.0@.len() ==> (#[trigger] self.0@[i]).rle_wf() && self.0@[i].spec_len()
                > 0
        &&& forall|i: int|
            0 <= i < self.0@.len() ==> (#[trigger] self.0@[i]).spec_rle_key() == if i == 0 {
                0int
            } else {
                end_of(self.0@[i - 1])
            }
    }

    /// One past the largest covered key.
    pub open spec fn total_end(self) -> int {
        if self.0@.len() == 0 {
            0
        } else {
            end_of(self.0@[self.0@.len() - 1])
        }
    }

    pub open spec fn spec_covers(self, i: int, k: int) -> bool {
        self.0@[i].spec_rle_key() <= k < end_of(self.0@[i])
    }

    /// The index of the entry whose run covers `k`.
    pub open spec fn spec_idx(self, k: int) -> int {
        choose|i: int| 0 <= i < self.0@.len() && self.spec_covers(i, k)
    }

    pub proof fn lemma_order(self, i: int, j: int)
        requires
            self.wf(),
            0 <= i <= j < self.0@.len(),
        ensures
            end_of(self.0@[i]) <= end_of(self.0@[j]),
            self.0@[i].spec_rle_key() <= self.0@[j].spec_rle_key(),
            i < j ==> end_of(self.0@[i]) <= self.0@[j].spec_rle_key(),
            self.0@[j].spec_rle_key() >= 0,
        decreases j - i,
    {
        reveal(RleVec::wf);
        if i < j {
            self.lemma_order(i, j - 1);
        } else {
            self.lemma_order_low(i);
        }
    }

    pub proof fn lemma_order_low(self, i: int)
        requires
            self.wf(),
            0 <= i < self.0@.len(),
        ensures
            self.0@[i].spec_rle_key() >= 0,
        decreases i,
    {
        reveal(RleVec::wf);
        if i > 0 {
            self.lemma_order_low(i - 1);
        }
    }

    /// All pairwise ordering facts at once.
    pub proof fn lemma_all(self)
        requires
            self.wf(),
        ensures
            forall|i: int, j: int|
                #![trigger self.0@[i], self.0@[j]]
                0 <= i < j < self.0@.len() ==> end_of(self.0@[i]) <= self.0@[j].spec_rle_key(),
            forall|i: int| 0 <= i < self.0@.len() ==> (#[trigger] self.0@[i]).spec_rle_key() >= 0,
    {
        assert forall|i: int, j: int|
            #![trigger self.0@[i], self.0@[j]]
            0 <= i < j < self.0@.len() implies end_of(self.0@[i]) <= self.0@[j].spec_rle_key() by {
            self.lemma_order(i, j);
        }
        assert forall|i: int| 0 <= i < self.0@.len() implies (
        #[trigger] self.0@[i]).spec_rle_key() >= 0 by {
            self.lemma_order_low(i);
        }
    }

    /// The per-entry facts `wf` gives.
    pub proof fn lemma_entry_facts(self, i: int)
        requires
            self.wf(),
            0 <= i < self.0@.len(),
        ensures
            self.0@[i].rle_wf(),
            self.0@[i].spec_len() > 0,
            0 <= self.0@[i].spec_rle_key(),
            end_of(self.0@[i]) <= self.total_end(),
            i == 0 ==> self.0@[i].spec_rle_key() == 0,
            i == self.0@.len() - 1 ==> end_of(self.0@[i]) == self.total_end(),
    {
        reveal(RleVec::wf);
        self.lemma_order(i, self.0@.len() - 1);
    }

    /// Adjacent entries meet exactly.
    pub proof fn lemma_adjacent(self, i: int)
        requires
            self.wf(),
            1 <= i < self.0@.len(),
        ensures
            self.0@[i].spec_rle_key() == end_of(self.0@[i - 1]),
    {
        reveal(RleVec::wf);
    }

    /// Every key below `total_end` is covered by exactly one entry.
    pub proof fn lemma_idx(self, k: int)
        requires
            self.wf(),
            0 <= k < self.total_end(),
        ensures
            0 <= self.spec_idx(k) < self.0@.len(),
            self.spec_covers(self.spec_idx(k), k),
            self.0@[self.spec_idx(k)].rle_wf(),
            self.0@[self.spec_idx(k)].spec_len() > 0,
            forall|i: int|
                0 <= i < self.0@.len() && self.spec_covers(i, k) ==> i == self.spec_idx(k),
    {
        reveal(RleVec::wf);
        self.lemma_idx_exists(k, self.0@.len() - 1);
        let w = choose|i: int| 0 <= i < self.0@.len() && self.spec_covers(i, k);
        assert forall|i: int|
            0 <= i < self.0@.len() && self.spec_covers(i, k) implies i == self.spec_idx(k) by {
            if i != w {
                if i < w {
                    self.lemma_order(i, w);
                } else {
                    self.lemma_order(w, i);
                }
            }
            if i < self.spec_idx(k) {
                self.lemma_order(i, self.spec_idx(k));
            } else if i > self.spec_idx(k) {
                self.lemma_order(self.spec_idx(k), i);
            }
        }
    }

    proof fn lemma_idx_exists(self, k: int, hi: int)
        requires
            self.wf(),
            0 <= hi < self.0@.len(),
            0 <= k < end_of(self.0@[hi]),
        ensures
            exists|i: int| 0 <= i < self.0@.len() && self.spec_covers(i, k),
        decreases hi,
    {
        reveal(RleVec::wf);
        if k >= self.0@[hi].spec_rle_key() {
            assert(self.spec_covers(hi, k));
        } else {
            self.lemma_idx_exists(k, hi - 1);
        }
    }

    pub fn new() -> (r: RleVec<V>)
        ensures
            r.wf(),
            r.0@.len() == 0,
            r.total_end() == 0,
    {
        proof {
            reveal(RleVec::wf);
        }
        RleVec(Vec::new())
    }

    pub fn num_entries(&self) -> (r: usize)
        ensures
            r == self.0@.len(),
    {
        self.0.len()
    }

    pub fn is_empty(&self) -> (r: bool)
        ensures
            r == (self.0@.len() == 0),
    {
        self.0.len() == 0
    }

    /// One past the largest covered key.
    pub fn total_len(&self) -> (r: usize)
        requires
            self.wf(),
        ensures
            r == self.total_end(),
    {
        if self.0.len() == 0 {
            0
        } else {
            proof {
                reveal(RleVec::wf);
            }
            let last = &self.0[self.0.len() - 1];
            proof {
                last.lemma_wf_shape();
            }
            last.rle_key() + last.len()
        }
    }

    /// The index of the entry covering `k`, or `None` when `k` is past the end.
    #[verifier::rlimit(50)]
    pub fn find_index(&self, k: usize) -> (r: Option<usize>)
        requires
            self.wf(),
        ensures
            match r {
                Some(i) => 0 <= i < self.0@.len() && self.spec_covers(i as int, k as int) && i
                    == self.spec_idx(k as int),
                None => k >= self.total_end(),
            },
    {
        proof {
            reveal(RleVec::wf);
        }
        let mut lo: usize = 0;
        let mut hi: usize = self.0.len();
        while lo < hi
            invariant
                self.wf(),
                lo <= hi <= self.0@.len(),
                forall|i: int| 0 <= i < lo ==> (#[trigger] self.0@[i]).spec_rle_key() <= k,
                forall|i: int| hi <= i < self.0@.len() ==> (#[trigger] self.0@[i]).spec_rle_key() > k,
            decreases hi - lo,
        {
            proof {
                reveal(RleVec::wf);
                self.lemma_all();
            }
            let mid = lo + (hi - lo) / 2;
            if self.0[mid].rle_key() <= k {
                lo = mid + 1;
            } else {
                hi = mid;
            }
        }
        proof {
            reveal(RleVec::wf);
            self.lemma_all();
        }
        if lo == 0 {
            proof {
                if self.0@.len() > 0 {
                    assert(self.0@[0].spec_rle_key() > k);
                    assert(self.0@[0].spec_rle_key() == 0);
                }
            }
            None
        } else {
            let cand = lo - 1;
            let e = &self.0[cand];
            proof {
                e.lemma_wf_shape();
            }
            if k < e.rle_key() + e.len() {
                proof {
                    self.lemma_idx(k as int);
                }
                Some(cand)
            } else {
                proof {
                    if cand + 1 < self.0@.len() {
                        assert(self.0@[cand + 1].spec_rle_key() > k);
                        assert(self.0@[cand + 1].spec_rle_key() == end_of(self.0@[cand as int]));
                    }
                }
                None
            }
        }
    }

    /// The entry covering `k` and the offset of `k` within it.
    pub fn find_packed_with_offset(&self, k: usize) -> (r: (&V, usize))
        requires
            self.wf(),
            k < self.total_end(),
        ensures
            *r.0 == self.0@[self.spec_idx(k as int)],
            r.1 == k - r.0.spec_rle_key(),
            r.0.spec_rle_key() <= k < end_of(*r.0),
    {
        proof {
            self.lemma_idx(k as int);
        }
        let idx = self.find_index(k).unwrap();
        let e = &self.0[idx];
        (e, k - e.rle_key())
    }

    /// The entry covering `k` (with its offset), or `None` past the end.
    #[verifier::rlimit(50)]
    pub fn find_with_offset(&self, k: usize) -> (r: Option<(&V, usize)>)
        requires
            self.wf(),
        ensures
            match r {
                Some(p) => k < self.total_end() && *p.0 == self.0@[self.spec_idx(k as int)] && p.1
                    == k - p.0.spec_rle_key() && p.0.spec_rle_key() <= k < end_of(*p.0),
                None => k >= self.total_end(),
            },
    {
        match self.find_index(k) {
            Some(idx) => {
                proof {
                    self.lemma_order(idx as int, self.0@.len() - 1);
                }
                let e = &self.0[idx];
                Some((e, k - e.rle_key()))
            },
            None => None,
        }
    }

    pub fn last(&self) -> (r: Option<&V>)
        ensures
            match r {
                Some(e) => self.0@.len() > 0 && *e == self.0@[self.0@.len() - 1],
                None => self.0@.len() == 0,
            },
    {
        if self.0.len() == 0 {
            None
        } else {
            Some(&self.0[self.0.len() - 1])
        }
    }

    /// Append a run; merge it into the last entry when compatible. Returns
    /// whether a merge happened.
    pub fn push(&mut self, e: V) -> (merged: bool)
        requires
            old(self).wf(),
            e.rle_wf(),
            e.spec_len() > 0,
            e.spec_rle_key() == old(self).total_end(),
        ensures
            merged == (old(self).0@.len() > 0 && old(self).0@[old(self).0@.len()
                - 1].spec_can_append(&e)),
            merged ==> final(self).0@ =~= old(self).0@.update(
                old(self).0@.len() - 1,
                old(self).0@[old(self).0@.len() - 1].spec_append(&e),
            ),
            !merged ==> final(self).0@ =~= old(self).0@.push(e),
            final(self).wf(),
            final(self).total_end() == old(self).total_end() + e.spec_len(),
            final(self).0@.len() >= old(self).0@.len(),
    {
        proof {
            reveal(RleVec::wf);
        }
        let n = self.0.len();
        if n > 0 {
            let last = &self.0[n - 1];
            if last.can_append(&e) {
                proof {
                    self.0@[n - 1].lemma_append_shape(&e);
                }
                let mut owned = self.0.pop().unwrap();
                owned.append(e);
                self.0.push(owned);
                proof {
                    reveal(RleVec::wf);
                }
                return true;
            }
        }
        proof {
            reveal(RleVec::wf);
            if n > 0 {
                self.0@[n - 1].lemma_wf_shape();
            }
        }
        self.0.push(e);
        false
    }
}

/// Growing a packed vector (more entries, or a longer last run) does not
/// change how earlier keys resolve.
pub proof fn lemma_idx_stable<V: RleEntry>(a: RleVec<V>, b: RleVec<V>, k: int)
    requires
        a.wf(),
        b.wf(),
        0 <= k < a.total_end(),
        a.total_end() <= b.total_end(),
        a.entries().len() <= b.entries().len(),
        forall|i: int|
            0 <= i < a.entries().len() ==> (#[trigger] b.entries()[i]).spec_rle_key()
                == a.entries()[i].spec_rle_key() && end_of(b.entries()[i]) >= end_of(
                a.entries()[i],
            ),
    ensures
        b.spec_idx(k) == a.spec_idx(k),
{
    a.lemma_idx(k);
    b.lemma_idx(k);
    let ia = a.spec_idx(k);
    assert(b.spec_covers(ia, k));
}

/// What the entry list looks like after an append-with-merge.
pub open spec fn rlv_push_spec<V: RleEntry>(s: Seq<V>, e: V) -> Seq<V> {
    if s.len() > 0 && s[s.len() - 1].spec_can_append(&e) {
        s.update(s.len() - 1, s[s.len() - 1].spec_append(&e))
    } else {
        s.push(e)
    }
}

/// Trim `x` to the part of its run inside `target_span`; `None` when the two
/// do not overlap.
pub fn try_trim<V: RleKeyed + SplitableSpan>(x: V, target_span: TimeSpan) -> (r: Option<V>)
    requires
        x.rle_wf(),
        x.spec_len() > 0,
        x.spec_rle_key() + x.spec_len() <= usize::MAX,
        target_span.start < target_span.end,
    ensures
        ({
            let ks = x.spec_rle_key() as int;
            let ke = end_of(x);
            let lo = if ks < target_span.start { target_span.start as int } else { ks };
            let hi = if ke > target_span.end { target_span.end as int } else { ke };
            match r {
                Some(v) => lo < hi && v == clip(x, lo - ks, hi - ks),
                None => lo >= hi,
            }
        }),
{
    let ghost x0 = x;
    let ks = x.rle_key();
    let len = x.len();
    let ke = ks + len;
    if ks >= target_span.end || ke <= target_span.start {
        return None;
    }
    let ghost a = if (ks as int) < target_span.start {
        target_span.start - ks
    } else {
        0int
    };
    let ghost b = if (ke as int) > target_span.end {
        target_span.end - ks
    } else {
        len as int
    };
    let mut x = x;
    let mut cut_front: usize = 0;
    if ks < target_span.start {
        cut_front = target_span.start - ks;
        x.truncate_keeping_right(cut_front);
        proof {
            assert(x == x0.spec_right(a));
        }
    }
    if ke > target_span.end {
        let keep = target_span.end - ks - cut_front;
        x.truncate(keep);
        proof {
            if a > 0 {
                assert(x == x0.spec_right(a).spec_left(b - a));
            } else {
                assert(x == x0.spec_left(b));
            }
        }
    }
    proof {
        assert(x == clip(x0, a, b));
    }
    Some(x)
}

/// The units `[lo, hi)` of `x`, counted from the start of its run.
pub open spec fn clip<V: RleKeyed + SplitableSpan>(x: V, lo: int, hi: int) -> V {
    let tail = if lo > 0 {
        x.spec_right(lo)
    } else {
        x
    };
    if hi - lo < x.spec_len() - lo {
        tail.spec_left(hi - lo)
    } else {
        tail
    }
}

/// Like `try_trim`, for callers that know the two runs overlap.
pub fn trim<V: RleKeyed + SplitableSpan>(val: V, span: TimeSpan) -> (r: V)
    requires
        val.rle_wf(),
        val.spec_len() > 0,
        val.spec_rle_key() + val.spec_len() <= usize::MAX,
        span.start < span.end,
        ({
            let ks = val.spec_rle_key() as int;
            let ke = end_of(val);
            let lo = if ks < span.start { span.start as int } else { ks };
            let hi = if ke > span.end { span.end as int } else { ke };
            lo < hi
        }),
    ensures
        ({
            let ks = val.spec_rle_key() as int;
            let ke = end_of(val);
            let lo = if ks < span.start { span.start as int } else { ks };
            let hi = if ke > span.end { span.end as int } else { ke };
            r == clip(val, lo - ks, hi - ks)
        }),
{
    try_trim(val, span).unwrap()
}

} // verus!
