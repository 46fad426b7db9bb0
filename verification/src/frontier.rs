//! The frontier: the set of times that are the current tips of the causal
//! graph, kept sorted ascending in a small-buffer vector.

use vstd::prelude::*;
use smallvec::SmallVec;
use crate::span::TimeSpan;
use crate::ROOT_TIME;

verus! {

/// A vector of times with inline room for two, the usual frontier size.
/// The buffer itself lives in a smallvec; Verus sees it only through
/// [`sv_elems`] and the trusted accessors below.
#[verifier::external_body]
#[derive(Debug)]
pub struct TimeVec {
    v: SmallVec<[usize; 2]>,
}

/// The elements a small vector of times holds, in order.
pub uninterp spec fn sv_elems(v: TimeVec) -> Seq<usize>;

/// Relies on smallvec's `SmallVec::new`: a freshly made vector is empty.
#[verifier::external_body]
pub(crate) fn sv_new() -> (r: TimeVec)
    ensures
        sv_elems(r) =~= Seq::<usize>::empty(),
{
    TimeVec { v: SmallVec::new() }
}

/// Relies on smallvec's `SmallVec::len`: the number of stored elements.
#[verifier::external_body]
pub(crate) fn sv_len(v: &TimeVec) -> (r: usize)
    ensures
        r == sv_elems(*v).len(),
{
    v.v.len()
}

/// Relies on smallvec's `Index` impl: the element at `i`.
#[verifier::external_body]
pub(crate) fn sv_get(v: &TimeVec, i: usize) -> (r: usize)
    requires
        i < sv_elems(*v).len(),
    ensures
        r == sv_elems(*v)[i as int],
{
    v.v[i]
}

/// Relies on smallvec's `IndexMut` impl: writes the element at `i`.
#[verifier::external_body]
pub(crate) fn sv_set(v: &mut TimeVec, i: usize, x: usize)
    requires
        i < sv_elems(*old(v)).len(),
    ensures
        sv_elems(*final(v)) =~= sv_elems(*old(v)).update(i as int, x),
{
    v.v[i] = x;
}

/// Relies on smallvec's `SmallVec::push`: appends one element.
#[verifier::external_body]
pub(crate) fn sv_push(v: &mut TimeVec, x: usize)
    ensures
        sv_elems(*final(v)) =~= sv_elems(*old(v)).push(x),
{
    v.v.push(x);
}

/// Relies on smallvec's `SmallVec::insert`: inserts at `i`, shifting the rest.
#[verifier::external_body]
pub(crate) fn sv_insert(v: &mut TimeVec, i: usize, x: usize)
    requires
        i <= sv_elems(*old(v)).len(),
    ensures
        sv_elems(*final(v)) =~= sv_elems(*old(v)).insert(i as int, x),
{
    v.v.insert(i, x);
}

/// Whether a slice of times holds `t`.
pub(crate) fn slice_contains(s: &[usize], t: usize) -> (r: bool)
    ensures
        r == s@.contains(t),
{
    let mut i: usize = 0;
    while i < s.len()
        invariant
            i <= s@.len(),
            forall|j: int| 0 <= j < i ==> s@[j] != t,
        decreases s@.len() - i,
    {
        if s[i] == t {
            return true;
        }
        i = i + 1;
    }
    false
}

/// `f` with every element of `parents` removed, order kept.
pub open spec fn remove_all(f: Seq<usize>, parents: Seq<usize>) -> Seq<usize>
    decreases f.len(),
{
    if f.len() == 0 {
        Seq::empty()
    } else {
        let rest = remove_all(f.drop_last(), parents);
        if parents.contains(f.last()) {
            rest
        } else {
            rest.push(f.last())
        }
    }
}

/// `s` with `x` inserted before the first element greater than it.
pub open spec fn insert_sorted_spec(s: Seq<usize>, x: usize) -> Seq<usize>
    decreases s.len(),
{
    if s.len() == 0 {
        seq![x]
    } else if s.last() <= x {
        s.push(x)
    } else {
        insert_sorted_spec(s.drop_last(), x).push(s.last())
    }
}

/// What advancing a frontier over a run with the given parents yields: the
/// parents leave, the run's last time enters at its sorted position.
pub open spec fn advance_spec(f: Seq<usize>, parents: Seq<usize>, span: TimeSpan) -> Seq<usize> {
    insert_sorted_spec(remove_all(f, parents), (span.end - 1) as usize)
}

pub proof fn lemma_insert_sorted_at(s: Seq<usize>, x: usize, pos: int)
    requires
        0 <= pos <= s.len(),
        forall|i: int| 0 <= i < pos ==> s[i] <= x,
        forall|i: int| pos <= i < s.len() ==> s[i] > x,
    ensures
        insert_sorted_spec(s, x) =~= s.insert(pos, x),
    decreases s.len(),
{
    if s.len() == 0 {
    } else if s.last() <= x {
        assert(pos == s.len());
    } else {
        lemma_insert_sorted_at(s.drop_last(), x, pos);
    }
}

/// Inserting a fresh element keeps a sorted sequence sorted and only adds
/// that element.
pub proof fn lemma_insert_sorted_sorted(s: Seq<usize>, x: usize)
    requires
        sorted_strict(s),
        !s.contains(x),
    ensures
        sorted_strict(insert_sorted_spec(s, x)),
        insert_sorted_spec(s, x).len() == s.len() + 1,
        insert_sorted_spec(s, x).contains(x),
        forall|t: usize| insert_sorted_spec(s, x).contains(t) <==> (s.contains(t) || t == x),
    decreases s.len(),
{
    let r = insert_sorted_spec(s, x);
    if s.len() == 0 {
        assert(r =~= seq![x]);
        assert(r[0] == x);
        assert forall|t: usize| r.contains(t) implies (s.contains(t) || t == x) by {
            let i = choose|i: int| 0 <= i < r.len() && r[i] == t;
        }
    } else if s.last() <= x {
        assert(r =~= s.push(x));
        assert forall|i: int, j: int| 0 <= i < j < r.len() implies r[i] < r[j] by {
            if j == r.len() - 1 {
                if i < s.len() - 1 {
                    assert(s[i] < s.last());
                }
                assert(r[i] == s[i]);
                if s[i] == x {
                    assert(s.contains(x));
                }
            }
        }
        assert forall|t: usize| r.contains(t) implies (s.contains(t) || t == x) by {
            let i = choose|i: int| 0 <= i < r.len() && r[i] == t;
            if i < s.len() {
                assert(s[i] == t);
            }
        }
        assert forall|t: usize| s.contains(t) implies r.contains(t) by {
            let i = choose|i: int| 0 <= i < s.len() && s[i] == t;
            assert(r[i] == t);
        }
        assert(r[s.len() as int] == x);
    } else {
        lemma_drop_last_sorted(s);
        assert forall|t: usize| s.drop_last().contains(t) implies s.contains(t) by {
            let i = choose|i: int| 0 <= i < s.drop_last().len() && s.drop_last()[i] == t;
            assert(s[i] == t);
        }
        lemma_insert_sorted_sorted(s.drop_last(), x);
        let rp = insert_sorted_spec(s.drop_last(), x);
        assert(r =~= rp.push(s.last()));
        assert forall|i: int, j: int| 0 <= i < j < r.len() implies r[i] < r[j] by {
            if j == r.len() - 1 {
                assert(r[i] == rp[i]);
                assert(rp.contains(rp[i]));
                if rp[i] == x {
                } else {
                    assert(s.drop_last().contains(rp[i]));
                    let w = choose|w: int|
                        0 <= w < s.drop_last().len() && s.drop_last()[w] == rp[i];
                    assert(s[w] < s.last());
                }
            }
        }
        assert forall|t: usize| r.contains(t) implies (s.contains(t) || t == x) by {
            let i = choose|i: int| 0 <= i < r.len() && r[i] == t;
            if i < rp.len() {
                assert(rp.contains(t));
                if t != x {
                    assert(s.drop_last().contains(t));
                    let w = choose|w: int|
                        0 <= w < s.drop_last().len() && s.drop_last()[w] == t;
                    assert(s[w] == t);
                }
            } else {
                assert(t == s.last());
                assert(s[s.len() - 1] == t);
            }
        }
        assert forall|t: usize| (s.contains(t) || t == x) implies r.contains(t) by {
            if t == x {
                assert(rp.contains(t));
                let w = choose|w: int| 0 <= w < rp.len() && rp[w] == t;
                assert(r[w] == t);
            } else {
                let i = choose|i: int| 0 <= i < s.len() && s[i] == t;
                if i < s.len() - 1 {
                    assert(s.drop_last()[i] == t);
                    assert(s.drop_last().contains(t));
                    assert(rp.contains(t));
                    let w = choose|w: int| 0 <= w < rp.len() && rp[w] == t;
                    assert(r[w] == t);
                } else {
                    assert(r[r.len() - 1] == t);
                }
            }
        }
    }
}

pub proof fn lemma_drop_last_sorted(s: Seq<usize>)
    requires
        sorted_strict(s),
        s.len() > 0,
    ensures
        sorted_strict(s.drop_last()),
{
}

/// Advancing a frontier whose elements all precede the appended run keeps
/// it a sorted set of times below the run's end.
pub proof fn lemma_advance_shape(f: Seq<usize>, parents: Seq<usize>, span: TimeSpan)
    requires
        sorted_strict(f),
        span.start < span.end,
        span.end - 1 < ROOT_TIME as int,
        forall|k: int| 0 <= k < f.len() ==> (#[trigger] f[k] as int) < span.start || f[k] == ROOT_TIME,
        f.contains(ROOT_TIME) ==> parents.contains(ROOT_TIME),
    ensures
        sorted_strict(advance_spec(f, parents, span)),
        advance_spec(f, parents, span).len() > 0,
        forall|k: int|
            0 <= k < advance_spec(f, parents, span).len() ==> (#[trigger] advance_spec(
                f,
                parents,
                span,
            )[k] as int) < span.end,
{
    let x = (span.end - 1) as usize;
    let rem = remove_all(f, parents);
    lemma_remove_all_sorted(f, parents);
    assert(!rem.contains(x)) by {
        if rem.contains(x) {
            assert(f.contains(x) && !parents.contains(x));
            let i = choose|i: int| 0 <= i < f.len() && f[i] == x;
        }
    }
    lemma_insert_sorted_sorted(rem, x);
    let r = advance_spec(f, parents, span);
    assert forall|k: int| 0 <= k < r.len() implies (#[trigger] r[k] as int) < span.end by {
        assert(r.contains(r[k]));
        if r[k] != x {
            assert(rem.contains(r[k]));
            assert(f.contains(r[k]) && !parents.contains(r[k]));
            let i = choose|i: int| 0 <= i < f.len() && f[i] == r[k];
        }
    }
}

/// A strictly ascending sequence of times.
pub open spec fn sorted_strict(s: Seq<usize>) -> bool {
    forall|i: int, j: int| 0 <= i < j < s.len() ==> s[i] < s[j]
}

pub proof fn lemma_remove_all_sorted(f: Seq<usize>, parents: Seq<usize>)
    requires
        sorted_strict(f),
    ensures
        sorted_strict(remove_all(f, parents)),
        forall|i: int|
            0 <= i < remove_all(f, parents).len() ==> f.contains(
                #[trigger] remove_all(f, parents)[i],
            ),
        forall|t: usize|
            remove_all(f, parents).contains(t) <==> (f.contains(t) && !parents.contains(t)),
    decreases f.len(),
{
    if f.len() > 0 {
        lemma_remove_all_sorted(f.drop_last(), parents);
        assert forall|t: usize| f.drop_last().contains(t) implies f.contains(t) by {
            let i = choose|i: int| 0 <= i < f.drop_last().len() && f.drop_last()[i] == t;
            assert(f[i] == t);
        }
        assert forall|t: usize|
            f.contains(t) && !parents.contains(t) implies remove_all(f, parents).contains(t) by {
            let r = remove_all(f, parents);
            let rp = remove_all(f.drop_last(), parents);
            let i = choose|i: int| 0 <= i < f.len() && f[i] == t;
            if i < f.len() - 1 {
                assert(f.drop_last()[i] == t);
                assert(f.drop_last().contains(t));
                assert(rp.contains(t));
                let w = choose|w: int| 0 <= w < rp.len() && rp[w] == t;
                if !parents.contains(f.last()) {
                    assert(r[w] == t);
                }
                assert(r.contains(t));
            } else {
                assert(f.last() == t);
                assert(r[r.len() - 1] == t);
                assert(r.contains(t));
            }
        }
        assert forall|i: int, j: int|
            0 <= i < j < remove_all(f, parents).len() implies remove_all(f, parents)[i] < remove_all(
            f,
            parents,
        )[j] by {
            let r = remove_all(f, parents);
            let rp = remove_all(f.drop_last(), parents);
            if !parents.contains(f.last()) && j == r.len() - 1 {
                assert(f.drop_last().contains(r[i]));
                let w = choose|w: int| 0 <= w < f.drop_last().len() && f.drop_last()[w] == r[i];
                assert(f[w] == r[i] && w < f.len() - 1);
            }
        }
    }
}

/// Removing an element that is not there changes nothing.
pub proof fn lemma_remove_absent(s: Seq<usize>, x: usize)
    requires
        !s.contains(x),
    ensures
        remove_all(s, seq![x]) =~= s,
    decreases s.len(),
{
    if s.len() > 0 {
        assert forall|t: usize| s.drop_last().contains(t) implies s.contains(t) by {
            let i = choose|i: int| 0 <= i < s.drop_last().len() && s.drop_last()[i] == t;
            assert(s[i] == t);
        }
        lemma_remove_absent(s.drop_last(), x);
        assert(s[s.len() - 1] == s.last());
        assert(s.contains(s.last()));
        assert(!seq![x].contains(s.last())) by {
            if seq![x].contains(s.last()) {
                assert(seq![x][0] == x);
            }
        }
    }
}

/// Removing a freshly inserted element restores the sequence.
pub proof fn lemma_remove_inserted(s: Seq<usize>, x: usize)
    requires
        sorted_strict(s),
        !s.contains(x),
    ensures
        remove_all(insert_sorted_spec(s, x), seq![x]) =~= s,
    decreases s.len(),
{
    let ins = insert_sorted_spec(s, x);
    if s.len() == 0 {
        assert(ins =~= seq![x]);
        assert(ins.len() == 1);
        assert(ins.last() == x);
        assert(ins.drop_last() =~= Seq::<usize>::empty());
        assert(seq![x].contains(ins.last())) by {
            assert(seq![x][0] == x);
        }
        assert(remove_all(ins.drop_last(), seq![x]) =~= Seq::<usize>::empty());
        assert(remove_all(ins, seq![x]) =~= Seq::<usize>::empty());
        assert(remove_all(ins, seq![x]) =~= s);
    } else if s.last() <= x {
        assert(ins =~= s.push(x));
        assert(ins.drop_last() =~= s);
        assert(ins.last() == x);
        assert(seq![x].contains(x)) by {
            assert(seq![x][0] == x);
        }
        lemma_remove_absent(s, x);
        assert(remove_all(ins.drop_last(), seq![x]) =~= s);
        assert(remove_all(ins, seq![x]) =~= s);
    } else {
        lemma_drop_last_sorted(s);
        assert forall|t: usize| s.drop_last().contains(t) implies s.contains(t) by {
            let i = choose|i: int| 0 <= i < s.drop_last().len() && s.drop_last()[i] == t;
            assert(s[i] == t);
        }
        lemma_remove_inserted(s.drop_last(), x);
        let inner = insert_sorted_spec(s.drop_last(), x);
        assert(ins =~= inner.push(s.last()));
        assert(ins.drop_last() =~= inner);
        assert(ins.last() == s.last());
        assert(s.contains(s.last())) by {
            assert(s[s.len() - 1] == s.last());
        }
        assert(!seq![x].contains(s.last())) by {
            if seq![x].contains(s.last()) {
                assert(seq![x][0] == x);
            }
        }
        assert(remove_all(ins, seq![x]) =~= s.drop_last().push(s.last()));
        assert(s.drop_last().push(s.last()) =~= s);
    }
}

/// Advancing over two back-to-back runs, the second hanging off the first's
/// last time, is advancing over their union.
pub proof fn lemma_advance_compose(f: Seq<usize>, parents: Seq<usize>, s1: TimeSpan, s2: TimeSpan)
    requires
        sorted_strict(f),
        s1.start < s1.end,
        s2.start < s2.end,
        s1.end == s2.start,
        s2.end - 1 < ROOT_TIME as int,
        forall|k: int| 0 <= k < f.len() ==> (#[trigger] f[k] as int) < s1.start || f[k] == ROOT_TIME,
        f.contains(ROOT_TIME) ==> parents.contains(ROOT_TIME),
    ensures
        advance_spec(advance_spec(f, parents, s1), seq![(s1.end - 1) as usize], s2)
            =~= advance_spec(f, parents, TimeSpan { start: s1.start, end: s2.end }),
{
    let x1 = (s1.end - 1) as usize;
    let r = remove_all(f, parents);
    lemma_remove_all_sorted(f, parents);
    assert(!r.contains(x1)) by {
        if r.contains(x1) {
            assert(f.contains(x1) && !parents.contains(x1));
            let i = choose|i: int| 0 <= i < f.len() && f[i] == x1;
        }
    }
    let f1 = insert_sorted_spec(r, x1);
    assert(advance_spec(f, parents, s1) =~= f1);
    lemma_remove_inserted(r, x1);
    assert(remove_all(f1, seq![x1]) =~= r);
    assert(advance_spec(f1, seq![x1], s2) =~= insert_sorted_spec(r, (s2.end - 1) as usize));
    assert(advance_spec(f, parents, TimeSpan { start: s1.start, end: s2.end })
        =~= insert_sorted_spec(r, (s2.end - 1) as usize));
}

/// The frontier of a replica: an antichain of times, sorted ascending.
/// A fresh log's frontier is the singleton `[ROOT_TIME]`.
#[derive(Debug)]
pub struct Frontier {
    pub v: TimeVec,
}

impl View for Frontier {
    type V = Seq<usize>;

    open spec fn view(&self) -> Seq<usize> {
        sv_elems(self.v)
    }
}

impl Frontier {
    pub open spec fn sorted(self) -> bool {
        sorted_strict(self@)
    }

    pub fn root() -> (r: Frontier)
        ensures
            r@ =~= seq![ROOT_TIME],
    {
        let mut v = sv_new();
        sv_push(&mut v, ROOT_TIME);
        Frontier { v }
    }

    pub fn len(&self) -> (r: usize)
        ensures
            r == self@.len(),
    {
        sv_len(&self.v)
    }

    pub fn get(&self, i: usize) -> (r: usize)
        requires
            i < self@.len(),
        ensures
            r == self@[i as int],
    {
        sv_get(&self.v, i)
    }

    pub fn contains_time(&self, t: usize) -> (r: bool)
        ensures
            r == self@.contains(t),
    {
        let n = sv_len(&self.v);
        let mut i: usize = 0;
        while i < n
            invariant
                n == self@.len(),
                i <= n,
                forall|j: int| 0 <= j < i ==> self@[j] != t,
            decreases n - i,
        {
            if sv_get(&self.v, i) == t {
                return true;
            }
            i = i + 1;
        }
        false
    }

    /// A frontier holding the times of a slice, in the slice's order.
    pub fn from_slice(s: &[usize]) -> (r: Frontier)
        ensures
            r@ =~= s@,
    {
        let mut v = sv_new();
        let mut i: usize = 0;
        while i < s.len()
            invariant
                i <= s@.len(),
                sv_elems(v) =~= s@.subrange(0, i as int),
            decreases s@.len() - i,
        {
            sv_push(&mut v, s[i]);
            proof {
                assert(sv_elems(v) =~= s@.subrange(0, i + 1));
            }
            i = i + 1;
        }
        proof {
            assert(s@.subrange(0, s@.len() as int) =~= s@);
        }
        Frontier { v }
    }

    /// The frontier as a plain vector of times.
    pub fn as_vec(&self) -> (r: Vec<usize>)
        ensures
            r@ =~= self@,
    {
        let n = sv_len(&self.v);
        let mut out: Vec<usize> = Vec::new();
        let mut i: usize = 0;
        while i < n
            invariant
                n == self@.len(),
                i <= n,
                out@ =~= self@.subrange(0, i as int),
            decreases n - i,
        {
            out.push(sv_get(&self.v, i));
            proof {
                assert(out@ =~= self@.subrange(0, i + 1));
            }
            i = i + 1;
        }
        out
    }

    /// Replace the single element of a singleton frontier.
    pub fn set_single(&mut self, t: usize)
        requires
            old(self)@.len() == 1,
        ensures
            final(self)@ =~= seq![t],
    {
        sv_set(&mut self.v, 0, t);
        proof {
            assert(self@ =~= seq![t]);
        }
    }

    /// Advance over a run known to come causally after `parents`: the parents
    /// leave the frontier and the run's last time joins it.
    pub fn advance_by_known_run(&mut self, parents: &[usize], span: TimeSpan)
        requires
            span.start < span.end,
            old(self).sorted(),
        ensures
            final(self)@ =~= advance_spec(old(self)@, parents@, span),
    {
        let x = span.last();
        let n = sv_len(&self.v);
        let mut out = sv_new();
        let mut i: usize = 0;
        while i < n
            invariant
                n == self@.len(),
                i <= n,
                sv_elems(out) =~= remove_all(self@.subrange(0, i as int), parents@),
            decreases n - i,
        {
            let t = sv_get(&self.v, i);
            if !slice_contains(parents, t) {
                sv_push(&mut out, t);
            }
            proof {
                assert(self@.subrange(0, i + 1).drop_last() =~= self@.subrange(0, i as int));
                assert(self@.subrange(0, i + 1).last() == self@[i as int]);
            }
            i = i + 1;
        }
        proof {
            assert(self@.subrange(0, n as int) =~= self@);
            lemma_remove_all_sorted(self@, parents@);
        }
        // Insert x at its sorted position.
        let m = sv_len(&out);
        let mut pos: usize = 0;
        while pos < m && sv_get(&out, pos) <= x
            invariant
                m == sv_elems(out).len(),
                pos <= m,
                forall|j: int| 0 <= j < pos ==> sv_elems(out)[j] <= x,
            decreases m - pos,
        {
            pos = pos + 1;
        }
        proof {
            assert forall|j: int| pos <= j < sv_elems(out).len() implies sv_elems(out)[j] > x by {
                if j > pos {
                    assert(sv_elems(out)[pos as int] < sv_elems(out)[j]);
                }
            }
            lemma_insert_sorted_at(sv_elems(out), x, pos as int);
        }
        sv_insert(&mut out, pos, x);
        self.v = out;
    }
}

} // verus!
