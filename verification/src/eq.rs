//! Structural equivalence of two logs that may have recorded the same
//! history in different orders under different agent numbering.

use vstd::prelude::*;
use crate::agent::{an_as_str, an_eq_str, name_chars, ClientData};
use crate::frontier::insert_sorted_spec;
use crate::history::History;
use crate::operation::InsDelTag;
use crate::oplog::OpLog;
use crate::rle::{HasLength, RleKeyed};

use crate::ROOT_TIME;

verus! {

/// The first agent with this name, if any.
pub open spec fn name_idx(cds: Seq<ClientData>, name: Seq<char>) -> Option<int>
    decreases cds.len(),
{
    if cds.len() == 0 {
        None
    } else if name_chars(cds[0].name) == name {
        Some(0int)
    } else {
        match name_idx(cds.subrange(1, cds.len() as int), name) {
            Some(j) => Some(j + 1),
            None => None,
        }
    }
}

pub proof fn lemma_name_idx(cds: Seq<ClientData>, name: Seq<char>)
    ensures
        match name_idx(cds, name) {
            Some(j) => 0 <= j < cds.len() && name_chars(cds[j].name) == name && forall|k: int|
                0 <= k < j ==> name_chars((#[trigger] cds[k]).name) != name,
            None => forall|k: int|
                0 <= k < cds.len() ==> name_chars((#[trigger] cds[k]).name) != name,
        },
    decreases cds.len(),
{
    if cds.len() > 0 {
        if name_chars(cds[0].name) == name {
        } else {
            let rest = cds.subrange(1, cds.len() as int);
            lemma_name_idx(rest, name);
            match name_idx(rest, name) {
                Some(j) => {
                    assert(rest[j] == cds[j + 1]);
                    assert forall|k: int|
                        0 <= k < j + 1 implies name_chars((#[trigger] cds[k]).name) != name by {
                        if k >= 1 {
                            assert(rest[k - 1] == cds[k]);
                        }
                    }
                },
                None => {
                    assert forall|k: int|
                        0 <= k < cds.len() implies name_chars((#[trigger] cds[k]).name)
                        != name by {
                        if k >= 1 {
                            assert(rest[k - 1] == cds[k]);
                        }
                    }
                },
            }
        }
    }
}

/// The first agent of `b` named like agent `ag` of `a`, if any.
pub open spec fn agent_image(a: OpLog, b: OpLog, ag: int) -> Option<int> {
    name_idx(b.client_data@, name_chars(a.client_data@[ag].name))
}

/// Agent tables match: every agent of `a` either is named in `b` with the
/// same number of used sequence numbers, or has used none.
pub open spec fn agent_match(a: OpLog, b: OpLog, ag: int) -> bool {
    match agent_image(a, b, ag) {
        Some(bg) => b.next_seq_of(bg) == a.next_seq_of(ag),
        None => a.next_seq_of(ag) == 0,
    }
}

/// Where time `t` of `a` lives in `b`: through the agent name and the
/// agent-local sequence number.
pub open spec fn map_time(a: OpLog, b: OpLog, t: int) -> Option<usize> {
    match agent_image(a, b, a.agent_at(t)) {
        Some(bg) => if a.seq_at(t) < b.next_seq_of(bg) {
            Some(b.time_at(bg, a.seq_at(t)) as usize)
        } else {
            None
        },
        None => None,
    }
}

/// The sorted elements of `s`.
pub open spec fn sort_spec(s: Seq<usize>) -> Seq<usize>
    decreases s.len(),
{
    if s.len() == 0 {
        Seq::empty()
    } else {
        insert_sorted_spec(sort_spec(s.drop_last()), s.last())
    }
}

/// The causal parents of a single time: its entry's parents at the entry
/// start, the previous time inside a run.
pub open spec fn spec_parents_at(l: OpLog, t: int) -> Seq<usize> {
    let e = l.history.entries.entries()[l.history.entries.spec_idx(t)];
    if e.span.start == t {
        e.parents@
    } else {
        seq![(t - 1) as usize]
    }
}

/// One parent, carried over to `b`'s time space (ROOT stays ROOT).
pub open spec fn map_parent(a: OpLog, b: OpLog, p: usize) -> usize {
    if p == ROOT_TIME {
        ROOT_TIME
    } else {
        map_time(a, b, p as int)->0
    }
}

/// The parents of `t` in `a` and of its image `tb` in `b` agree, after
/// mapping and re-sorting.
pub open spec fn parents_match(a: OpLog, b: OpLog, t: int, tb: int) -> bool {
    let pa = spec_parents_at(a, t);
    let pb = spec_parents_at(b, tb);
    &&& forall|j: int|
        0 <= j < pa.len() ==> (#[trigger] pa[j]) == ROOT_TIME || map_time(a, b, pa[j] as int)
            is Some
    &&& sort_spec(pa.map(|j: int, p: usize| map_parent(a, b, p))) =~= pb
}

/// The operation unit at time `t`: its kind.
pub open spec fn unit_tag(l: OpLog, t: int) -> InsDelTag {
    l.operations.entries()[l.operations.spec_idx(t)].1.tag
}

/// The operation unit at time `t`: the document position it touches.
pub open spec fn unit_pos(l: OpLog, t: int) -> int {
    let e = l.operations.entries()[l.operations.spec_idx(t)];
    let op = e.1;
    let off = t - e.0;
    if !op.span.fwd {
        op.span.span.end - 1 - off
    } else if op.tag is Del {
        op.span.span.start as int
    } else {
        op.span.span.start + off
    }
}

/// The operation unit at time `t`: its recorded content character, if any.
pub open spec fn unit_ch(l: OpLog, t: int) -> Option<char> {
    let e = l.operations.entries()[l.operations.spec_idx(t)];
    let op = e.1;
    let off = t - e.0;
    match op.content_pos {
        Some(c) => Some(
            if op.tag is Ins {
                l.ins_content@[c.start + off]
            } else {
                l.del_content@[c.start + off]
            },
        ),
        None => None,
    }
}

/// Time `t` of `a` has an exact counterpart in `b`.
pub open spec fn time_match(a: OpLog, b: OpLog, t: int) -> bool {
    &&& map_time(a, b, t) is Some
    &&& {
        let tb = map_time(a, b, t)->0 as int;
        &&& unit_tag(a, t) == unit_tag(b, tb)
        &&& unit_pos(a, t) == unit_pos(b, tb)
        &&& unit_ch(a, t) == unit_ch(b, tb)
        &&& parents_match(a, b, t, tb)
    }
}

/// One tip of `a`'s frontier appears in `b`'s frontier.
pub open spec fn tip_match(a: OpLog, b: OpLog, k: int) -> bool {
    let x = a.frontier@[k];
    if x == ROOT_TIME {
        b.frontier@.contains(ROOT_TIME)
    } else {
        map_time(a, b, x as int) is Some && b.frontier@.contains(map_time(a, b, x as int)->0)
    }
}

/// Two logs recorded the same history: same agent usage by name, the same
/// frontier, and for every time of `a` an exact counterpart in `b` with the
/// same operation unit and the same (mapped) causal parents.
pub open spec fn log_equiv(a: OpLog, b: OpLog) -> bool {
    &&& a.frontier@.len() == b.frontier@.len()
    &&& forall|ag: int| 0 <= ag < a.client_data@.len() ==> #[trigger] agent_match(a, b, ag)
    &&& forall|k: int| 0 <= k < a.frontier@.len() ==> #[trigger] tip_match(a, b, k)
    &&& forall|t: int| 0 <= t < a.len_spec() ==> #[trigger] time_match(a, b, t)
}

/// The first agent of `cds` carrying `name`.
pub(crate) fn find_agent(cds: &Vec<ClientData>, name: &str) -> (r: Option<usize>)
    ensures
        match r {
            Some(j) => name_idx(cds@, name@) == Some(j as int),
            None => name_idx(cds@, name@) is None,
        },
{
    proof {
        lemma_name_idx(cds@, name@);
    }
    let n = cds.len();
    let mut i: usize = 0;
    while i < n
        invariant
            n == cds@.len(),
            i <= n,
            forall|k: int| 0 <= k < i ==> name_chars((#[trigger] cds@[k]).name) != name@,
        decreases n - i,
    {
        if an_eq_str(&cds[i].name, name) {
            proof {
                lemma_name_idx(cds@, name@);
            }
            return Some(i);
        }
        i = i + 1;
    }
    proof {
        lemma_name_idx(cds@, name@);
    }
    None
}

impl OpLog {
    /// The causal parents directly preceding time `t`.
    pub fn parents_at_time(&self, t: usize) -> (r: Vec<usize>)
        requires
            self.wf(),
            (t as int) < self.len_spec(),
        ensures
            r@ =~= spec_parents_at(*self, t as int),
    {
        proof {
            self.history.entries.lemma_idx(t as int);
        }
        let (e, _off) = self.history.entries.find_packed_with_offset(t);
        if e.span.start == t {
            e.parents.as_vec()
        } else {
            let mut v: Vec<usize> = Vec::new();
            v.push(t - 1);
            v
        }
    }
}

/// Where time `t` of `a` lives in `b`, executed.
fn map_time_exec(a: &OpLog, b: &OpLog, t: usize) -> (r: Option<usize>)
    requires
        a.wf(),
        b.wf(),
        (t as int) < a.len_spec(),
    ensures
        r == map_time(*a, *b, t as int),
{
    proof {
        reveal(OpLog::maps_ok);
    }
    let id = a.time_to_crdt_id(t);
    let name = an_as_str(&a.client_data[id.agent as usize].name);
    match find_agent(&b.client_data, name) {
        Some(bg) => {
            proof {
                lemma_name_idx(b.client_data@, name@);
            }
            b.client_data[bg].try_seq_to_time(id.seq)
        },
        None => None,
    }
}

/// Sort a small vector of times.
pub(crate) fn sort_times(v: &Vec<usize>) -> (r: Vec<usize>)
    ensures
        r@ =~= sort_spec(v@),
{
    let n = v.len();
    let mut out: Vec<usize> = Vec::new();
    let mut i: usize = 0;
    while i < n
        invariant
            n == v@.len(),
            i <= n,
            out@ =~= sort_spec(v@.subrange(0, i as int)),
        decreases n - i,
    {
        let x = v[i];
        // insert x into out at its sorted position
        let m = out.len();
        let mut pos: usize = 0;
        while pos < m && out[pos] <= x
            invariant
                m == out@.len(),
                pos <= m,
                forall|j: int| 0 <= j < pos ==> out@[j] <= x,
            decreases m - pos,
        {
            pos = pos + 1;
        }
        proof {
            assert forall|j: int| pos <= j < out@.len() implies out@[j] > x by {
                lemma_sort_sorted(v@.subrange(0, i as int));
                assert(out@[pos as int] > x);
                if j > pos {
                    assert(out@[pos as int] <= out@[j]);
                }
            }
            crate::frontier::lemma_insert_sorted_at(out@, x, pos as int);
            assert(v@.subrange(0, i + 1).drop_last() =~= v@.subrange(0, i as int));
            assert(v@.subrange(0, i + 1).last() == v@[i as int]);
        }
        out.insert(pos, x);
        i = i + 1;
    }
    proof {
        assert(v@.subrange(0, n as int) =~= v@);
    }
    out
}

/// `sort_spec` produces a non-strictly ascending sequence.
pub proof fn lemma_sort_sorted_pub(s: Seq<usize>)
    ensures
        forall|i: int, j: int|
            0 <= i < j < sort_spec(s).len() ==> #[trigger] sort_spec(s)[i] <= #[trigger] sort_spec(
                s,
            )[j],
        sort_spec(s).len() == s.len(),
{
    lemma_sort_sorted(s);
}

/// `sort_spec` produces a non-strictly ascending sequence.
proof fn lemma_sort_sorted(s: Seq<usize>)
    ensures
        forall|i: int, j: int|
            0 <= i < j < sort_spec(s).len() ==> #[trigger] sort_spec(s)[i] <= #[trigger] sort_spec(
                s,
            )[j],
        sort_spec(s).len() == s.len(),
    decreases s.len(),
{
    if s.len() > 0 {
        lemma_sort_sorted(s.drop_last());
        lemma_insert_keeps_sorted(sort_spec(s.drop_last()), s.last());
    }
}

proof fn lemma_insert_keeps_sorted(s: Seq<usize>, x: usize)
    requires
        forall|i: int, j: int| 0 <= i < j < s.len() ==> #[trigger] s[i] <= #[trigger] s[j],
    ensures
        forall|i: int, j: int|
            0 <= i < j < insert_sorted_spec(s, x).len() ==> #[trigger] insert_sorted_spec(s, x)[i]
                <= #[trigger] insert_sorted_spec(s, x)[j],
        insert_sorted_spec(s, x).len() == s.len() + 1,
    decreases s.len(),
{
    let r = insert_sorted_spec(s, x);
    if s.len() == 0 {
    } else if s.last() <= x {
        assert forall|i: int, j: int| 0 <= i < j < r.len() implies #[trigger] r[i] <= #[trigger] r[j] by {
            if j == r.len() - 1 {
                if i < s.len() - 1 {
                    assert(s[i] <= s[s.len() - 1]);
                }
            }
        }
    } else {
        assert forall|i: int, j: int|
            0 <= i < j < s.drop_last().len() implies #[trigger] s.drop_last()[i]
            <= #[trigger] s.drop_last()[j] by {}
        lemma_insert_keeps_sorted(s.drop_last(), x);
        let rp = insert_sorted_spec(s.drop_last(), x);
        assert forall|i: int, j: int| 0 <= i < j < r.len() implies #[trigger] r[i] <= #[trigger] r[j] by {
            if j == r.len() - 1 {
                lemma_insert_elems(s.drop_last(), x, i);
            }
        }
    }
}

proof fn lemma_insert_elems(s: Seq<usize>, x: usize, i: int)
    requires
        0 <= i < insert_sorted_spec(s, x).len(),
        forall|a: int, b: int| 0 <= a < b < s.len() ==> #[trigger] s[a] <= #[trigger] s[b],
        forall|a: int| 0 <= a < s.len() ==> #[trigger] s[a] <= x || x <= s[a],
    ensures
        insert_sorted_spec(s, x)[i] == x || exists|w: int|
            0 <= w < s.len() && s[w] == insert_sorted_spec(s, x)[i],
    decreases s.len(),
{
    let r = insert_sorted_spec(s, x);
    if s.len() == 0 {
    } else if s.last() <= x {
        if i < s.len() {
            assert(s[i] == r[i]);
        }
    } else {
        if i == r.len() - 1 {
            assert(r[i] == s[s.len() - 1]);
        } else {
            assert forall|a: int, b: int|
                0 <= a < b < s.drop_last().len() implies #[trigger] s.drop_last()[a]
                <= #[trigger] s.drop_last()[b] by {}
            lemma_insert_elems(s.drop_last(), x, i);
        }
    }
}

/// Compare two vectors of times.
fn vec_eq(a: &Vec<usize>, b: &Vec<usize>) -> (r: bool)
    ensures
        r == (a@ =~= b@),
{
    if a.len() != b.len() {
        return false;
    }
    let n = a.len();
    let mut i: usize = 0;
    while i < n
        invariant
            n == a@.len() == b@.len(),
            i <= n,
            forall|j: int| 0 <= j < i ==> a@[j] == b@[j],
        decreases n - i,
    {
        if a[i] != b[i] {
            return false;
        }
        i = i + 1;
    }
    true
}

/// Read the unit at time `t`: kind, position, and content character.
pub(crate) fn unit_exec(l: &OpLog, t: usize) -> (r: (InsDelTag, usize, Option<char>))
    requires
        l.wf(),
        (t as int) < l.len_spec(),
    ensures
        r.0 == unit_tag(*l, t as int),
        r.1 == unit_pos(*l, t as int),
        r.2 == unit_ch(*l, t as int),
{
    proof {
        reveal(OpLog::ops_ok);
        l.operations.lemma_idx(t as int);
    }
    let (e, off) = l.operations.find_packed_with_offset(t);
    let op = &e.1;
    let pos = if !op.span.fwd {
        op.span.span.end - 1 - off
    } else if matches!(op.tag, InsDelTag::Del) {
        op.span.span.start
    } else {
        op.span.span.start + off
    };
    let ch = match &op.content_pos {
        Some(c) => {
            let arena = match op.tag {
                InsDelTag::Ins => l.ins_content.as_str(),
                InsDelTag::Del => l.del_content.as_str(),
            };
            Some(arena.get_char(c.start + off))
        },
        None => None,
    };
    (op.tag, pos, ch)
}

impl OpLog {
    /// Whether the two logs recorded the same history, possibly in a
    /// different order and under different agent numbering.
    #[verifier::rlimit(100)]
    #[verifier::spinoff_prover]
    pub fn eq(&self, other: &OpLog) -> (r: bool)
        requires
            self.wf(),
            other.wf(),
        ensures
            r == log_equiv(*self, *other),
    {
        if self.frontier.len() != other.frontier.len() {
            return false;
        }
        // Agent tables by name.
        let na = self.client_data.len();
        let mut ag: usize = 0;
        while ag < na
            invariant
                self.wf(),
                other.wf(),
                na == self.client_data@.len(),
                ag <= na,
                forall|g: int| 0 <= g < ag ==> #[trigger] agent_match(*self, *other, g),
            decreases na - ag,
        {
            proof {
                reveal(OpLog::maps_ok);
            }
            let name = an_as_str(&self.client_data[ag].name);
            let my_next = self.client_data[ag].get_next_seq();
            match find_agent(&other.client_data, name) {
                Some(bg) => {
                    proof {
                        lemma_name_idx(other.client_data@, name@);
                    }
                    if other.client_data[bg].get_next_seq() != my_next {
                        proof {
                            assert(!agent_match(*self, *other, ag as int));
                        }
                        return false;
                    }
                },
                None => {
                    if my_next != 0 {
                        proof {
                            assert(!agent_match(*self, *other, ag as int));
                        }
                        return false;
                    }
                },
            }
            proof {
                assert(agent_match(*self, *other, ag as int));
            }
            ag = ag + 1;
        }
        // Frontier tips.
        let nf = self.frontier.len();
        let mut k: usize = 0;
        while k < nf
            invariant
                self.wf(),
                other.wf(),
                nf == self.frontier@.len(),
                k <= nf,
                forall|j: int| 0 <= j < k ==> #[trigger] tip_match(*self, *other, j),
            decreases nf - k,
        {
            let x = self.frontier.get(k);
            if x == ROOT_TIME {
                if !other.frontier.contains_time(ROOT_TIME) {
                    proof {
                        assert(!tip_match(*self, *other, k as int));
                    }
                    return false;
                }
            } else {
                proof {
                    if self.len_spec() == 0 {
                        assert(self.frontier@[k as int] == ROOT_TIME);
                    }
                }
                match map_time_exec(self, other, x) {
                    Some(tb) => {
                        if !other.frontier.contains_time(tb) {
                            proof {
                                assert(!tip_match(*self, *other, k as int));
                            }
                            return false;
                        }
                    },
                    None => {
                        proof {
                            assert(!tip_match(*self, *other, k as int));
                        }
                        return false;
                    },
                }
            }
            proof {
                assert(tip_match(*self, *other, k as int));
            }
            k = k + 1;
        }
        // Every time of `self`, unit by unit.
        let n = self.len();
        let mut t: usize = 0;
        while t < n
            invariant
                self.wf(),
                other.wf(),
                n == self.len_spec(),
                t <= n,
                forall|u: int| 0 <= u < t ==> #[trigger] time_match(*self, *other, u),
            decreases n - t,
        {
            let tb = match map_time_exec(self, other, t) {
                Some(tb) => tb,
                None => {
                    proof {
                        assert(!time_match(*self, *other, t as int));
                    }
                    return false;
                },
            };
            proof {
                reveal(OpLog::maps_ok);
                lemma_name_idx(
                    other.client_data@,
                    name_chars(self.client_data@[self.agent_at(t as int)].name),
                );
            }
            let (tag_a, pos_a, ch_a) = unit_exec(self, t);
            let (tag_b, pos_b, ch_b) = unit_exec(other, tb);
            if !(tag_a == tag_b) {
                proof {
                    assert(!time_match(*self, *other, t as int));
                }
                return false;
            }
            if pos_a != pos_b {
                proof {
                    assert(!time_match(*self, *other, t as int));
                }
                return false;
            }
            let ch_ok = match (ch_a, ch_b) {
                (Some(x), Some(y)) => x == y,
                (None, None) => true,
                _ => false,
            };
            if !ch_ok {
                proof {
                    assert(!time_match(*self, *other, t as int));
                }
                return false;
            }
            // Parents, mapped and re-sorted.
            let pa = self.parents_at_time(t);
            let pb = other.parents_at_time(tb);
            let mut mapped: Vec<usize> = Vec::new();
            let np = pa.len();
            let mut j: usize = 0;
            while j < np
                invariant
                    self.wf(),
                    other.wf(),
                    np == pa@.len(),
                    j <= np,
                    pa@ =~= spec_parents_at(*self, t as int),
                    t < n,
                    n == self.len_spec(),
                    mapped@ =~= pa@.subrange(0, j as int).map(
                        |jj: int, p: usize| map_parent(*self, *other, p),
                    ),
                    forall|jj: int|
                        0 <= jj < j ==> (#[trigger] pa@[jj]) == ROOT_TIME || map_time(
                            *self,
                            *other,
                            pa@[jj] as int,
                        ) is Some,
                decreases np - j,
            {
                let p = pa[j];
                if p == ROOT_TIME {
                    mapped.push(ROOT_TIME);
                } else {
                    proof {
                        crate::check::lemma_parent_below(*self, t as int, j as int);
                    }
                    match map_time_exec(self, other, p) {
                        Some(mp) => {
                            mapped.push(mp);
                        },
                        None => {
                            proof {
                                assert(!parents_match(*self, *other, t as int, tb as int));
                                assert(!time_match(*self, *other, t as int));
                            }
                            return false;
                        },
                    }
                }
                proof {
                    assert(pa@.subrange(0, j + 1).map(
                        |jj: int, q: usize| map_parent(*self, *other, q),
                    ) =~= pa@.subrange(0, j as int).map(
                        |jj: int, q: usize| map_parent(*self, *other, q),
                    ).push(map_parent(*self, *other, pa@[j as int])));
                }
                j = j + 1;
            }
            proof {
                assert(pa@.subrange(0, np as int) =~= pa@);
            }
            let sorted = sort_times(&mapped);
            if !vec_eq(&sorted, &pb) {
                proof {
                    assert(!parents_match(*self, *other, t as int, tb as int));
                    assert(!time_match(*self, *other, t as int));
                }
                return false;
            }
            proof {
                assert(time_match(*self, *other, t as int));
            }
            t = t + 1;
        }
        true
    }
}

} // verus!

