//! Consistency checks and the laws the log obeys.

use vstd::prelude::*;
use crate::agent::name_chars;
use crate::eq::{
    agent_match, log_equiv, map_parent, map_time, name_idx, lemma_name_idx, parents_match,
    sort_spec, spec_parents_at, time_match, tip_match,
};
use crate::frontier::{advance_spec, insert_sorted_spec, sorted_strict, Frontier};
use crate::history::{is_root_parents, slow_frontier, History, HistoryEntry};
use crate::oplog::OpLog;


use crate::ROOT_TIME;

verus! {

impl OpLog {
    /// Every assigned time round-trips through its `(agent, seq)` name, and
    /// every known `(agent, seq)` round-trips through its time.
    pub proof fn lemma_agent_map_inversion(self)
        requires
            self.wf(),
        ensures
            forall|t: int|
                0 <= t < self.len_spec() ==> self.time_at(
                    #[trigger] self.agent_at(t),
                    self.seq_at(t),
                ) == t,
            forall|a: int, s: int|
                0 <= a < self.client_data@.len() && 0 <= s < self.next_seq_of(a) ==> self.agent_at(
                    #[trigger] self.time_at(a, s),
                ) == a && self.seq_at(self.time_at(a, s)) == s,
    {
        reveal(OpLog::maps_ok);
    }

    /// Equivalence is reflexive: a log always matches itself.
    pub proof fn lemma_eq_reflexive(self)
        requires
            self.wf(),
        ensures
            log_equiv(self, self),
    {
        reveal(OpLog::maps_ok);
        let l = self;
        assert forall|ag: int|
            0 <= ag < l.client_data@.len() implies name_idx(
            l.client_data@,
            name_chars(l.client_data@[ag].name),
        ) == Some(ag) by {
            lemma_name_idx(l.client_data@, name_chars(l.client_data@[ag].name));
            match name_idx(l.client_data@, name_chars(l.client_data@[ag].name)) {
                Some(j) => {
                    if j < ag {
                    } else if j > ag {
                    }
                },
                None => {},
            }
        }
        assert forall|ag: int| 0 <= ag < l.client_data@.len() implies #[trigger] agent_match(
            l,
            l,
            ag,
        ) by {}
        assert forall|t: int| 0 <= t < l.len_spec() implies map_time(l, l, t) == Some(
            t as usize,
        ) by {}
        assert forall|k: int| 0 <= k < l.frontier@.len() implies #[trigger] tip_match(l, l, k) by {
            let x = l.frontier@[k];
            assert(l.frontier@.contains(x));
            if x != ROOT_TIME {
                assert(l.len_spec() > 0);
                assert((x as int) < l.len_spec());
                assert(map_time(l, l, x as int) == Some(x));
            }
        }
        assert forall|t: int| 0 <= t < l.len_spec() implies #[trigger] time_match(l, l, t) by {
            let pa = spec_parents_at(l, t);
            reveal(History::entry_wf);
            l.history.entries.lemma_idx(t);
            assert(l.history.entry_wf(l.history.entries.spec_idx(t)));
            assert forall|j: int|
                0 <= j < pa.len() implies (#[trigger] pa[j]) == ROOT_TIME || map_time(
                l,
                l,
                pa[j] as int,
            ) is Some by {
                if pa[j] != ROOT_TIME {
                    lemma_parent_below(l, t, j);
                }
            }
            let mapped = pa.map(|j: int, p: usize| map_parent(l, l, p));
            assert forall|j: int| 0 <= j < pa.len() implies #[trigger] mapped[j] == pa[j] by {
                if pa[j] != ROOT_TIME {
                    lemma_parent_below(l, t, j);
                }
            }
            assert(mapped =~= pa);
            lemma_parents_sorted(l, t);
            lemma_sort_of_sorted(pa);
            assert(parents_match(l, l, t, t));
        }
    }
}

/// A non-ROOT parent of a covered time is an earlier covered time.
pub(crate) proof fn lemma_parent_below(l: OpLog, t: int, j: int)
    requires
        l.wf(),
        0 <= t < l.len_spec(),
        0 <= j < spec_parents_at(l, t).len(),
        spec_parents_at(l, t)[j] != ROOT_TIME,
    ensures
        (spec_parents_at(l, t)[j] as int) < l.len_spec(),
{
    reveal(History::entry_wf);
    l.history.entries.lemma_idx(t);
    let i = l.history.entries.spec_idx(t);
    assert(l.history.entry_wf(i));
    let e = l.history.entries.entries()[i];
    if e.span.start == t {
        if is_root_parents(e.parents@) {
            assert(e.parents@[j] == ROOT_TIME);
        } else {
            assert(e.parents@[j] < e.span.start);
        }
    }
}

/// The parents of any single time are strictly ascending.
proof fn lemma_parents_sorted(l: OpLog, t: int)
    requires
        l.wf(),
        0 <= t < l.len_spec(),
    ensures
        sorted_strict(spec_parents_at(l, t)),
{
    reveal(History::entry_wf);
    l.history.entries.lemma_idx(t);
    let i = l.history.entries.spec_idx(t);
    assert(l.history.entry_wf(i));
    let e = l.history.entries.entries()[i];
    if e.span.start == t {
        if is_root_parents(e.parents@) {
            assert forall|x: int, y: int|
                0 <= x < y < e.parents@.len() implies e.parents@[x] < e.parents@[y] by {}
        }
    } else {
        let p = spec_parents_at(l, t);
        assert(p.len() == 1);
    }
}

/// Sorting a strictly ascending sequence gives it back.
proof fn lemma_sort_of_sorted(s: Seq<usize>)
    requires
        sorted_strict(s),
    ensures
        sort_spec(s) =~= s,
    decreases s.len(),
{
    if s.len() > 0 {
        crate::frontier::lemma_drop_last_sorted(s);
        lemma_sort_of_sorted(s.drop_last());
        assert forall|x: int| 0 <= x < s.len() - 1 implies s.drop_last()[x] <= s.last() by {
            assert(s[x] < s[s.len() - 1]);
        }
        assert(insert_sorted_spec(s.drop_last(), s.last()) =~= s.drop_last().push(s.last()));
        assert(s.drop_last().push(s.last()) =~= s);
    }
}

impl OpLog {
    /// Recompute the frontier by walking the whole history.
    pub fn dbg_get_frontier_inefficiently(&self) -> (r: Frontier)
        requires
            self.wf(),
        ensures
            r@ =~= slow_frontier(self.history.entries.entries()),
    {
        let mut b = Frontier::root();
        let n = self.history.entries.num_entries();
        let mut i: usize = 0;
        while i < n
            invariant
                self.wf(),
                n == self.history.entries.entries().len(),
                i <= n,
                b@ =~= slow_frontier(self.history.entries.entries().subrange(0, i as int)),
                sorted_strict(b@),
                i == 0 ==> b@ =~= seq![ROOT_TIME],
                forall|k: int|
                    0 <= k < b@.len() ==> (#[trigger] b@[k]) == ROOT_TIME || (i > 0 && (
                    b@[k] as int) < self.history.entries.entries()[i - 1].span.end),
                i > 0 ==> !b@.contains(ROOT_TIME),
            decreases n - i,
        {
            let ghost es = self.history.entries.entries();
            proof {
                reveal(History::entry_wf);
                self.history.entries.lemma_entry_facts(i as int);
                assert(self.history.entry_wf(i as int));
                if i > 0 {
                    self.history.entries.lemma_adjacent(i as int);
                    self.history.entries.lemma_entry_facts(i - 1);
                    assert(es[i as int].span.start == es[i - 1].span.end);
                }
                assert(es.subrange(0, i + 1).drop_last() =~= es.subrange(0, i as int));
                assert(es.subrange(0, i + 1).last() == es[i as int]);
                if i == 0 {
                    assert(es[0].span.start == 0) by {
                        self.history.entries.lemma_entry_facts(0);
                    }
                    if !is_root_parents(es[0].parents@) {
                        assert(es[0].parents@.len() > 0);
                        assert((es[0].parents@[0] as int) < 0);
                    }
                    assert(is_root_parents(es[0].parents@));
                    assert(b@.contains(ROOT_TIME)) by {
                        assert(b@[0] == ROOT_TIME);
                    }
                    assert(es[0].parents@.contains(ROOT_TIME)) by {
                        assert(es[0].parents@[0] == ROOT_TIME);
                    }
                } else {
                    if b@.contains(ROOT_TIME) {
                        let w = choose|w: int| 0 <= w < b@.len() && b@[w] == ROOT_TIME;
                        assert(false);
                    }
                }
                crate::frontier::lemma_advance_shape(b@, es[i as int].parents@, es[i as int].span);
            }
            let e = &self.history.entries.0[i];
            let parents = e.parents.as_vec();
            b.advance_by_known_run(parents.as_slice(), e.span);
            proof {
                if b@.contains(ROOT_TIME) {
                    let w = choose|w: int| 0 <= w < b@.len() && b@[w] == ROOT_TIME;
                    assert((b@[w] as int) < es[i as int].span.end);
                    assert(false);
                }
            }
            i = i + 1;
        }
        proof {
            assert(self.history.entries.entries().subrange(0, n as int)
                =~= self.history.entries.entries());
        }
        b
    }

    /// Re-derive the agent maps' mutual inversion time by time, and compare
    /// the maintained frontier against the slow recomputation. The checks
    /// cannot fail on a well-formed log; Verus proves each in place.
    pub fn dbg_check(&self, deep: bool)
        requires
            self.wf(),
    {
        proof {
            reveal(OpLog::maps_ok);
        }
        let slow = self.dbg_get_frontier_inefficiently();
        proof {
            assert(slow@ =~= self.frontier@);
        }
        let m = slow.len();
        let fast_len = self.frontier.len();
        assert(m == fast_len);
        let mut k: usize = 0;
        while k < m
            invariant
                self.wf(),
                m == slow@.len(),
                slow@ =~= self.frontier@,
                k <= m,
            decreases m - k,
        {
            let a = slow.get(k);
            let b = self.frontier.get(k);
            assert(a == b);
            k = k + 1;
        }
        let n = self.len();
        let mut t: usize = 0;
        while t < n
            invariant
                self.wf(),
                n == self.len_spec(),
                t <= n,
            decreases n - t,
        {
            proof {
                reveal(OpLog::maps_ok);
            }
            let id = self.time_to_crdt_id(t);
            let back = self.crdt_id_to_time(id);
            assert(back == t);
            t = t + 1;
        }
        if deep {
            let na = self.client_data.len();
            let mut a: usize = 0;
            while a < na
                invariant
                    self.wf(),
                    na == self.client_data@.len(),
                    a <= na,
                decreases na - a,
            {
                proof {
                    reveal(OpLog::maps_ok);
                }
                let next = self.client_data[a].get_next_seq();
                let mut s: usize = 0;
                while s < next
                    invariant
                        self.wf(),
                        a < self.client_data@.len(),
                        next == self.next_seq_of(a as int),
                        s <= next,
                    decreases next - s,
                {
                    proof {
                        reveal(OpLog::maps_ok);
                    }
                    let time = self.client_data[a].seq_to_time(s);
                    proof {
                        assert(time == self.time_at(a as int, s as int));
                        assert((self.time_at(a as int, s as int) as int) < self.len_spec());
                    }
                    let id = self.time_to_crdt_id(time);
                    assert(id.agent as int == a as int);
                    assert(id.seq == s);
                    s = s + 1;
                }
                a = a + 1;
            }
        }
    }
}

} // verus!
