//! Replication in agent-name space: operations expressed entirely through
//! `(agent name, seq)` pairs, computed against a version the peer knows.

use vstd::prelude::*;
use crate::agent::{an_as_str, name_chars};
use crate::agent::str_eq;
use crate::eq::{find_agent, lemma_sort_sorted_pub, name_idx, sort_spec, sort_times, spec_parents_at, unit_ch, unit_pos, unit_tag};
use crate::history::{parents_valid, HistoryEntry};
use crate::ROOT_AGENT;
use crate::frontier::advance_spec;
use crate::operation::{InsDelTag, Operation, OperationInternal};
use crate::history::is_root_parents;
use crate::oplog::{total_len, OpLog};
use crate::rle::{end_of, rlv_push_spec, HasLength, KVPair, RleKeyed};
use crate::span::TimeSpanRev;
use crate::span::TimeSpan;
use crate::ROOT_TIME;

verus! {

/// The externally stable name of a time: an agent name and a sequence
/// number. `("ROOT", 0)` stands for the origin.
#[derive(Clone, Debug)]
pub struct RemoteVersion {
    pub agent: String,
    pub seq: usize,
}

/// A value carried by the higher-level register, map, and collection
/// operations a log may relay.
#[derive(Clone, Debug)]
pub enum CreateValue {
    I64(i64),
    Str(String),
    NewMap,
    NewCollection,
    NewRegister,
}

/// One contiguous text run in wire form: its kind, the document-position
/// span `[pos, pos + len)` it touches (reversed runs walk it backwards),
/// and the recorded text where there is any.
#[derive(Clone, Debug)]
pub struct ExtTextOp {
    pub tag: InsDelTag,
    pub pos: usize,
    pub fwd: bool,
    pub len: usize,
    pub content: Option<String>,
}

/// What an external operation does. This log stores text operations only;
/// the register, map and collection variants are carried for wire
/// compatibility and are rejected by `merge_ext_ops`.
#[derive(Clone, Debug)]
pub enum ExtOpContents {
    RegisterSet(CreateValue),
    MapSet(String, CreateValue),
    MapDelete(String),
    CollectionInsert(CreateValue),
    CollectionRemove(RemoteVersion),
    Text(ExtTextOp),
}

/// An operation expressed entirely in agent-name space.
#[derive(Clone, Debug)]
pub struct ExtOp {
    pub target: RemoteVersion,
    pub parents: Vec<RemoteVersion>,
    pub version: RemoteVersion,
    pub contents: ExtOpContents,
}

/// Why a batch of external operations could not be merged.
#[derive(Clone, Copy, Debug, PartialEq, Eq, Structural)]
pub enum MergeError {
    MissingParent,
    InvalidParents,
    SeqMismatch,
    UnsupportedTarget,
    UnsupportedContents,
    TooLarge,
}

/// The largest covered prefix of `span`: one past the largest element of
/// `pending` inside it, or its start when none lies there.
pub open spec fn cutoff_of(pending: Seq<usize>, span: TimeSpan) -> int
    decreases pending.len(),
{
    if pending.len() == 0 {
        span.start as int
    } else {
        let rest = cutoff_of(pending.drop_last(), span);
        if span.start <= pending.last() < span.end && pending.last() + 1 > rest {
            pending.last() + 1
        } else {
            rest
        }
    }
}

/// The ancestor-closure sweep, walking entries from the newest down: each
/// entry's covered prefix is cut at the largest pending time inside it, and
/// a covered entry's parents join the pending set.
pub open spec fn sweep(es: Seq<HistoryEntry>, pending: Seq<usize>, i: int) -> Seq<usize>
    decreases i + 1,
{
    if i < 0 {
        Seq::empty()
    } else {
        let c = cutoff_of(pending, es[i].span);
        let pending2 = if c > es[i].span.start {
            pending + es[i].parents@
        } else {
            pending
        };
        sweep(es, pending2, i - 1).push(c as usize)
    }
}

/// Whether time `t` lies outside the ancestor closure of `v`, per the sweep.
pub open spec fn spec_missing(l: OpLog, v: Seq<usize>, t: int) -> bool {
    let cuts = sweep(l.history.entries.entries(), v, l.history.entries.entries().len() - 1);
    t >= cuts[l.history.entries.spec_idx(t)]
}

/// The times of `[t, len)` outside the closure of `v`, ascending.
pub open spec fn missing_times(l: OpLog, v: Seq<usize>, t: int) -> Seq<usize>
    decreases l.len_spec() - t,
{
    if t < 0 || t >= l.len_spec() {
        Seq::empty()
    } else {
        let rest = missing_times(l, v, t + 1);
        if spec_missing(l, v, t) {
            seq![t as usize] + rest
        } else {
            rest
        }
    }
}

/// A remote version names local time `p` of `l`.
pub open spec fn rv_matches(rv: RemoteVersion, l: OpLog, p: usize) -> bool {
    if p == ROOT_TIME {
        rv.agent@ == "ROOT"@ && rv.seq == 0
    } else {
        rv.agent@ == name_chars(l.client_data@[l.agent_at(p as int)].name) && rv.seq == l.seq_at(
            p as int,
        )
    }
}

/// The unit length of an external operation's text run.
pub open spec fn ext_text_len(e: ExtOp) -> int {
    match e.contents {
        ExtOpContents::Text(text) => text.len as int,
        _ => 0,
    }
}

/// The document position unit `k` of a wire text run touches.
pub open spec fn text_unit_pos(text: ExtTextOp, k: int) -> int {
    if !text.fwd {
        text.pos + text.len - 1 - k
    } else if text.tag is Del {
        text.pos as int
    } else {
        text.pos + k
    }
}

/// An external operation describes the run `[t, t + L)` of `l` exactly: its
/// version names `t`, its parents are `t`'s, and unit by unit its kind,
/// position and content character equal the log's.
pub open spec fn ext_run_matches(e: ExtOp, l: OpLog, t: int, L: int) -> bool {
    &&& e.target.agent@ == "ROOT"@
    &&& e.target.seq == 0
    &&& e.version.agent@ == name_chars(l.client_data@[l.agent_at(t)].name)
    &&& e.version.seq == l.seq_at(t)
    &&& e.parents@.len() == spec_parents_at(l, t).len()
    &&& forall|j: int|
        0 <= j < e.parents@.len() ==> rv_matches(
            #[trigger] e.parents@[j],
            l,
            spec_parents_at(l, t)[j],
        )
    &&& forall|k: int|
        0 <= k < L ==> #[trigger] l.agent_at(t + k) == l.agent_at(t) && l.seq_at(t + k)
            == l.seq_at(t) + k
    &&& forall|k: int|
        1 <= k < L ==> (#[trigger] spec_parents_at(l, t + k)) =~= seq![(t + k - 1) as usize]
    &&& match e.contents {
        ExtOpContents::Text(text) => {
            &&& text.len == L
            &&& forall|k: int|
                0 <= k < L ==> text.tag == #[trigger] unit_tag(l, t + k) && text_unit_pos(text, k)
                    == unit_pos(l, t + k)
            &&& match text.content {
                Some(c) => c@.len() == L && forall|k: int|
                    0 <= k < L ==> #[trigger] unit_ch(l, t + k) == Some(c@[k]),
                None => forall|k: int| 0 <= k < L ==> #[trigger] unit_ch(l, t + k) is None,
            }
        },
        _ => false,
    }
}

/// The run `[t, t + L)` cannot be extended: the next time is past the end,
/// already known to the peer, or across a run boundary of the operation
/// store, the agent map, or the history.
pub open spec fn run_maximal(l: OpLog, v: Seq<usize>, t: int, L: int) -> bool {
    let u = t + L;
    ||| u == l.len_spec()
    ||| !spec_missing(l, v, u)
    ||| l.operations.spec_idx(u) != l.operations.spec_idx(t)
    ||| l.client_with_localtime.spec_idx(u) != l.client_with_localtime.spec_idx(t)
    ||| l.history.entries.spec_idx(u) != l.history.entries.spec_idx(t)
}

/// The emitted operations partition `times` into maximal contiguous runs,
/// each described exactly.
pub open spec fn runs_cover(ops: Seq<ExtOp>, l: OpLog, v: Seq<usize>, times: Seq<usize>) -> bool
    decreases ops.len(),
{
    if ops.len() == 0 {
        times.len() == 0
    } else {
        let L = ext_text_len(ops[0]);
        &&& 1 <= L <= times.len()
        &&& forall|k: int| 0 <= k < L ==> #[trigger] times[k] == times[0] + k
        &&& ext_run_matches(ops[0], l, times[0] as int, L)
        &&& run_maximal(l, v, times[0] as int, L)
        &&& runs_cover(ops.skip(1), l, v, times.skip(L))
    }
}

/// The sweep yields one cutoff per entry.
pub proof fn lemma_sweep_len(es: Seq<HistoryEntry>, pending: Seq<usize>, i: int)
    ensures
        sweep(es, pending, i).len() == (if i < 0 {
            0int
        } else {
            i + 1
        }),
    decreases i + 1,
{
    if i >= 0 {
        let c = cutoff_of(pending, es[i].span);
        let pending2 = if c > es[i].span.start {
            pending + es[i].parents@
        } else {
            pending
        };
        lemma_sweep_len(es, pending2, i - 1);
    }
}

impl OpLog {
    /// The per-entry cutoffs of the ancestor closure of `v`.
    fn closure_cuts(&self, v: &[usize]) -> (r: Vec<usize>)
        requires
            self.wf(),
        ensures
            r@ =~= sweep(
                self.history.entries.entries(),
                v@,
                self.history.entries.entries().len() - 1,
            ),
    {
        let ghost es = self.history.entries.entries();
        let n = self.history.entries.num_entries();
        let mut cuts: Vec<usize> = Vec::new();
        let mut k: usize = 0;
        while k < n
            invariant
                k <= n,
                cuts@.len() == k,
            decreases n - k,
        {
            cuts.push(0);
            k = k + 1;
        }
        let mut pending: Vec<usize> = Vec::new();
        let mut j: usize = 0;
        while j < v.len()
            invariant
                j <= v@.len(),
                pending@ =~= v@.subrange(0, j as int),
            decreases v@.len() - j,
        {
            pending.push(v[j]);
            proof {
                assert(pending@ =~= v@.subrange(0, j + 1));
            }
            j = j + 1;
        }
        proof {
            assert(v@.subrange(0, v@.len() as int) =~= v@);
        }
        let mut i = n;
        while i > 0
            invariant
                self.wf(),
                es == self.history.entries.entries(),
                n == es.len(),
                i <= n,
                cuts@.len() == n,
                sweep(es, v@, n - 1) =~= sweep(es, pending@, i as int - 1) + cuts@.subrange(
                    i as int,
                    n as int,
                ),
            decreases i,
        {
            let ghost pending0 = pending@;
            let ghost cuts0 = cuts@;
            i = i - 1;
            proof {
                self.history.entries.lemma_entry_facts(i as int);
            }
            let e = &self.history.entries.0[i];
            // The cutoff of this entry under the current pending set.
            let mut c: usize = e.span.start;
            let m = pending.len();
            let mut p: usize = 0;
            while p < m
                invariant
                    m == pending@.len(),
                    p <= m,
                    e == self.history.entries.0[i as int],
                    self.wf(),
                    i < n,
                    n == self.history.entries.entries().len(),
                    e.span.start <= c,
                    c == cutoff_of(pending@.subrange(0, p as int), e.span),
                    c <= usize::MAX,
                decreases m - p,
            {
                let x = pending[p];
                proof {
                    assert(pending@.subrange(0, p + 1).drop_last() =~= pending@.subrange(
                        0,
                        p as int,
                    ));
                    assert(pending@.subrange(0, p + 1).last() == pending@[p as int]);
                }
                if e.span.start <= x && x < e.span.end && x + 1 > c {
                    c = x + 1;
                }
                p = p + 1;
            }
            proof {
                assert(pending@.subrange(0, m as int) =~= pending@);
            }
            if c > e.span.start {
                // Covered: this entry's parents become pending.
                let ps = e.parents.as_vec();
                let np = ps.len();
                let mut q: usize = 0;
                while q < np
                    invariant
                        q <= np,
                        np == ps@.len(),
                        pending@ =~= pending0 + ps@.subrange(0, q as int),
                    decreases np - q,
                {
                    pending.push(ps[q]);
                    proof {
                        assert(pending@ =~= pending0 + ps@.subrange(0, q + 1));
                    }
                    q = q + 1;
                }
                proof {
                    assert(ps@.subrange(0, np as int) =~= ps@);
                    assert(pending@ =~= pending0 + es[i as int].parents@);
                }
            }
            cuts.set(i, c);
            proof {
                assert(cuts@ =~= cuts0.update(i as int, c));
                assert(cuts@.subrange(i as int, n as int) =~= seq![c].add(
                    cuts0.subrange(i as int + 1, n as int),
                ));
                assert(sweep(es, pending0, i as int) =~= sweep(es, pending@, i as int - 1).push(
                    c,
                ));
            }
        }
        proof {
            assert(cuts@.subrange(0, n as int) =~= cuts@);
        }
        cuts
    }

    /// Whether `t` is in the transitive ancestor closure of `frontier`,
    /// computed by the descending sweep.
    pub fn contains(&self, frontier: &[usize], t: usize) -> (r: bool)
        requires
            self.wf(),
            (t as int) < self.len_spec(),
        ensures
            r == !spec_missing(*self, frontier@, t as int),
    {
        let cuts = self.closure_cuts(frontier);
        proof {
            self.history.entries.lemma_idx(t as int);
            lemma_sweep_len(
                self.history.entries.entries(),
                frontier@,
                self.history.entries.entries().len() - 1,
            );
        }
        let idx = self.history.entries.find_index(t).unwrap();
        t < cuts[idx]
    }

    /// Every operation run outside the closure of `v`, in time order, each
    /// expressed in agent-name space: maximal contiguous missing stretches,
    /// clipped at operation, agent and history run boundaries.
    pub fn ext_ops_since(&self, v: &[usize]) -> (r: Vec<ExtOp>)
        requires
            self.wf(),
        ensures
            runs_cover(r@, *self, v@, missing_times(*self, v@, 0)),
    {
        let cuts = self.closure_cuts(v);
        let n = self.len();
        let mut out: Vec<ExtOp> = Vec::new();
        let ghost mut done: Seq<usize> = Seq::empty();
        let mut t: usize = 0;
        while t < n
            invariant
                self.wf(),
                n == self.len_spec(),
                t <= n,
                cuts@ =~= sweep(
                    self.history.entries.entries(),
                    v@,
                    self.history.entries.entries().len() - 1,
                ),
                missing_times(*self, v@, 0) =~= done + missing_times(*self, v@, t as int),
                runs_cover_to(out@, *self, v@, done),
            decreases n - t,
        {
            proof {
                self.history.entries.lemma_idx(t as int);
                lemma_sweep_len(
                    self.history.entries.entries(),
                    v@,
                    self.history.entries.entries().len() - 1,
                );
            }
            let hidx = self.history.entries.find_index(t).unwrap();
            if t < cuts[hidx] {
                // `t` is already known to the peer.
                proof {
                    assert(!spec_missing(*self, v@, t as int));
                    assert(missing_times(*self, v@, t as int) =~= missing_times(
                        *self,
                        v@,
                        t + 1,
                    ));
                }
                t = t + 1;
            } else {
                // Start of a missing run: find how far it extends without
                // crossing an operation, agent or history run boundary.
                proof {
                    reveal(OpLog::maps_ok);
                    reveal(OpLog::ops_ok);
                    self.operations.lemma_idx(t as int);
                    self.client_with_localtime.lemma_idx(t as int);
                }
                let (oe, _ooff) = self.operations.find_packed_with_offset(t);
                let (ae, _aoff) = self.client_with_localtime.find_packed_with_offset(t);
                let he = &self.history.entries.0[hidx];
                proof {
                    self.operations.lemma_entry_facts(self.operations.spec_idx(t as int));
                    self.client_with_localtime.lemma_entry_facts(
                        self.client_with_localtime.spec_idx(t as int),
                    );
                    self.history.entries.lemma_entry_facts(hidx as int);
                }
                let op_end = oe.0 + oe.1.span.span.len();
                let ag_end = ae.0 + (ae.1.seq_range.end - ae.1.seq_range.start);
                let hist_end = he.span.end;
                proof {
                    assert(op_end as int == end_of(
                        self.operations.entries()[self.operations.spec_idx(t as int)],
                    ));
                    assert(ag_end as int == end_of(
                        self.client_with_localtime.entries()[
                            self.client_with_localtime.spec_idx(t as int)
                        ],
                    ));
                    assert(hist_end as int == self.history.entries.entries()[
                        self.history.entries.spec_idx(t as int)
                    ].span.end);
                }
                let mut bound = if op_end < ag_end {
                    op_end
                } else {
                    ag_end
                };
                if hist_end < bound {
                    bound = hist_end;
                }
                let ghost run_start = t as int;
                let mut u: usize = t + 1;
                let mut stop = false;
                while !stop && u < bound
                    invariant
                        self.wf(),
                        n == self.len_spec(),
                        cuts@ =~= sweep(
                            self.history.entries.entries(),
                            v@,
                            self.history.entries.entries().len() - 1,
                        ),
                        run_start < u <= bound,
                        bound <= n,
                        bound as int <= end_of(
                            self.operations.entries()[self.operations.spec_idx(run_start)],
                        ),
                        bound as int <= end_of(
                            self.client_with_localtime.entries()[
                                self.client_with_localtime.spec_idx(run_start)
                            ],
                        ),
                        bound as int <= self.history.entries.entries()[
                            self.history.entries.spec_idx(run_start)
                        ].span.end,
                        0 <= run_start < n,
                        forall|k: int|
                            run_start <= k < u ==> #[trigger] spec_missing(*self, v@, k),
                        stop ==> !spec_missing(*self, v@, u as int),
                    decreases bound - u, (if stop { 0int } else { 1int }),
                {
                    proof {
                        self.history.entries.lemma_idx(u as int);
                        lemma_sweep_len(
                            self.history.entries.entries(),
                            v@,
                            self.history.entries.entries().len() - 1,
                        );
                    }
                    let hu = self.history.entries.find_index(u).unwrap();
                    if u >= cuts[hu] {
                        u = u + 1;
                    } else {
                        stop = true;
                    }
                }
                proof {
                    assert(spec_missing(*self, v@, t as int));
                    if !stop && (u as int) < self.len_spec() {
                        // The run stopped at a store boundary: `u` starts a
                        // different run in one of the three maps.
                        lemma_boundary_changes_idx(*self, t as int, u as int);
                    }
                    assert(run_maximal(*self, v@, t as int, u - t));
                }
                let run_len = u - t;
                let e = self.make_ext_run(t, run_len);
                let ghost prev_done = done;
                let ghost prev_out = out@;
                out.push(e);
                proof {
                    let ghost run = Seq::new(run_len as nat, |k: int| (t + k) as usize);
                    lemma_missing_run(*self, v@, t as int, run_len as int);
                    done = prev_done + run;
                    assert(missing_times(*self, v@, 0) =~= done + missing_times(
                        *self,
                        v@,
                        u as int,
                    ));
                    lemma_runs_cover_snoc(prev_out, *self, v@, prev_done, e, run);
                }
                t = u;
            }
        }
        proof {
            assert(missing_times(*self, v@, t as int) =~= Seq::<usize>::empty());
            assert(missing_times(*self, v@, 0) =~= done);
            lemma_runs_cover_close(out@, *self, v@, done);
        }
        out
    }

    /// One maximal run `[t, t + L)` as an external operation.
    fn make_ext_run(&self, t: usize, L: usize) -> (r: ExtOp)
        requires
            self.wf(),
            1 <= L,
            t + L <= self.len_spec(),
            t + L <= end_of(self.operations.entries()[self.operations.spec_idx(t as int)]),
            t + L <= end_of(
                self.client_with_localtime.entries()[
                    self.client_with_localtime.spec_idx(t as int)
                ],
            ),
            t + L <= self.history.entries.entries()[
                self.history.entries.spec_idx(t as int)
            ].span.end,
        ensures
            ext_run_matches(r, *self, t as int, L as int),
            ext_text_len(r) == L as int,
    {
        proof {
            reveal(OpLog::maps_ok);
            reveal(OpLog::ops_ok);
            reveal_strlit("ROOT");
            self.operations.lemma_idx(t as int);
            self.client_with_localtime.lemma_idx(t as int);
            self.history.entries.lemma_idx(t as int);
            lemma_run_units(*self, t as int, L as int);
        }
        let id = self.time_to_crdt_id(t);
        let version = RemoteVersion {
            agent: String::from_str(an_as_str(&self.client_data[id.agent as usize].name)),
            seq: id.seq,
        };
        let pa = self.parents_at_time(t);
        let mut parents: Vec<RemoteVersion> = Vec::new();
        let np = pa.len();
        let mut j: usize = 0;
        while j < np
            invariant
                self.wf(),
                np == pa@.len(),
                j <= np,
                (t as int) < self.len_spec(),
                pa@ =~= spec_parents_at(*self, t as int),
                parents@.len() == j,
                forall|k: int|
                    0 <= k < j ==> rv_matches(#[trigger] parents@[k], *self, pa@[k]),
            decreases np - j,
        {
            let p = pa[j];
            if p == ROOT_TIME {
                parents.push(RemoteVersion { agent: String::from_str("ROOT"), seq: 0 });
            } else {
                proof {
                    reveal(OpLog::maps_ok);
                    crate::check::lemma_parent_below(*self, t as int, j as int);
                }
                let pid = self.time_to_crdt_id(p);
                parents.push(
                    RemoteVersion {
                        agent: String::from_str(
                            an_as_str(&self.client_data[pid.agent as usize].name),
                        ),
                        seq: pid.seq,
                    },
                );
            }
            j = j + 1;
        }
        // The run's document span and content, clipped out of the stored run.
        let (oe, off) = self.operations.find_packed_with_offset(t);
        let op = &oe.1;
        let (pos, fwd) = if op.span.fwd {
            if matches!(op.tag, InsDelTag::Del) {
                (op.span.span.start, true)
            } else {
                (op.span.span.start + off, true)
            }
        } else {
            (op.span.span.end - off - L, false)
        };
        let content = match &op.content_pos {
            Some(c) => {
                let arena = match op.tag {
                    InsDelTag::Ins => self.ins_content.as_str(),
                    InsDelTag::Del => self.del_content.as_str(),
                };
                Some(String::from_str(arena.substring_char(c.start + off, c.start + off + L)))
            },
            None => None,
        };
        ExtOp {
            target: RemoteVersion { agent: String::from_str("ROOT"), seq: 0 },
            parents,
            version,
            contents: ExtOpContents::Text(
                ExtTextOp { tag: op.tag, pos, fwd, len: L, content },
            ),
        }
    }
}

/// Inside one run of all three stores, consecutive times share the agent
/// (with consecutive seqs), keep linear parents, and read consecutive
/// arena characters.
#[verifier::rlimit(100)]
proof fn lemma_run_units(l: OpLog, t: int, L: int)
    requires
        l.wf(),
        1 <= L,
        t + L <= l.len_spec(),
        0 <= t,
        t + L <= end_of(l.operations.entries()[l.operations.spec_idx(t)]),
        t + L <= end_of(
            l.client_with_localtime.entries()[l.client_with_localtime.spec_idx(t)],
        ),
        t + L <= l.history.entries.entries()[l.history.entries.spec_idx(t)].span.end,
    ensures
        forall|k: int|
            0 <= k < L ==> #[trigger] l.operations.spec_idx(t + k) == l.operations.spec_idx(t),
        forall|k: int|
            0 <= k < L ==> #[trigger] l.client_with_localtime.spec_idx(t + k)
                == l.client_with_localtime.spec_idx(t),
        forall|k: int|
            0 <= k < L ==> #[trigger] l.history.entries.spec_idx(t + k)
                == l.history.entries.spec_idx(t),
        forall|k: int|
            0 <= k < L ==> #[trigger] l.agent_at(t + k) == l.agent_at(t) && l.seq_at(t + k)
                == l.seq_at(t) + k,
        forall|k: int|
            1 <= k < L ==> (#[trigger] spec_parents_at(l, t + k)) =~= seq![(t + k - 1) as usize],
    decreases 0int,
{
    reveal(OpLog::maps_ok);
    reveal(OpLog::ops_ok);
    l.operations.lemma_idx(t);
    l.client_with_localtime.lemma_idx(t);
    l.history.entries.lemma_idx(t);
    assert forall|k: int| 0 <= k < L implies #[trigger] l.operations.spec_idx(t + k)
        == l.operations.spec_idx(t) by {
        l.operations.lemma_idx(t + k);
        assert(l.operations.spec_covers(l.operations.spec_idx(t), t + k));
    }
    assert forall|k: int| 0 <= k < L implies #[trigger] l.client_with_localtime.spec_idx(t + k)
        == l.client_with_localtime.spec_idx(t) by {
        l.client_with_localtime.lemma_idx(t + k);
        assert(l.client_with_localtime.spec_covers(l.client_with_localtime.spec_idx(t), t + k));
    }
    assert forall|k: int| 0 <= k < L implies #[trigger] l.history.entries.spec_idx(t + k)
        == l.history.entries.spec_idx(t) by {
        l.history.entries.lemma_idx(t + k);
        let hi = l.history.entries.spec_idx(t);
        l.history.entries.lemma_entry_facts(hi);
        assert(l.history.entries.spec_covers(hi, t + k));
    }
    assert forall|k: int| 0 <= k < L implies #[trigger] l.agent_at(t + k) == l.agent_at(t)
        && l.seq_at(t + k) == l.seq_at(t) + k by {}
    assert forall|k: int| 1 <= k < L implies (#[trigger] spec_parents_at(l, t + k)) =~= seq![
        (t + k - 1) as usize,
    ] by {
        let hi = l.history.entries.spec_idx(t);
        l.history.entries.lemma_entry_facts(hi);
        assert(l.history.entries.entries()[hi].span.start <= t);
    }
}

/// A contiguous stretch of missing times peels off the front of
/// `missing_times` in one block.
#[verifier::rlimit(100)]
proof fn lemma_missing_run(l: OpLog, v: Seq<usize>, t: int, L: int)
    requires
        0 <= t,
        0 <= L,
        t + L <= l.len_spec(),
        forall|k: int| t <= k < t + L ==> #[trigger] spec_missing(l, v, k),
    ensures
        missing_times(l, v, t) =~= Seq::new(L as nat, |k: int| (t + k) as usize) + missing_times(
            l,
            v,
            t + L,
        ),
    decreases L,
{
    if L > 0 {
        lemma_missing_run(l, v, t + 1, L - 1);
        assert(spec_missing(l, v, t));
        assert(missing_times(l, v, t) =~= seq![t as usize] + missing_times(l, v, t + 1));
    }
}

/// `runs_cover`, with the remaining tail still open: the runs seen so far
/// cover exactly `done`, and each was maximal.
pub open spec fn runs_cover_to(ops: Seq<ExtOp>, l: OpLog, v: Seq<usize>, done: Seq<usize>) -> bool
    decreases ops.len(),
{
    if ops.len() == 0 {
        done.len() == 0
    } else {
        let L = ext_text_len(ops[0]);
        &&& 1 <= L <= done.len()
        &&& forall|k: int| 0 <= k < L ==> #[trigger] done[k] == done[0] + k
        &&& ext_run_matches(ops[0], l, done[0] as int, L)
        &&& run_maximal(l, v, done[0] as int, L)
        &&& runs_cover_to(ops.skip(1), l, v, done.skip(L))
    }
}

/// Appending one more maximal run keeps the open cover.
#[verifier::rlimit(100)]
proof fn lemma_runs_cover_snoc(
    ops: Seq<ExtOp>,
    l: OpLog,
    v: Seq<usize>,
    done: Seq<usize>,
    e: ExtOp,
    run: Seq<usize>,
)
    requires
        runs_cover_to(ops, l, v, done),
        run.len() >= 1,
        ext_text_len(e) == run.len(),
        forall|k: int| 0 <= k < run.len() ==> #[trigger] run[k] == run[0] + k,
        ext_run_matches(e, l, run[0] as int, run.len() as int),
        run_maximal(l, v, run[0] as int, run.len() as int),
    ensures
        runs_cover_to(ops.push(e), l, v, done + run),
    decreases ops.len(),
{
    if ops.len() == 0 {
        assert(done + run =~= run);
        assert(ops.push(e)[0] == e);
        assert((done + run)[0] == run[0]);
        assert forall|k: int|
            0 <= k < run.len() implies #[trigger] (done + run)[k] == (done + run)[0] + k by {
            assert((done + run)[k] == run[k]);
        }
        assert(ext_run_matches(e, l, (done + run)[0] as int, run.len() as int));
        assert(run_maximal(l, v, (done + run)[0] as int, run.len() as int));
        assert(ops.push(e).skip(1) =~= Seq::<ExtOp>::empty());
        assert((done + run).skip(run.len() as int) =~= Seq::<usize>::empty());
        assert(ext_text_len(ops.push(e)[0]) == run.len());
        assert(ops.push(e).skip(1).len() == 0);
        assert((done + run).skip(ext_text_len(ops.push(e)[0])).len() == 0);
        assert(runs_cover_to(
            ops.push(e).skip(1),
            l,
            v,
            (done + run).skip(ext_text_len(ops.push(e)[0])),
        ));
        assert(ext_run_matches(
            ops.push(e)[0],
            l,
            (done + run)[0] as int,
            ext_text_len(ops.push(e)[0]),
        ));
        assert(run_maximal(l, v, (done + run)[0] as int, ext_text_len(ops.push(e)[0])));
        assert(runs_cover_to(ops.push(e), l, v, done + run));
    } else {
        let L = ext_text_len(ops[0]);
        assert(ops.push(e)[0] == ops[0]);
        assert((done + run)[0] == done[0]);
        assert forall|k: int| 0 <= k < L implies #[trigger] (done + run)[k] == (done + run)[0]
            + k by {
            assert((done + run)[k] == done[k]);
        }
        lemma_runs_cover_snoc(ops.skip(1), l, v, done.skip(L), e, run);
        assert(ops.push(e).skip(1) =~= ops.skip(1).push(e));
        assert((done + run).skip(L) =~= done.skip(L) + run);
        assert(runs_cover_to(ops.skip(1).push(e), l, v, done.skip(L) + run));
        assert(ext_text_len(ops.push(e)[0]) == L);
        assert(runs_cover_to((ops.push(e)).skip(1), l, v, (done + run).skip(L)));
        assert(runs_cover_to(ops.push(e), l, v, done + run));
    }
}

/// A closed open-cover is the real cover.
#[verifier::rlimit(100)]
proof fn lemma_runs_cover_close(ops: Seq<ExtOp>, l: OpLog, v: Seq<usize>, done: Seq<usize>)
    requires
        runs_cover_to(ops, l, v, done),
    ensures
        runs_cover(ops, l, v, done),
    decreases ops.len(),
{
    if ops.len() > 0 {
        lemma_runs_cover_close(ops.skip(1), l, v, done.skip(ext_text_len(ops[0])));
    }
}

/// When a run stops exactly at the end of the operation, agent or history
/// entry covering its start, the next time resolves to a different entry
/// in that map.
#[verifier::rlimit(100)]
proof fn lemma_boundary_changes_idx(l: OpLog, t: int, u: int)
    requires
        l.wf(),
        0 <= t < u <= l.len_spec(),
        u < l.len_spec(),
        u == end_of(l.operations.entries()[l.operations.spec_idx(t)]) || u == end_of(
            l.client_with_localtime.entries()[l.client_with_localtime.spec_idx(t)],
        ) || u == l.history.entries.entries()[l.history.entries.spec_idx(t)].span.end,
        t < end_of(l.operations.entries()[l.operations.spec_idx(t)]),
    ensures
        l.operations.spec_idx(u) != l.operations.spec_idx(t) || l.client_with_localtime.spec_idx(
            u,
        ) != l.client_with_localtime.spec_idx(t) || l.history.entries.spec_idx(u)
            != l.history.entries.spec_idx(t),
{
    reveal(OpLog::maps_ok);
    reveal(OpLog::ops_ok);
    l.operations.lemma_idx(t);
    l.operations.lemma_idx(u);
    l.client_with_localtime.lemma_idx(t);
    l.client_with_localtime.lemma_idx(u);
    l.history.entries.lemma_idx(t);
    l.history.entries.lemma_idx(u);
    if u == end_of(l.operations.entries()[l.operations.spec_idx(t)]) {
        assert(!l.operations.spec_covers(l.operations.spec_idx(t), u));
    } else if u == end_of(l.client_with_localtime.entries()[l.client_with_localtime.spec_idx(t)]) {
        assert(!l.client_with_localtime.spec_covers(l.client_with_localtime.spec_idx(t), u));
    } else {
        let hi = l.history.entries.spec_idx(t);
        l.history.entries.lemma_entry_facts(hi);
        assert(!l.history.entries.spec_covers(hi, u));
    }
}

/// The local time a remote version resolves to: ROOT by name, otherwise
/// through the first agent with that name and its sequence table.
pub open spec fn resolve_rv(l: OpLog, rv: RemoteVersion) -> Option<usize> {
    if rv.agent@ == "ROOT"@ {
        Some(ROOT_TIME)
    } else {
        match name_idx(l.client_data@, rv.agent@) {
            Some(g) => if rv.seq < l.next_seq_of(g) {
                Some(l.time_at(g, rv.seq as int) as usize)
            } else {
                None
            },
            None => None,
        }
    }
}

/// The parents of an external operation, resolved and re-sorted.
pub open spec fn resolved_parents(l: OpLog, e: ExtOp) -> Seq<usize> {
    sort_spec(e.parents@.map(|j: int, rv: RemoteVersion| resolve_rv(l, rv)->0))
}

/// One past the largest sequence number the named agent has used in `l`
/// (zero when the name is new).
pub open spec fn next_seq_of_name(l: OpLog, name: Seq<char>) -> int {
    match name_idx(l.client_data@, name) {
        Some(g) => l.next_seq_of(g),
        None => 0,
    }
}

/// Whether `l` can apply `e` as its next operation.
pub open spec fn merge_applicable(l: OpLog, e: ExtOp) -> bool {
    &&& e.target.agent@ == "ROOT"@
    &&& e.target.seq == 0
    &&& e.contents is Text
    &&& forall|j: int| 0 <= j < e.parents@.len() ==> resolve_rv(l, #[trigger] e.parents@[j]) is Some
    &&& parents_valid(resolved_parents(l, e), l.len_spec())
    &&& e.version.agent@ != "ROOT"@
    &&& e.version.seq == next_seq_of_name(l, e.version.agent@)
    &&& match e.contents {
        ExtOpContents::Text(text) => {
            &&& text.pos + text.len <= usize::MAX
            &&& text.len >= 1
            &&& (text.tag is Ins ==> text.content is Some)
            &&& match text.content {
                Some(c) => c@.len() == text.len,
                None => true,
            }
        },
        _ => false,
    }
}

/// The error an inapplicable operation draws, in the order the checks run.
pub open spec fn merge_fail(l: OpLog, e: ExtOp) -> MergeError {
    if !(e.target.agent@ == "ROOT"@ && e.target.seq == 0) {
        MergeError::UnsupportedTarget
    } else if !(e.contents is Text) {
        MergeError::UnsupportedContents
    } else if exists|j: int|
        0 <= j < e.parents@.len() && resolve_rv(l, #[trigger] e.parents@[j]) is None {
        MergeError::MissingParent
    } else if !parents_valid(resolved_parents(l, e), l.len_spec()) {
        MergeError::InvalidParents
    } else if e.version.agent@ == "ROOT"@ {
        MergeError::UnsupportedTarget
    } else if e.version.seq != next_seq_of_name(l, e.version.agent@) {
        MergeError::SeqMismatch
    } else if match e.contents {
        ExtOpContents::Text(text) => text.pos + text.len > usize::MAX,
        _ => false,
    } {
        MergeError::TooLarge
    } else {
        MergeError::UnsupportedContents
    }
}

/// The run entry appended to the store by one merged operation.
pub open spec fn merged_kv(pre: OpLog, e: ExtOp) -> KVPair<OperationInternal> {
    let text = e.contents->Text_0;
    let arena_len = if text.tag is Ins {
        pre.ins_content@.len() as int
    } else {
        pre.del_content@.len() as int
    };
    let cp = match text.content {
        Some(c) => Some(
            TimeSpan { start: arena_len as usize, end: (arena_len + text.len) as usize },
        ),
        None => None,
    };
    KVPair(
        pre.len_spec() as usize,
        OperationInternal {
            span: TimeSpanRev {
                span: TimeSpan { start: text.pos, end: (text.pos + text.len) as usize },
                fwd: text.fwd,
            },
            tag: text.tag,
            content_pos: cp,
        },
    )
}

/// The insert arena after one merged operation.
pub open spec fn merged_ins(pre: OpLog, e: ExtOp) -> Seq<char> {
    let text = e.contents->Text_0;
    match text.content {
        Some(c) => if text.tag is Ins {
            pre.ins_content@ + c@
        } else {
            pre.ins_content@
        },
        None => pre.ins_content@,
    }
}

/// The delete arena after one merged operation.
pub open spec fn merged_del(pre: OpLog, e: ExtOp) -> Seq<char> {
    let text = e.contents->Text_0;
    match text.content {
        Some(c) => if text.tag is Del {
            pre.del_content@ + c@
        } else {
            pre.del_content@
        },
        None => pre.del_content@,
    }
}

/// What applying one external operation does: one run pushed under the
/// named agent (created when new) with the resolved parents.
pub open spec fn merge_step(pre: OpLog, post: OpLog, e: ExtOp) -> bool {
    let L = ext_text_len(e);
    let start = pre.len_spec();
    let span = TimeSpan { start: start as usize, end: (start + L) as usize };
    let agent = match name_idx(pre.client_data@, e.version.agent@) {
        Some(g) => g,
        None => pre.client_data@.len() as int,
    };
    &&& merge_applicable(pre, e)
    &&& post.len_spec() == start + L
    // The agent table: an existing name keeps its id; a new one is appended.
    &&& match name_idx(pre.client_data@, e.version.agent@) {
        Some(g) => post.client_data@.len() == pre.client_data@.len(),
        None => post.client_data@.len() == pre.client_data@.len() + 1,
    }
    &&& name_chars(post.client_data@[agent].name) == e.version.agent@
    &&& forall|a: int|
        0 <= a < pre.client_data@.len() && a != agent ==> #[trigger] post.client_data@[a]
            == pre.client_data@[a]
    &&& post.next_seq_of(agent) == e.version.seq + L
    // The maps: old times unchanged, the new run owned by the agent.
    &&& forall|t: int|
        0 <= t < start ==> (#[trigger] post.agent_at(t)) == pre.agent_at(t) && post.seq_at(t)
            == pre.seq_at(t)
    &&& forall|t: int|
        start <= t < start + L ==> (#[trigger] post.agent_at(t)) == agent && post.seq_at(t)
            == e.version.seq + (t - start)
    // The store and arenas.
    &&& e.contents is Text
    &&& post.operations.entries() =~= rlv_push_spec(
        pre.operations.entries(),
        merged_kv(pre, e),
    )
    &&& post.ins_content@ =~= merged_ins(pre, e)
    &&& post.del_content@ =~= merged_del(pre, e)
    // The graph and the frontier.
    &&& post.history.inserted_shape(pre.history, resolved_parents(pre, e), span)
    &&& post.frontier@ =~= advance_spec(pre.frontier@, resolved_parents(pre, e), span)
}

/// A whole batch applied in order.
pub open spec fn merge_fold(pre: OpLog, post: OpLog, ops: Seq<ExtOp>) -> bool
    decreases ops.len(),
{
    if ops.len() == 0 {
        post == pre
    } else {
        exists|mid: OpLog|
            merge_fold(pre, mid, ops.drop_last()) && #[trigger] merge_step(
                mid,
                post,
                ops.last(),
            )
    }
}

/// The total unit length of a batch of external operations.
pub open spec fn ext_total_len(ops: Seq<ExtOp>) -> int
    decreases ops.len(),
{
    if ops.len() == 0 {
        0
    } else {
        ext_total_len(ops.drop_last()) + ext_text_len(ops.last())
    }
}

/// A batch prefix never exceeds the whole batch's unit length.
#[verifier::rlimit(100)]
proof fn lemma_ext_total_prefix(ops: Seq<ExtOp>, i: int)
    requires
        0 <= i <= ops.len(),
    ensures
        ext_total_len(ops.subrange(0, i)) <= ext_total_len(ops),
        ext_total_len(ops.subrange(0, i)) >= 0,
    decreases ops.len() - i,
{
    lemma_ext_total_nonneg(ops.subrange(0, i));
    if i < ops.len() {
        assert(ops.subrange(0, i + 1).drop_last() =~= ops.subrange(0, i));
        assert(ops.subrange(0, i + 1).last() == ops[i]);
        lemma_ext_total_prefix(ops, i + 1);
    } else {
        assert(ops.subrange(0, i) =~= ops);
    }
}

proof fn lemma_ext_total_nonneg(ops: Seq<ExtOp>)
    ensures
        ext_total_len(ops) >= 0,
    decreases ops.len(),
{
    if ops.len() > 0 {
        lemma_ext_total_nonneg(ops.drop_last());
    }
}

impl OpLog {
    /// Merge a batch of external operations: each becomes one pushed run
    /// under its remote-named agent and parents, in order. On an error the
    /// operations before the first inapplicable one stay applied.
    #[verifier::rlimit(100)]
    #[verifier::spinoff_prover]
    pub fn merge_ext_ops(&mut self, ops: &Vec<ExtOp>) -> (r: Result<(), MergeError>)
        requires
            old(self).wf(),
            old(self).len_spec() + ext_total_len(ops@) < ROOT_TIME,
            old(self).client_data@.len() + ops@.len() < ROOT_AGENT as int - 1,
        ensures
            final(self).wf(),
            r is Ok ==> merge_fold(*old(self), *final(self), ops@) && final(self).len_spec()
                == old(self).len_spec() + ext_total_len(ops@),
            r matches Err(er) ==> exists|j: int|
                0 <= j < ops@.len() && #[trigger] merge_fold(
                    *old(self),
                    *final(self),
                    ops@.subrange(0, j),
                ) && !merge_applicable(*final(self), ops@[j]) && er == merge_fail(
                    *final(self),
                    ops@[j],
                ),
    {
        let n = ops.len();
        proof {
            assert(ops@.subrange(0, 0) =~= Seq::<ExtOp>::empty());
        }
        let mut i: usize = 0;
        while i < n
            invariant
                self.wf(),
                n == ops@.len(),
                i <= n,
                merge_fold(*old(self), *self, ops@.subrange(0, i as int)),
                self.len_spec() == old(self).len_spec() + ext_total_len(
                    ops@.subrange(0, i as int),
                ),
                self.client_data@.len() <= old(self).client_data@.len() + i,
                old(self).len_spec() + ext_total_len(ops@) < ROOT_TIME,
                old(self).client_data@.len() + n < ROOT_AGENT as int - 1,
            decreases n - i,
        {
            let ghost pre = *self;
            let op = &ops[i];
            proof {
                lemma_ext_total_prefix(ops@, i as int);
                lemma_ext_total_prefix(ops@, i + 1);
                assert(ops@.subrange(0, i + 1).drop_last() =~= ops@.subrange(0, i as int));
                assert(ops@.subrange(0, i + 1).last() == ops@[i as int]);
            }
            if !str_eq(op.target.agent.as_str(), "ROOT") || op.target.seq != 0 {
                proof {
                    assert(!merge_applicable(*self, ops@[i as int]));
                }
                return Err(MergeError::UnsupportedTarget);
            }
            let text = match &op.contents {
                ExtOpContents::Text(t) => t,
                _ => {
                    proof {
                        assert(!merge_applicable(*self, ops@[i as int]));
                    }
                    return Err(MergeError::UnsupportedContents);
                },
            };
            // Resolve the parents against the current state.
            let mut lp: Vec<usize> = Vec::new();
            let np = op.parents.len();
            let mut j: usize = 0;
            let mut bad = false;
            while !bad && j < np
                invariant
                    self.wf(),
                    *self == pre,
                    np == op.parents@.len(),
                    op == ops@[i as int],
                    i < n == ops@.len(),
                    j <= np,
                    lp@.len() == j,
                    forall|jj: int|
                        0 <= jj < j ==> resolve_rv(pre, (#[trigger] op.parents@[jj])) is Some
                            && lp@[jj] == resolve_rv(pre, op.parents@[jj])->0,
                    bad ==> j < np && resolve_rv(pre, op.parents@[j as int]) is None,
                decreases np - j, (if bad {
                    0int
                } else {
                    1int
                }),
            {
                let rv = &op.parents[j];
                if str_eq(rv.agent.as_str(), "ROOT") {
                    lp.push(ROOT_TIME);
                    j = j + 1;
                } else {
                    match find_agent(&self.client_data, rv.agent.as_str()) {
                        Some(ag) => {
                            proof {
                                crate::eq::lemma_name_idx(self.client_data@, rv.agent@);
                                reveal(OpLog::maps_ok);
                            }
                            match self.client_data[ag].try_seq_to_time(rv.seq) {
                                Some(t) => {
                                    proof {
                                        assert(self.time_at(ag as int, rv.seq as int)
                                            == self.client_data@[ag as int].spec_seq_to_time(
                                            rv.seq as int,
                                        ));
                                    }
                                    lp.push(t);
                                    j = j + 1;
                                },
                                None => {
                                    bad = true;
                                },
                            }
                        },
                        None => {
                            bad = true;
                        },
                    }
                }
            }
            if bad {
                proof {
                    assert(!merge_applicable(*self, ops@[i as int]));
                    assert(merge_fail(*self, ops@[i as int]) == MergeError::MissingParent);
                }
                return Err(MergeError::MissingParent);
            }
            proof {
                assert(lp@ =~= op.parents@.map(
                    |jj: int, rv: RemoteVersion| resolve_rv(pre, rv)->0,
                ));
            }
            let sorted = sort_times(&lp);
            proof {
                lemma_sort_sorted_pub(lp@);
                assert(sorted@ =~= resolved_parents(pre, ops@[i as int]));
            }
            // The sorted parents must be a valid parents list here and now.
            let cur_len = self.len();
            let m = sorted.len();
            let mut ok = m >= 1;
            if m >= 1 {
                let mut k: usize = 1;
                while k < m
                    invariant
                        m == sorted@.len(),
                        1 <= k <= m,
                        self.wf(),
                        *self == pre,
                        ok == (forall|x: int|
                            1 <= x < k ==> sorted@[x - 1] < #[trigger] sorted@[x]),
                    decreases m - k,
                {
                    if sorted[k - 1] >= sorted[k] {
                        ok = false;
                    }
                    k = k + 1;
                }
            }
            if ok && m >= 1 {
                let top = sorted[m - 1];
                if top == ROOT_TIME {
                    if m > 1 {
                        ok = false;
                    }
                } else {
                    if top >= cur_len {
                        ok = false;
                    }
                }
            }
            proof {
                if ok {
                    if sorted@[m - 1] == ROOT_TIME && m == 1 {
                        assert(is_root_parents(sorted@));
                    } else {
                        assert forall|x: int, y: int|
                            0 <= x < y < sorted@.len() implies sorted@[x] < sorted@[y] by {
                            assert(sorted@[y - 1] < sorted@[y]);
                            if x < y - 1 {
                                assert(sorted@[x] <= sorted@[y - 1]);
                            }
                        }
                        assert forall|x: int|
                            0 <= x < sorted@.len() implies (#[trigger] sorted@[x] as int)
                            < self.len_spec() by {
                            if x < m - 1 {
                                assert(sorted@[x] <= sorted@[m - 1]);
                            }
                        }
                    }
                    assert(parents_valid(sorted@, self.len_spec()));
                } else {
                    assert(!parents_valid(sorted@, self.len_spec()));
                }
            }
            if !ok {
                proof {
                    assert(!merge_applicable(*self, ops@[i as int]));
                    assert(merge_fail(*self, ops@[i as int]) == MergeError::InvalidParents);
                }
                return Err(MergeError::InvalidParents);
            }
            // Resolve the version's agent name, without creating it yet.
            if str_eq(op.version.agent.as_str(), "ROOT") {
                proof {
                    assert(!merge_applicable(*self, ops@[i as int]));
                    assert(merge_fail(*self, ops@[i as int]) == MergeError::UnsupportedTarget);
                }
                return Err(MergeError::UnsupportedTarget);
            }
            let next = match find_agent(&self.client_data, op.version.agent.as_str()) {
                Some(g) => {
                    proof {
                        crate::eq::lemma_name_idx(self.client_data@, op.version.agent@);
                        reveal(OpLog::maps_ok);
                    }
                    self.client_data[g].get_next_seq()
                },
                None => 0,
            };
            if op.version.seq != next {
                proof {
                    assert(!merge_applicable(*self, ops@[i as int]));
                    assert(merge_fail(*self, ops@[i as int]) == MergeError::SeqMismatch);
                }
                return Err(MergeError::SeqMismatch);
            }
            if text.len > usize::MAX - text.pos {
                proof {
                    assert(!merge_applicable(*self, ops@[i as int]));
                    assert(merge_fail(*self, ops@[i as int]) == MergeError::TooLarge);
                }
                return Err(MergeError::TooLarge);
            }
            let content_ok = match &text.content {
                Some(c) => c.as_str().unicode_len() == text.len,
                None => !matches!(text.tag, InsDelTag::Ins),
            };
            if text.len == 0 || !content_ok {
                proof {
                    assert(!merge_applicable(*self, ops@[i as int]));
                    assert(merge_fail(*self, ops@[i as int]) == MergeError::UnsupportedContents);
                }
                return Err(MergeError::UnsupportedContents);
            }
            proof {
                assert(merge_applicable(*self, ops@[i as int]));
            }
            // Apply: ensure the agent, then push the run.
            let agent = self.get_or_create_agent_id(op.version.agent.as_str());
            let ghost s2 = *self;
            proof {
                crate::eq::lemma_name_idx(pre.client_data@, op.version.agent@);
            }
            let one = Operation {
                span: TimeSpanRev {
                    span: TimeSpan { start: text.pos, end: text.pos + text.len },
                    fwd: text.fwd,
                },
                tag: text.tag,
                content: match &text.content {
                    Some(c) => Some(c.clone()),
                    None => None,
                },
            };
            let batch = vec![one];
            proof {
                assert(batch@.len() == 1);
                assert(batch@[0] == one);
                assert(batch@.subrange(1, 1) =~= Seq::<Operation>::empty());
                assert(one.wf());
                assert(one.spec_len() == text.len);
                assert(total_len(batch@.subrange(1, batch@.len() as int)) == 0);
                assert(total_len(batch@) == text.len);
            }
            self.push_at(agent, sorted.as_slice(), batch.as_slice());
            proof {
                assert(ops@[i as int].contents->Text_0 == *text);
                assert(one.content == ops@[i as int].contents->Text_0.content);
                assert(batch@ =~= seq![
                    Operation {
                        span: TimeSpanRev {
                            span: TimeSpan {
                                start: text.pos,
                                end: (text.pos + text.len) as usize,
                            },
                            fwd: text.fwd,
                        },
                        tag: text.tag,
                        content: ops@[i as int].contents->Text_0.content,
                    },
                ]);
                match name_idx(pre.client_data@, op.version.agent@) {
                    Some(g) => {
                        assert(exists|jx: int|
                            0 <= jx < pre.client_data@.len() && name_chars(
                                (#[trigger] pre.client_data@[jx]).name,
                            ) == op.version.agent@) by {
                            assert(name_chars(pre.client_data@[g].name) == op.version.agent@);
                        }
                        assert(s2 == pre);
                        if (agent as int) < g {
                            assert(name_chars(pre.client_data@[agent as int].name)
                                == op.version.agent@);
                        } else if g < agent as int {
                            assert(name_chars(pre.client_data@[g].name) != op.version.agent@);
                        }
                        assert(agent as int == g);
                    },
                    None => {
                        assert(!(exists|jx: int|
                            0 <= jx < pre.client_data@.len() && name_chars(
                                (#[trigger] pre.client_data@[jx]).name,
                            ) == op.version.agent@));
                        assert(agent as int == pre.client_data@.len());
                    },
                }
                lemma_merge_step_holds(pre, s2, *self, ops@[i as int], agent as int, sorted@);
                assert(merge_fold(*old(self), *self, ops@.subrange(0, i + 1)));
            }
            i = i + 1;
        }
        proof {
            assert(ops@.subrange(0, n as int) =~= ops@);
        }
        Ok(())
    }
}

/// After ensuring the agent and pushing the run, one merge step holds.
#[verifier::rlimit(100)]
#[verifier::spinoff_prover]
proof fn lemma_merge_step_holds(
    pre: OpLog,
    s2: OpLog,
    post: OpLog,
    e: ExtOp,
    agent: int,
    parents: Seq<usize>,
)
    requires
        merge_applicable(pre, e),
        parents =~= resolved_parents(pre, e),
        // the agent step
        match name_idx(pre.client_data@, e.version.agent@) {
            Some(g) => s2 == pre && agent == g,
            None => {
                &&& agent == pre.client_data@.len()
                &&& s2.client_data@ == pre.client_data@.push(s2.client_data@[agent])
                &&& s2.next_seq_of(agent) == 0
                &&& name_chars(s2.client_data@[agent].name) == e.version.agent@
                &&& s2.client_with_localtime == pre.client_with_localtime
                &&& s2.operations == pre.operations
                &&& s2.ins_content == pre.ins_content
                &&& s2.del_content == pre.del_content
                &&& s2.history == pre.history
                &&& s2.frontier@ == pre.frontier@
            },
        },
        0 <= agent < s2.client_data@.len(),
        name_chars(s2.client_data@[agent].name) == e.version.agent@,
        s2.next_seq_of(agent) == e.version.seq,
        // the push step (push_at's ensures over s2)
        post.len_spec() == s2.len_spec() + ext_text_len(e),
        ({
            let text = e.contents->Text_0;
            let st = crate::oplog::store_fold(
                s2.operations.entries(),
                s2.ins_content@,
                s2.del_content@,
                s2.len_spec(),
                seq![
                    Operation {
                        span: TimeSpanRev {
                            span: TimeSpan {
                                start: text.pos,
                                end: (text.pos + text.len) as usize,
                            },
                            fwd: text.fwd,
                        },
                        tag: text.tag,
                        content: text.content,
                    },
                ],
            );
            post.operations.entries() =~= st.0 && post.ins_content@ =~= st.1
                && post.del_content@ =~= st.2
        }),
        crate::oplog::pushed_assignment(s2, post, agent),
        post.history.inserted_shape(
            s2.history,
            parents,
            TimeSpan {
                start: s2.len_spec() as usize,
                end: (s2.len_spec() + ext_text_len(e)) as usize,
            },
        ),
        post.frontier@ =~= advance_spec(
            s2.frontier@,
            parents,
            TimeSpan {
                start: s2.len_spec() as usize,
                end: (s2.len_spec() + ext_text_len(e)) as usize,
            },
        ),
        post.client_data@.len() == s2.client_data@.len(),
        forall|a: int|
            0 <= a < s2.client_data@.len() && a != agent ==> #[trigger] post.client_data@[a]
                == s2.client_data@[a],
        name_chars(post.client_data@[agent].name) == name_chars(s2.client_data@[agent].name),
        post.next_seq_of(agent) == s2.next_seq_of(agent) + ext_text_len(e),
    ensures
        merge_step(pre, post, e),
{
    let L = ext_text_len(e);
    let start = pre.len_spec();
    crate::eq::lemma_name_idx(pre.client_data@, e.version.agent@);
    assert(s2.len_spec() == pre.len_spec());
    assert(s2.operations == pre.operations);
    assert(s2.ins_content@ =~= pre.ins_content@);
    assert(s2.del_content@ =~= pre.del_content@);
    assert(s2.history == pre.history);
    assert(s2.frontier@ =~= pre.frontier@);
    let text = e.contents->Text_0;
    // Store and arena clauses: unfold the one-step fold.
    let one = Operation {
        span: TimeSpanRev {
            span: TimeSpan { start: text.pos, end: (text.pos + text.len) as usize },
            fwd: text.fwd,
        },
        tag: text.tag,
        content: text.content,
    };
    assert(seq![one][0] == one);
    assert(seq![one].subrange(1, 1) =~= Seq::<Operation>::empty());
    let arena_len = if text.tag is Ins {
        pre.ins_content@.len() as int
    } else {
        pre.del_content@.len() as int
    };
    let cp = match text.content {
        Some(c) => Some(TimeSpan { start: arena_len as usize, end: (arena_len + L) as usize }),
        None => None,
    };
    let kv = KVPair(
        start as usize,
        OperationInternal {
            span: TimeSpanRev {
                span: TimeSpan { start: text.pos, end: (text.pos + text.len) as usize },
                fwd: text.fwd,
            },
            tag: text.tag,
            content_pos: cp,
        },
    );
    let st = crate::oplog::store_fold(
        s2.operations.entries(),
        s2.ins_content@,
        s2.del_content@,
        s2.len_spec(),
        seq![one],
    );
    assert(one.spec_len() == L);
    crate::oplog::lemma_store_fold_one(
        s2.operations.entries(),
        s2.ins_content@,
        s2.del_content@,
        s2.len_spec(),
        one,
    );
    assert(st.0 =~= rlv_push_spec(s2.operations.entries(), kv));
    assert(post.operations.entries() =~= rlv_push_spec(pre.operations.entries(), kv));
    // Map clauses, bridged from s2 to pre.
    assert forall|t: int|
        0 <= t < start implies (#[trigger] post.agent_at(t)) == pre.agent_at(t) && post.seq_at(t)
        == pre.seq_at(t) by {
        assert(s2.agent_at(t) == pre.agent_at(t));
        assert(s2.seq_at(t) == pre.seq_at(t));
    }
    assert forall|t: int|
        start <= t < start + L implies (#[trigger] post.agent_at(t)) == agent && post.seq_at(t)
        == e.version.seq + (t - start) by {
        assert(s2.len_spec() <= t < post.len_spec());
    }
    match name_idx(pre.client_data@, e.version.agent@) {
        Some(g) => {},
        None => {
            assert forall|a: int|
                0 <= a < pre.client_data@.len() && a != agent
                    implies #[trigger] post.client_data@[a] == pre.client_data@[a] by {
                assert(s2.client_data@[a] == pre.client_data@[a]);
            }
        },
    }
    let span = TimeSpan { start: start as usize, end: (start + L) as usize };
    assert(post.history.inserted_shape(pre.history, resolved_parents(pre, e), span));
    assert(post.frontier@ =~= advance_spec(pre.frontier@, resolved_parents(pre, e), span));
    assert(st.1 =~= (if one.content is Some && one.tag is Ins {
        s2.ins_content@ + one.content->0@
    } else {
        s2.ins_content@
    }));
    assert(merge_applicable(pre, e));
    assert(post.len_spec() == start + L);
    assert(kv == merged_kv(pre, e));
    assert(post.operations.entries() =~= rlv_push_spec(pre.operations.entries(), merged_kv(pre, e)));
    assert(post.ins_content@ =~= merged_ins(pre, e));
    assert(post.del_content@ =~= merged_del(pre, e));
    assert(name_chars(post.client_data@[agent].name) == e.version.agent@);
    assert(post.next_seq_of(agent) == e.version.seq + L);
    match name_idx(pre.client_data@, e.version.agent@) {
        Some(g) => {
            assert(post.client_data@.len() == pre.client_data@.len());
        },
        None => {
            assert(post.client_data@.len() == pre.client_data@.len() + 1);
        },
    }
    assert(merge_step(pre, post, e));
}

} // verus!
