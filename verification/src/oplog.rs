//! The operation log: the append-only record of every operation, the
//! agent-space mapping, the causal graph, and the frontier, behind one type.

use vstd::prelude::*;
use crate::agent::{an_as_str, an_eq_str, name_chars, str_eq, ClientData, CRDTId, CRDTSpan};
use crate::frontier::{advance_spec, lemma_advance_shape, remove_all, sorted_strict, Frontier};
use crate::history::{is_root_parents, lemma_slow_after_insert, parents_valid, slow_frontier, History, MinimalHistoryEntry};
use crate::operation::{InsDelTag, Operation, OperationInternal};
use crate::rle::{end_of, lemma_idx_stable, rlv_push_spec, HasLength, KVPair, MergableSpan, RleKeyed, RleVec};
use crate::span::{TimeSpan, TimeSpanRev};
use crate::{AgentId, ROOT_AGENT, ROOT_TIME};

verus! {

/// The operation log of one replica.
#[derive(Debug)]
pub struct OpLog {
    pub client_data: Vec<ClientData>,
    pub client_with_localtime: RleVec<KVPair<CRDTSpan>>,
    pub operations: RleVec<KVPair<OperationInternal>>,
    pub ins_content: String,
    pub del_content: String,
    pub history: History,
    pub frontier: Frontier,
}

impl OpLog {
    /// The number of times assigned so far.
    pub open spec fn len_spec(self) -> int {
        self.client_with_localtime.total_end()
    }

    /// The agent that owns time `t`.
    pub open spec fn agent_at(self, t: int) -> int {
        self.client_with_localtime.entries()[self.client_with_localtime.spec_idx(t)].1.agent as int
    }

    /// The agent-local sequence number of time `t`.
    pub open spec fn seq_at(self, t: int) -> int {
        let e = self.client_with_localtime.entries()[self.client_with_localtime.spec_idx(t)];
        e.1.seq_range.start + (t - e.0)
    }

    /// How many sequence numbers remain in the agent run covering `t`,
    /// counted from `t` itself.
    pub open spec fn agent_run_remaining(self, t: int) -> int {
        let e = self.client_with_localtime.entries()[self.client_with_localtime.spec_idx(t)];
        e.1.seq_range.end - (e.1.seq_range.start + (t - e.0))
    }

    /// The time agent `a` was given for its sequence number `s`.
    pub open spec fn time_at(self, a: int, s: int) -> int {
        self.client_data[a].spec_seq_to_time(s)
    }

    /// One past the largest sequence number agent `a` has used.
    pub open spec fn next_seq_of(self, a: int) -> int {
        self.client_data[a].item_times.total_end()
    }

    /// The agent table and the inverse time map are exact mutual inverses.
    #[verifier::opaque]
    pub open spec fn maps_ok(self) -> bool {
        &&& self.client_with_localtime.wf()
        &&& forall|a: int| 0 <= a < self.client_data.len() ==> (#[trigger] self.client_data[a]).wf()
        &&& forall|a: int|
            0 <= a < self.client_data.len() ==> #[trigger] self.next_seq_of(a) <= self.len_spec()
        &&& forall|t: int|
            0 <= t < self.len_spec() ==> {
                &&& 0 <= #[trigger] self.agent_at(t) < self.client_data.len()
                &&& self.agent_at(t) != ROOT_AGENT as int
                &&& 0 <= self.seq_at(t) < self.next_seq_of(self.agent_at(t))
                &&& self.time_at(self.agent_at(t), self.seq_at(t)) == t
            }
        &&& forall|a: int, s: int|
            0 <= a < self.client_data.len() && 0 <= s < self.next_seq_of(a) ==> {
                &&& 0 <= #[trigger] self.time_at(a, s) < self.len_spec()
                &&& self.agent_at(self.time_at(a, s)) == a
                &&& self.seq_at(self.time_at(a, s)) == s
            }
    }

    /// Every stored operation's content range lies inside its arena.
    #[verifier::opaque]
    pub open spec fn ops_ok(self) -> bool {
        &&& self.operations.wf()
        &&& self.ins_content@.len() <= self.operations.total_end()
        &&& self.del_content@.len() <= self.operations.total_end()
        &&& forall|i: int|
            0 <= i < self.operations.entries().len() ==> {
                let op = (#[trigger] self.operations.entries()[i]).1;
                match op.content_pos {
                    Some(c) => c.end <= (if op.tag is Ins {
                        self.ins_content@.len()
                    } else {
                        self.del_content@.len()
                    }),
                    None => true,
                }
            }
    }

    /// The frontier is the lone ROOT sentinel on an empty log; afterwards a
    /// non-empty, strictly ascending set of assigned times.
    pub open spec fn frontier_ok(self) -> bool {
        if self.len_spec() == 0 {
            self.frontier@ =~= seq![ROOT_TIME]
        } else {
            &&& self.frontier@.len() > 0
            &&& sorted_strict(self.frontier@)
            &&& forall|k: int|
                0 <= k < self.frontier@.len() ==> (#[trigger] self.frontier@[k] as int)
                    < self.len_spec()
        }
    }

    /// No two agents carry the same name.
    pub open spec fn distinct_names(self) -> bool {
        forall|i: int, j: int|
            0 <= i < j < self.client_data@.len() ==> name_chars(
                (#[trigger] self.client_data@[i]).name,
            ) != name_chars((#[trigger] self.client_data@[j]).name)
    }

    /// The log's whole invariant.
    pub open spec fn wf(self) -> bool {
        &&& self.maps_ok()
        &&& self.distinct_names()
        &&& self.ops_ok()
        &&& self.history.wf()
        &&& self.operations.total_end() == self.len_spec()
        &&& self.history.entries.total_end() == self.len_spec()
        &&& self.len_spec() < ROOT_TIME
        &&& self.frontier_ok()
        &&& self.frontier@ =~= slow_frontier(self.history.entries.entries())
    }

    pub fn new() -> (r: OpLog)
        ensures
            r.wf(),
            r.len_spec() == 0,
            r.client_data@.len() == 0,
            r.frontier@ =~= seq![ROOT_TIME],
            r.ins_content@.len() == 0,
            r.del_content@.len() == 0,
    {
        let r = OpLog {
            client_data: Vec::new(),
            client_with_localtime: RleVec::new(),
            operations: RleVec::new(),
            ins_content: String::new(),
            del_content: String::new(),
            history: History::new(),
            frontier: Frontier::root(),
        };
        proof {
            reveal(OpLog::maps_ok);
            reveal(OpLog::ops_ok);
            assert(r.history.entries.entries() =~= Seq::<crate::history::HistoryEntry>::empty());
            assert(slow_frontier(r.history.entries.entries()) =~= seq![ROOT_TIME]);
        }
        r
    }

    /// The number of operation-units recorded.
    pub fn len(&self) -> (r: usize)
        requires
            self.wf(),
        ensures
            r == self.len_spec(),
    {
        proof {
            reveal(OpLog::maps_ok);
        }
        self.client_with_localtime.total_len()
    }

    pub fn is_empty(&self) -> (r: bool)
        requires
            self.wf(),
        ensures
            r == (self.len_spec() == 0),
    {
        proof {
            reveal(OpLog::maps_ok);
            if self.client_with_localtime.entries().len() > 0 {
                self.client_with_localtime.lemma_entry_facts(
                    self.client_with_localtime.entries().len() - 1,
                );
            }
        }
        self.client_with_localtime.is_empty()
    }

    /// The id under which `name` is known, if any: the first agent with that
    /// name.
    pub fn get_agent_id(&self, name: &str) -> (r: Option<AgentId>)
        requires
            self.client_data@.len() < ROOT_AGENT as int,
        ensures
            match r {
                Some(id) => id == ROOT_AGENT <==> name@ == "ROOT"@,
                None => true,
            },
            name@ == "ROOT"@ ==> r == Some(ROOT_AGENT),
            name@ != "ROOT"@ ==> match r {
                Some(id) => (id as int) < self.client_data@.len() && name_chars(
                    self.client_data@[id as int].name,
                ) == name@ && forall|j: int|
                    0 <= j < id ==> name_chars((#[trigger] self.client_data@[j]).name) != name@,
                None => forall|j: int|
                    0 <= j < self.client_data@.len() ==> name_chars(
                        (#[trigger] self.client_data@[j]).name,
                    ) != name@,
            },
    {
        proof {
            reveal_strlit("ROOT");
        }
        if str_eq(name, "ROOT") {
            return Some(ROOT_AGENT);
        }
        let n = self.client_data.len();
        let mut i: usize = 0;
        while i < n
            invariant
                n == self.client_data@.len(),
                n < ROOT_AGENT as int,
                i <= n,
                name@ != "ROOT"@,
                forall|j: int|
                    0 <= j < i ==> name_chars((#[trigger] self.client_data@[j]).name) != name@,
            decreases n - i,
        {
            if an_eq_str(&self.client_data[i].name, name) {
                return Some(i as AgentId);
            }
            i = i + 1;
        }
        None
    }

    /// The id under which `name` is known, creating a fresh agent when it is
    /// not. `"ROOT"` always resolves to the reserved root agent.
    pub fn get_or_create_agent_id(&mut self, name: &str) -> (r: AgentId)
        requires
            old(self).wf(),
            old(self).client_data@.len() < ROOT_AGENT as int - 1,
        ensures
            final(self).wf(),
            name@ == "ROOT"@ ==> r == ROOT_AGENT && *final(self) == *old(self),
            name@ != "ROOT"@ ==> {
                &&& (r as int) < final(self).client_data@.len()
                &&& name_chars(final(self).client_data@[r as int].name) == name@
                &&& forall|j: int|
                    0 <= j < r ==> name_chars((#[trigger] old(self).client_data@[j]).name) != name@
                &&& final(self).len_spec() == old(self).len_spec()
                &&& final(self).frontier@ == old(self).frontier@
                &&& final(self).history == old(self).history
                &&& final(self).operations == old(self).operations
                &&& final(self).ins_content == old(self).ins_content
                &&& final(self).del_content == old(self).del_content
                &&& final(self).client_with_localtime == old(self).client_with_localtime
                &&& if exists|j: int|
                    0 <= j < old(self).client_data@.len() && name_chars(
                        (#[trigger] old(self).client_data@[j]).name,
                    ) == name@ {
                    *final(self) == *old(self)
                } else {
                    &&& final(self).client_data@ == old(self).client_data@.push(
                        final(self).client_data@[r as int],
                    )
                    &&& r as int == old(self).client_data@.len()
                    &&& final(self).next_seq_of(r as int) == 0
                }
            },
    {
        match self.get_agent_id(name) {
            Some(id) => id,
            None => {
                let cd = ClientData::new(name);
                self.client_data.push(cd);
                proof {
                    lemma_wf_more_agents(*old(self), *self);
                }
                (self.client_data.len() - 1) as AgentId
            },
        }
    }

    /// The name of an agent id.
    pub fn get_agent_name(&self, agent: AgentId) -> (r: &str)
        requires
            agent == ROOT_AGENT || (agent as int) < self.client_data@.len(),
        ensures
            agent == ROOT_AGENT ==> r@ == "ROOT"@,
            agent != ROOT_AGENT ==> r@ == name_chars(self.client_data@[agent as int].name),
    {
        if agent == ROOT_AGENT {
            "ROOT"
        } else {
            an_as_str(&self.client_data[agent as usize].name)
        }
    }

    /// The `(agent, seq)` pair naming time `time`.
    pub fn time_to_crdt_id(&self, time: usize) -> (r: CRDTId)
        requires
            self.wf(),
            time == ROOT_TIME || (time as int) < self.len_spec(),
        ensures
            time == ROOT_TIME ==> r == (CRDTId { agent: ROOT_AGENT, seq: 0 }),
            time != ROOT_TIME ==> r.agent == self.agent_at(time as int) && r.seq == self.seq_at(
                time as int,
            ),
    {
        if time == ROOT_TIME {
            CRDTId { agent: ROOT_AGENT, seq: 0 }
        } else {
            proof {
                reveal(OpLog::maps_ok);
                self.client_with_localtime.lemma_idx(time as int);
            }
            let (loc, offset) = self.client_with_localtime.find_packed_with_offset(time);
            loc.1.at_offset(offset)
        }
    }

    /// The local time known under `(agent, seq)`, if any.
    pub fn try_crdt_id_to_time(&self, id: CRDTId) -> (r: Option<usize>)
        requires
            self.wf(),
            id.agent == ROOT_AGENT || (id.agent as int) < self.client_data@.len(),
        ensures
            id.agent == ROOT_AGENT ==> r == Some(ROOT_TIME),
            id.agent != ROOT_AGENT ==> match r {
                Some(t) => (id.seq as int) < self.next_seq_of(id.agent as int) && t == self.time_at(
                    id.agent as int,
                    id.seq as int,
                ),
                None => (id.seq as int) >= self.next_seq_of(id.agent as int),
            },
    {
        if id.agent == ROOT_AGENT {
            Some(ROOT_TIME)
        } else {
            proof {
                reveal(OpLog::maps_ok);
            }
            self.client_data[id.agent as usize].try_seq_to_time(id.seq)
        }
    }

    /// The local time known under `(agent, seq)`.
    pub fn crdt_id_to_time(&self, id: CRDTId) -> (r: usize)
        requires
            self.wf(),
            id.agent == ROOT_AGENT || ((id.agent as int) < self.client_data@.len() && (
            id.seq as int) < self.next_seq_of(id.agent as int)),
        ensures
            id.agent == ROOT_AGENT ==> r == ROOT_TIME,
            id.agent != ROOT_AGENT ==> r == self.time_at(id.agent as int, id.seq as int),
    {
        if id.agent == ROOT_AGENT {
            ROOT_TIME
        } else {
            proof {
                reveal(OpLog::maps_ok);
            }
            self.client_data[id.agent as usize].seq_to_time(id.seq)
        }
    }

    /// The contiguous agent run starting at `time.start`, clipped to one
    /// agent run and to `time`'s length.
    pub fn get_crdt_span(&self, time: TimeSpan) -> (r: CRDTSpan)
        requires
            self.wf(),
            time.start < time.end,
            time.end <= self.len_spec(),
        ensures
            r.agent == self.agent_at(time.start as int),
            r.seq_range.start == self.seq_at(time.start as int),
            r.seq_range.start < r.seq_range.end,
            r.seq_range.spec_len() == (if time.spec_len() <= self.agent_run_remaining(
                time.start as int,
            ) {
                time.spec_len() as int
            } else {
                self.agent_run_remaining(time.start as int)
            }),
            forall|k: int|
                0 <= k < r.seq_range.spec_len() ==> self.agent_at(time.start + k) == r.agent as int
                    && #[trigger] self.seq_at(time.start + k) == r.seq_range.start + k,
    {
        proof {
            reveal(OpLog::maps_ok);
            self.client_with_localtime.lemma_idx(time.start as int);
            self.client_with_localtime.lemma_entry_facts(
                self.client_with_localtime.spec_idx(time.start as int),
            );
        }
        let (loc, offset) = self.client_with_localtime.find_packed_with_offset(time.start);
        let start = loc.1.seq_range.start + offset;
        let seq_end = loc.1.seq_range.end;
        let avail = seq_end - start;
        let want = time.end - time.start;
        let end = if avail < want {
            start + avail
        } else {
            start + want
        };
        proof {
            let i = self.client_with_localtime.spec_idx(time.start as int);
            assert forall|k: int| 0 <= k < end - start implies self.agent_at(time.start + k)
                == loc.1.agent as int && #[trigger] self.seq_at(time.start + k) == start + k by {
                self.client_with_localtime.lemma_idx(time.start + k);
                assert(self.client_with_localtime.spec_covers(i, time.start + k));
            }
        }
        CRDTSpan { agent: loc.1.agent, seq_range: TimeSpan { start, end } }
    }

    /// The current frontier.
    pub fn get_frontier(&self) -> (r: &Frontier)
        ensures
            r@ == self.frontier@,
    {
        &self.frontier
    }

    /// A plain copy of every history run, in index order.
    pub fn iter_history(&self) -> (r: Vec<MinimalHistoryEntry>)
        requires
            self.wf(),
        ensures
            r@.len() == self.history.entries.entries().len(),
            forall|i: int|
                0 <= i < r@.len() ==> (#[trigger] r@[i]).span == self.history.entries.entries()[
                    i
                ].span && r@[i].parents@ == self.history.entries.entries()[i].parents@,
    {
        let n = self.history.entries.num_entries();
        let mut out: Vec<MinimalHistoryEntry> = Vec::new();
        let mut i: usize = 0;
        while i < n
            invariant
                self.wf(),
                n == self.history.entries.entries().len(),
                i <= n,
                out@.len() == i,
                forall|j: int|
                    0 <= j < i ==> (#[trigger] out@[j]).span == self.history.entries.entries()[
                        j
                    ].span && out@[j].parents@ == self.history.entries.entries()[j].parents@,
            decreases n - i,
        {
            let e = &self.history.entries.0[i];
            out.push(MinimalHistoryEntry { span: e.span, parents: e.parents.as_vec() });
            i = i + 1;
        }
        out
    }

    /// The arena holding content for operations of this kind.
    pub fn content_str(&self, tag: InsDelTag) -> (r: &str)
        ensures
            tag is Ins ==> r@ == self.ins_content@,
            tag is Del ==> r@ == self.del_content@,
    {
        match tag {
            InsDelTag::Ins => self.ins_content.as_str(),
            InsDelTag::Del => self.del_content.as_str(),
        }
    }
}

/// The total unit length of a batch of operations.
pub open spec fn total_len(ops: Seq<Operation>) -> int
    decreases ops.len(),
{
    if ops.len() == 0 {
        0
    } else {
        ops[0].spec_len() + total_len(ops.subrange(1, ops.len() as int))
    }
}

/// The store (operation runs and both arenas) after a batch of operations
/// is recorded starting at time `t`.
pub open spec fn store_fold(
    es: Seq<KVPair<OperationInternal>>,
    ins: Seq<char>,
    del: Seq<char>,
    t: int,
    ops: Seq<Operation>,
) -> (Seq<KVPair<OperationInternal>>, Seq<char>, Seq<char>)
    decreases ops.len(),
{
    if ops.len() == 0 {
        (es, ins, del)
    } else {
        let op = ops[0];
        let arena_len = if op.tag is Ins {
            ins.len() as int
        } else {
            del.len() as int
        };
        let cp = match op.content {
            Some(c) => Some(
                TimeSpan { start: arena_len as usize, end: (arena_len + op.spec_len()) as usize },
            ),
            None => None,
        };
        let kv = KVPair(t as usize, OperationInternal { span: op.span, tag: op.tag, content_pos: cp });
        let es2 = rlv_push_spec(es, kv);
        let ins2 = if op.content is Some && op.tag is Ins {
            ins + op.content->0@
        } else {
            ins
        };
        let del2 = if op.content is Some && op.tag is Del {
            del + op.content->0@
        } else {
            del
        };
        store_fold(es2, ins2, del2, t + op.spec_len(), ops.subrange(1, ops.len() as int))
    }
}

/// How a push relates the two maps: earlier times resolve as before, the
/// fresh range belongs to `agent` with consecutive new sequence numbers.
pub open spec fn pushed_assignment(pre: OpLog, post: OpLog, agent: int) -> bool {
    &&& forall|t: int|
        0 <= t < pre.len_spec() ==> (#[trigger] post.agent_at(t)) == pre.agent_at(t)
            && post.seq_at(t) == pre.seq_at(t)
    &&& forall|t: int|
        pre.len_spec() <= t < post.len_spec() ==> (#[trigger] post.agent_at(t)) == agent
            && post.seq_at(t) == pre.next_seq_of(agent) + (t - pre.len_spec())
}

impl OpLog {
    /// Record one operation's span and content at time `next_time`.
    #[verifier::rlimit(100)]
    fn push_op_internal(
        &mut self,
        next_time: usize,
        span: TimeSpanRev,
        tag: InsDelTag,
        content: Option<&str>,
    )
        requires
            old(self).ops_ok(),
            next_time == old(self).operations.total_end(),
            span.wf(),
            span.span.start < span.span.end,
            next_time + (span.span.end - span.span.start) <= usize::MAX,
            match content {
                Some(c) => c@.len() == span.span.spec_len(),
                None => true,
            },
        ensures
            final(self).ops_ok(),
            final(self).operations.total_end() == next_time + (span.span.end - span.span.start),
            final(self).operations.entries() =~= rlv_push_spec(
                old(self).operations.entries(),
                KVPair(
                    next_time,
                    OperationInternal {
                        span,
                        tag,
                        content_pos: match content {
                            Some(c) => Some(
                                TimeSpan {
                                    start: (if tag is Ins {
                                        old(self).ins_content@.len()
                                    } else {
                                        old(self).del_content@.len()
                                    }) as usize,
                                    end: ((if tag is Ins {
                                        old(self).ins_content@.len()
                                    } else {
                                        old(self).del_content@.len()
                                    }) + span.span.spec_len()) as usize,
                                },
                            ),
                            None => None,
                        },
                    },
                ),
            ),
            final(self).ins_content@ == (match content {
                Some(c) => if tag is Ins {
                    old(self).ins_content@ + c@
                } else {
                    old(self).ins_content@
                },
                None => old(self).ins_content@,
            }),
            final(self).del_content@ == (match content {
                Some(c) => if tag is Del {
                    old(self).del_content@ + c@
                } else {
                    old(self).del_content@
                },
                None => old(self).del_content@,
            }),
            final(self).ins_content@.len() <= final(self).operations.total_end(),
            final(self).del_content@.len() <= final(self).operations.total_end(),
            final(self).client_data == old(self).client_data,
            final(self).client_with_localtime == old(self).client_with_localtime,
            final(self).history == old(self).history,
            final(self).frontier == old(self).frontier,
    {
        proof {
            reveal(OpLog::ops_ok);
        }
        let content_pos = match content {
            Some(c) => {
                let span_len = span.span.len();
                let start = if matches!(tag, InsDelTag::Ins) {
                    let start = self.ins_content.unicode_len();
                    self.ins_content.append(c);
                    start
                } else {
                    let start = self.del_content.unicode_len();
                    self.del_content.append(c);
                    start
                };
                Some(TimeSpan { start, end: start + span_len })
            },
            None => None,
        };
        let kv = KVPair(next_time, OperationInternal { span, tag, content_pos });
        self.operations.push(kv);
        proof {
            reveal(OpLog::ops_ok);
        }
    }
}

impl OpLog {
    /// Assign the time span to the named agent: both sides of the agent map
    /// grow by one run.
    #[verifier::rlimit(100)]
    #[verifier::spinoff_prover]
    fn assign_next_time_to_client_known(&mut self, agent: AgentId, span: TimeSpan)
        requires
            old(self).maps_ok(),
            0 <= (agent as int) < old(self).client_data@.len(),
            agent != ROOT_AGENT,
            span.start == old(self).len_spec(),
            span.start < span.end,
            span.end <= usize::MAX,
            old(self).next_seq_of(agent as int) <= old(self).len_spec(),
        ensures
            final(self).maps_ok(),
            final(self).len_spec() == span.end,
            final(self).client_data@.len() == old(self).client_data@.len(),
            forall|t: int|
                0 <= t < span.start ==> (#[trigger] final(self).agent_at(t)) == old(self).agent_at(t)
                    && final(self).seq_at(t) == old(self).seq_at(t),
            forall|t: int|
                span.start <= t < span.end ==> (#[trigger] final(self).agent_at(t)) == agent as int
                    && final(self).seq_at(t) == old(self).next_seq_of(agent as int) + (t
                    - span.start),
            forall|a: int|
                0 <= a < old(self).client_data@.len() && a != agent as int
                    ==> #[trigger] final(self).client_data@[a] == old(self).client_data@[a],
            final(self).next_seq_of(agent as int) == old(self).next_seq_of(agent as int)
                + span.spec_len(),
            name_chars(final(self).client_data@[agent as int].name) == name_chars(
                old(self).client_data@[agent as int].name,
            ),
            final(self).operations == old(self).operations,
            final(self).ins_content == old(self).ins_content,
            final(self).del_content == old(self).del_content,
            final(self).history == old(self).history,
            final(self).frontier == old(self).frontier,
    {
        proof {
            reveal(OpLog::maps_ok);
        }
        let ghost pre = *self;
        let mut cd = self.client_data.remove(agent as usize);
        let next_seq = cd.get_next_seq();
        cd.item_times.push(KVPair(next_seq, span));
        self.client_data.insert(agent as usize, cd);
        proof {
            assert(self.client_data@ =~= pre.client_data@.update(
                agent as int,
                self.client_data@[agent as int],
            ));
        }
        self.client_with_localtime.push(
            KVPair(
                span.start,
                CRDTSpan {
                    agent,
                    seq_range: TimeSpan { start: next_seq, end: next_seq + (span.end - span.start) },
                },
            ),
        );
        proof {
            lemma_assign_maps(pre, *self, agent as int, span);
        }
    }

    /// Advance the frontier over a run whose parents it contains.
    fn advance_frontier(&mut self, parents: &[usize], span: TimeSpan)
        requires
            span.start < span.end,
            sorted_strict(old(self).frontier@),
        ensures
            final(self).frontier@ =~= advance_spec(old(self).frontier@, parents@, span),
            final(self).client_data == old(self).client_data,
            final(self).client_with_localtime == old(self).client_with_localtime,
            final(self).operations == old(self).operations,
            final(self).ins_content == old(self).ins_content,
            final(self).del_content == old(self).del_content,
            final(self).history == old(self).history,
    {
        if parents.len() == 1 && self.frontier.len() == 1 && parents[0] == self.frontier.get(0) {
            let ghost f = self.frontier@;
            self.frontier.set_single(span.last());
            proof {
                assert(f.len() == 1);
                assert(parents@[0] == f[0]);
                assert(f.last() == f[0]);
                assert(parents@.contains(f.last()));
                assert(f.drop_last() =~= Seq::<usize>::empty());
                assert(remove_all(f.drop_last(), parents@) =~= Seq::<usize>::empty());
                assert(remove_all(f, parents@) =~= Seq::<usize>::empty());
                assert(self.frontier@ =~= advance_spec(f, parents@, span));
            }
        } else {
            self.frontier.advance_by_known_run(parents, span);
        }
    }

    /// Assign the span to the agent, append the history run, and advance the
    /// frontier: the bookkeeping shared by every push.
    #[verifier::rlimit(100)]
    #[verifier::spinoff_prover]
    fn assign_internal(&mut self, agent: AgentId, parents: &[usize], span: TimeSpan)
        requires
            old(self).maps_ok(),
            old(self).distinct_names(),
            old(self).ops_ok(),
            old(self).history.wf(),
            old(self).frontier_ok(),
            old(self).frontier@ =~= slow_frontier(old(self).history.entries.entries()),
            0 <= (agent as int) < old(self).client_data@.len(),
            agent != ROOT_AGENT,
            span.start == old(self).len_spec(),
            span.start < span.end,
            span.end < ROOT_TIME,
            old(self).operations.total_end() == span.end,
            old(self).history.entries.total_end() == span.start,
            old(self).next_seq_of(agent as int) <= old(self).len_spec(),
            parents_valid(parents@, span.start as int),
        ensures
            final(self).wf(),
            final(self).len_spec() == span.end,
            final(self).client_data@.len() == old(self).client_data@.len(),
            pushed_assignment(*old(self), *final(self), agent as int),
            forall|a: int|
                0 <= a < old(self).client_data@.len() && a != agent as int
                    ==> #[trigger] final(self).client_data@[a] == old(self).client_data@[a],
            final(self).next_seq_of(agent as int) == old(self).next_seq_of(agent as int)
                + span.spec_len(),
            name_chars(final(self).client_data@[agent as int].name) == name_chars(
                old(self).client_data@[agent as int].name,
            ),
            final(self).history.inserted_shape(old(self).history, parents@, span),
            final(self).frontier@ =~= advance_spec(old(self).frontier@, parents@, span),
            final(self).operations == old(self).operations,
            final(self).ins_content == old(self).ins_content,
            final(self).del_content == old(self).del_content,
    {
        self.assign_next_time_to_client_known(agent, span);
        let ghost s1 = *self;
        self.history.insert(parents, span);
        proof {
            if old(self).len_spec() == 0 {
                assert(old(self).frontier@.contains(ROOT_TIME)) by {
                    assert(old(self).frontier@[0] == ROOT_TIME);
                }
                assert(parents@.contains(ROOT_TIME)) by {
                    if !is_root_parents(parents@) {
                        assert(parents@.len() > 0);
                        assert(parents@[0] < span.start);
                    }
                    assert(parents@[0] == ROOT_TIME);
                }
            }
            lemma_advance_shape(old(self).frontier@, parents@, span);
        }
        self.advance_frontier(parents, span);
        proof {
            lemma_maps_same(s1, *self);
            lemma_ops_same(*old(self), *self);
            assert forall|i: int, j: int|
                0 <= i < j < self.client_data@.len() implies name_chars(
                (#[trigger] self.client_data@[i]).name,
            ) != name_chars((#[trigger] self.client_data@[j]).name) by {
                if i == agent as int {
                } else {
                    assert(self.client_data@[i] == old(self).client_data@[i]);
                }
                if j == agent as int {
                } else {
                    assert(self.client_data@[j] == old(self).client_data@[j]);
                }
                assert(name_chars(self.client_data@[i].name) == name_chars(
                    old(self).client_data@[i].name,
                ));
                assert(name_chars(self.client_data@[j].name) == name_chars(
                    old(self).client_data@[j].name,
                ));
            }
            assert(pushed_assignment(*old(self), *self, agent as int)) by {
                assert forall|t: int|
                    0 <= t < old(self).len_spec() implies (#[trigger] self.agent_at(t)) == old(self).agent_at(t) && self.seq_at(t) == old(self).seq_at(t) by {
                    assert(self.agent_at(t) == s1.agent_at(t));
                    assert(self.seq_at(t) == s1.seq_at(t));
                }
                assert forall|t: int|
                    old(self).len_spec() <= t < self.len_spec() implies (
                #[trigger] self.agent_at(t)) == agent as int && self.seq_at(t) == old(self).next_seq_of(agent as int) + (t - old(self).len_spec()) by {
                    assert(self.agent_at(t) == s1.agent_at(t));
                    assert(self.seq_at(t) == s1.seq_at(t));
                }
            }
            if old(self).len_spec() > 0 {
                assert forall|k: int|
                    0 <= k < old(self).frontier@.len() implies (#[trigger] old(self).frontier@[k] as int) < span.start || old(self).frontier@[k] == ROOT_TIME by {}
                if old(self).frontier@.contains(ROOT_TIME) {
                    let w = choose|w: int|
                        0 <= w < old(self).frontier@.len() && old(self).frontier@[w] == ROOT_TIME;
                    assert(false);
                }
            }
            lemma_slow_after_insert(old(self).history, self.history, parents@, span);
            assert(self.frontier@ =~= slow_frontier(self.history.entries.entries()));
        }
    }
}

/// How the two lookups behave after the push: old times and sequence
/// numbers resolve as before; the fresh run resolves to the new assignment.
#[verifier::rlimit(100)]
#[verifier::spinoff_prover]
proof fn lemma_assign_lookups(pre: OpLog, post: OpLog, agent: int, span: TimeSpan)
    requires
        pre.maps_ok(),
        0 <= agent < pre.client_data@.len(),
        0 <= agent < ROOT_AGENT as int,
        span.start == pre.len_spec(),
        span.start < span.end,
        span.end <= usize::MAX,
        pre.next_seq_of(agent) <= pre.len_spec(),
        post.client_data@.len() == pre.client_data@.len(),
        forall|a: int|
            0 <= a < pre.client_data@.len() && a != agent ==> #[trigger] post.client_data@[a]
                == pre.client_data@[a],
        post.client_data@[agent].name == pre.client_data@[agent].name,
        post.client_data@[agent].wf(),
        post.client_data@[agent].item_times.entries() =~= rlv_push_spec(
            pre.client_data@[agent].item_times.entries(),
            KVPair(pre.next_seq_of(agent) as usize, span),
        ),
        post.client_data@[agent].item_times.total_end() == pre.next_seq_of(agent)
            + span.spec_len(),
        post.client_with_localtime.wf(),
        post.client_with_localtime.entries() =~= rlv_push_spec(
            pre.client_with_localtime.entries(),
            KVPair(
                span.start,
                CRDTSpan {
                    agent: agent as AgentId,
                    seq_range: TimeSpan {
                        start: pre.next_seq_of(agent) as usize,
                        end: (pre.next_seq_of(agent) + span.spec_len()) as usize,
                    },
                },
            ),
        ),
        post.client_with_localtime.total_end() == span.end,
    ensures
        forall|t: int|
            0 <= t < span.start ==> (#[trigger] post.agent_at(t)) == pre.agent_at(t) && post.seq_at(
                t,
            ) == pre.seq_at(t),
        forall|t: int|
            span.start <= t < span.end ==> (#[trigger] post.agent_at(t)) == agent && post.seq_at(t)
                == pre.next_seq_of(agent) + (t - span.start),
        forall|s: int|
            0 <= s < pre.next_seq_of(agent) ==> (#[trigger] post.time_at(agent, s)) == pre.time_at(
                agent,
                s,
            ),
        forall|s: int|
            pre.next_seq_of(agent) <= s < pre.next_seq_of(agent) + span.spec_len()
                ==> #[trigger] post.time_at(agent, s) == span.start + (s - pre.next_seq_of(
                agent,
            )),
{
    reveal(OpLog::maps_ok);
    let next = pre.next_seq_of(agent);
    let n = pre.client_with_localtime.entries().len() as int;
    let cw_pre = pre.client_with_localtime;
    let cw = post.client_with_localtime;
    // Keys kept, ends only grow, on both maps.
    assert forall|i: int|
        0 <= i < n implies (#[trigger] cw.entries()[i]).spec_rle_key()
            == cw_pre.entries()[i].spec_rle_key() && end_of(cw.entries()[i]) >= end_of(
            cw_pre.entries()[i],
        ) && cw.entries()[i].1.agent == cw_pre.entries()[i].1.agent && cw.entries()[
        i
    ].1.seq_range.start == cw_pre.entries()[i].1.seq_range.start by {}
    assert forall|t: int|
        0 <= t < span.start implies (#[trigger] post.agent_at(t)) == pre.agent_at(t) && post.seq_at(
        t,
    ) == pre.seq_at(t) by {
        lemma_idx_stable(cw_pre, cw, t);
        cw_pre.lemma_idx(t);
    }
    let kvc = KVPair(
        span.start,
        CRDTSpan {
            agent: agent as AgentId,
            seq_range: TimeSpan {
                start: next as usize,
                end: (next + span.spec_len()) as usize,
            },
        },
    );
    assert forall|t: int|
        span.start <= t < span.end implies (#[trigger] post.agent_at(t)) == agent && post.seq_at(t)
            == next + (t - span.start) by {
        cw.lemma_idx(t);
        if n > 0 {
            cw_pre.lemma_entry_facts(n - 1);
        }
        if n > 0 && cw_pre.entries()[n - 1].spec_can_append(&kvc) {
            let merged = cw_pre.entries()[n - 1].spec_append(&kvc);
            assert(cw.entries() =~= cw_pre.entries().update(n - 1, merged));
            assert(merged.spec_rle_key() == cw_pre.entries()[n - 1].spec_rle_key());
            assert(merged.1.seq_range.start == cw_pre.entries()[n - 1].1.seq_range.start);
            assert(merged.1.seq_range.end == kvc.1.seq_range.end);
            assert(end_of(merged) == span.end);
            assert(cw.spec_covers(n - 1, t));
            assert(cw.spec_idx(t) == n - 1);
            assert(merged.1.agent == agent as AgentId);
            assert(post.agent_at(t) == merged.1.agent as int);
            assert(post.seq_at(t) == merged.1.seq_range.start + (t - merged.spec_rle_key()));
            assert(post.seq_at(t) == next + (t - span.start));
        } else {
            assert(cw.entries() =~= cw_pre.entries().push(kvc));
            assert(cw.entries()[n] == kvc);
            assert(cw.spec_covers(n, t));
            assert(cw.spec_idx(t) == n);
            assert(post.agent_at(t) == kvc.1.agent as int);
            assert(post.seq_at(t) == next + (t - span.start));
        }
    }
    // Per-agent table: stability and the new run.
    let it_pre = pre.client_data@[agent].item_times;
    let it = post.client_data@[agent].item_times;
    assert forall|i: int|
        0 <= i < it_pre.entries().len() implies (#[trigger] it.entries()[i]).spec_rle_key()
            == it_pre.entries()[i].spec_rle_key() && end_of(it.entries()[i]) >= end_of(
            it_pre.entries()[i],
        ) && it.entries()[i].1.start == it_pre.entries()[i].1.start by {}
    assert forall|s: int| 0 <= s < next implies #[trigger] post.time_at(agent, s) == pre.time_at(
        agent,
        s,
    ) by {
        lemma_idx_stable(it_pre, it, s);
        it_pre.lemma_idx(s);
    }
    let kvt = KVPair(next as usize, span);
    let m = it_pre.entries().len() as int;
    assert forall|s: int| next <= s < next + span.spec_len() implies #[trigger] post.time_at(
        agent,
        s,
    ) == span.start + (s - next) by {
        it.lemma_idx(s);
        if m > 0 {
            it_pre.lemma_entry_facts(m - 1);
        }
        if m > 0 && it_pre.entries()[m - 1].spec_can_append(&kvt) {
            let merged = it_pre.entries()[m - 1].spec_append(&kvt);
            assert(it.entries() =~= it_pre.entries().update(m - 1, merged));
            assert(merged.spec_rle_key() == it_pre.entries()[m - 1].spec_rle_key());
            assert(merged.1.start == it_pre.entries()[m - 1].1.start);
            assert(merged.1.end == span.end);
            assert(end_of(merged) == next + span.spec_len());
            assert(it.spec_covers(m - 1, s));
        } else {
            assert(it.entries() =~= it_pre.entries().push(kvt));
            assert(it.entries()[m] == kvt);
            assert(it.spec_covers(m, s));
        }
    }
}

/// Pushing a fresh agent run onto both maps keeps them mutual inverses.
#[verifier::rlimit(100)]
#[verifier::spinoff_prover]
proof fn lemma_assign_maps(pre: OpLog, post: OpLog, agent: int, span: TimeSpan)
    requires
        pre.maps_ok(),
        0 <= agent < pre.client_data@.len(),
        0 <= agent < ROOT_AGENT as int,
        span.start == pre.len_spec(),
        span.start < span.end,
        span.end <= usize::MAX,
        pre.next_seq_of(agent) <= pre.len_spec(),
        post.client_data@.len() == pre.client_data@.len(),
        forall|a: int|
            0 <= a < pre.client_data@.len() && a != agent ==> #[trigger] post.client_data@[a]
                == pre.client_data@[a],
        post.client_data@[agent].name == pre.client_data@[agent].name,
        post.client_data@[agent].wf(),
        post.client_data@[agent].item_times.entries() =~= rlv_push_spec(
            pre.client_data@[agent].item_times.entries(),
            KVPair(pre.next_seq_of(agent) as usize, span),
        ),
        post.client_data@[agent].item_times.total_end() == pre.next_seq_of(agent)
            + span.spec_len(),
        post.client_with_localtime.wf(),
        post.client_with_localtime.entries() =~= rlv_push_spec(
            pre.client_with_localtime.entries(),
            KVPair(
                span.start,
                CRDTSpan {
                    agent: agent as AgentId,
                    seq_range: TimeSpan {
                        start: pre.next_seq_of(agent) as usize,
                        end: (pre.next_seq_of(agent) + span.spec_len()) as usize,
                    },
                },
            ),
        ),
        post.client_with_localtime.total_end() == span.end,
    ensures
        post.maps_ok(),
        forall|t: int|
            0 <= t < span.start ==> (#[trigger] post.agent_at(t)) == pre.agent_at(t) && post.seq_at(
                t,
            ) == pre.seq_at(t),
        forall|t: int|
            span.start <= t < span.end ==> (#[trigger] post.agent_at(t)) == agent && post.seq_at(t)
                == pre.next_seq_of(agent) + (t - span.start),
{
    reveal(OpLog::maps_ok);
    lemma_assign_lookups(pre, post, agent, span);
    let next = pre.next_seq_of(agent);
    assert forall|a2: int|
        0 <= a2 < post.client_data@.len() implies #[trigger] post.next_seq_of(a2)
        <= post.len_spec() by {
        if a2 != agent {
            assert(post.client_data@[a2] == pre.client_data@[a2]);
            assert(post.next_seq_of(a2) == pre.next_seq_of(a2));
            assert(pre.next_seq_of(a2) <= pre.len_spec());
        } else {
            assert(post.next_seq_of(agent) == next + span.spec_len());
        }
    }
    // Assemble the two inversion quantifiers.
    assert forall|t: int| 0 <= t < post.len_spec() implies {
        &&& 0 <= #[trigger] post.agent_at(t) < post.client_data@.len()
        &&& post.agent_at(t) != ROOT_AGENT as int
        &&& 0 <= post.seq_at(t) < post.next_seq_of(post.agent_at(t))
        &&& post.time_at(post.agent_at(t), post.seq_at(t)) == t
    } by {
        if t < span.start {
            assert(pre.agent_at(t) == post.agent_at(t));
            if pre.agent_at(t) == agent {
                assert(pre.seq_at(t) < next);
            } else {
                assert(post.client_data@[pre.agent_at(t)] == pre.client_data@[pre.agent_at(t)]);
            }
        } else {
            assert(post.agent_at(t) == agent);
            assert(post.seq_at(t) == next + (t - span.start));
        }
    }
    assert forall|a: int|
        0 <= a < post.client_data@.len() && a != agent
            implies #[trigger] post.next_seq_of(a) == pre.next_seq_of(a) by {}
    assert forall|a: int, s: int|
        0 <= a < post.client_data@.len() && 0 <= s < post.next_seq_of(a) implies {
        &&& 0 <= #[trigger] post.time_at(a, s) < post.len_spec()
        &&& post.agent_at(post.time_at(a, s)) == a
        &&& post.seq_at(post.time_at(a, s)) == s
    } by {
        if a != agent {
            assert(post.client_data@[a] == pre.client_data@[a]);
            assert(post.time_at(a, s) == pre.time_at(a, s));
            assert(pre.time_at(a, s) < span.start);
        } else {
            if s < next {
                assert(post.time_at(a, s) == pre.time_at(a, s));
                assert(pre.time_at(a, s) < span.start);
            } else {
                assert(post.time_at(a, s) == span.start + (s - next));
            }
        }
    }
}

/// The batch length is nonnegative once every operation is well formed.
proof fn lemma_total_len_nonneg(ops: Seq<Operation>)
    requires
        forall|k: int| 0 <= k < ops.len() ==> (#[trigger] ops[k]).wf(),
    ensures
        total_len(ops) >= 0,
    decreases ops.len(),
{
    if ops.len() > 0 {
        assert forall|k: int|
            0 <= k < ops.subrange(1, ops.len() as int).len() implies (#[trigger] ops.subrange(
            1,
            ops.len() as int,
        )[k]).wf() by {
            assert(ops.subrange(1, ops.len() as int)[k] == ops[k + 1]);
        }
        lemma_total_len_nonneg(ops.subrange(1, ops.len() as int));
    }
}

impl OpLog {
    /// Push a batch of operations whose parents are `parents`. Times
    /// `[len, len + total)` are assigned to `agent`; the run becomes one
    /// history entry; the frontier advances past it. Returns the last
    /// assigned time, the new single tip.
    #[verifier::rlimit(100)]
    #[verifier::spinoff_prover]
    pub fn push_at(&mut self, agent: AgentId, parents: &[usize], ops: &[Operation]) -> (r: usize)
        requires
            old(self).wf(),
            (agent as int) < old(self).client_data@.len(),
            agent != ROOT_AGENT,
            ops@.len() > 0,
            forall|k: int|
                0 <= k < ops@.len() ==> (#[trigger] ops@[k]).wf() && ops@[k].spec_len() > 0,
            old(self).len_spec() + total_len(ops@) < ROOT_TIME,
            parents_valid(parents@, old(self).len_spec()),
        ensures
            final(self).wf(),
            final(self).len_spec() == old(self).len_spec() + total_len(ops@),
            r == final(self).len_spec() - 1,
            ({
                let st = store_fold(
                    old(self).operations.entries(),
                    old(self).ins_content@,
                    old(self).del_content@,
                    old(self).len_spec(),
                    ops@,
                );
                final(self).operations.entries() =~= st.0 && final(self).ins_content@ =~= st.1
                    && final(self).del_content@ =~= st.2
            }),
            pushed_assignment(*old(self), *final(self), agent as int),
            final(self).history.inserted_shape(
                old(self).history,
                parents@,
                TimeSpan {
                    start: old(self).len_spec() as usize,
                    end: (old(self).len_spec() + total_len(ops@)) as usize,
                },
            ),
            final(self).frontier@ =~= advance_spec(
                old(self).frontier@,
                parents@,
                TimeSpan {
                    start: old(self).len_spec() as usize,
                    end: (old(self).len_spec() + total_len(ops@)) as usize,
                },
            ),
            final(self).client_data@.len() == old(self).client_data@.len(),
            forall|a: int|
                0 <= a < old(self).client_data@.len() && a != agent as int
                    ==> #[trigger] final(self).client_data@[a] == old(self).client_data@[a],
            name_chars(final(self).client_data@[agent as int].name) == name_chars(
                old(self).client_data@[agent as int].name,
            ),
            final(self).next_seq_of(agent as int) == old(self).next_seq_of(agent as int) + (final(self).len_spec() - old(self).len_spec()),
    {
        proof {
            reveal(OpLog::maps_ok);
            lemma_total_len_nonneg(ops@);
        }
        let first_time = self.len();
        let mut next_time = first_time;
        let n = ops.len();
        proof {
            assert(ops@.subrange(0, n as int) =~= ops@);
        }
        let mut i: usize = 0;
        while i < n
            invariant
                old(self).wf(),
                n == ops@.len(),
                i <= n,
                forall|k: int|
                    0 <= k < ops@.len() ==> (#[trigger] ops@[k]).wf() && ops@[k].spec_len() > 0,
                first_time == old(self).len_spec(),
                old(self).len_spec() + total_len(ops@) < ROOT_TIME,
                self.ops_ok(),
                self.operations.total_end() == next_time,
                next_time + total_len(ops@.subrange(i as int, n as int)) == first_time + total_len(
                    ops@,
                ),
                next_time >= first_time,
                store_fold(
                    old(self).operations.entries(),
                    old(self).ins_content@,
                    old(self).del_content@,
                    first_time as int,
                    ops@,
                ) == store_fold(
                    self.operations.entries(),
                    self.ins_content@,
                    self.del_content@,
                    next_time as int,
                    ops@.subrange(i as int, n as int),
                ),
                self.client_data == old(self).client_data,
                self.client_with_localtime == old(self).client_with_localtime,
                self.history == old(self).history,
                self.frontier == old(self).frontier,
            decreases n - i,
        {
            proof {
                assert(ops@.subrange(i as int, n as int)[0] == ops@[i as int]);
                assert(ops@.subrange(i as int, n as int).subrange(
                    1,
                    (n - i) as int,
                ) =~= ops@.subrange(i + 1, n as int));
                assert forall|k: int|
                    0 <= k < ops@.subrange(i + 1, n as int).len() implies (
                #[trigger] ops@.subrange(i + 1, n as int)[k]).wf() by {
                    assert(ops@.subrange(i + 1, n as int)[k] == ops@[k + i + 1]);
                }
                lemma_total_len_nonneg(ops@.subrange(i + 1, n as int));
            }
            let op = &ops[i];
            let len = op.len();
            self.push_op_internal(next_time, op.span, op.tag, op.content_as_str());
            next_time = next_time + len;
            i = i + 1;
        }
        proof {
            assert(ops@.subrange(0, n as int) =~= ops@);
            assert(ops@.subrange(n as int, n as int) =~= Seq::<Operation>::empty());
        }
        let span = TimeSpan { start: first_time, end: next_time };
        proof {
            assert forall|k: int|
                0 <= k < ops@.subrange(1, n as int).len() implies (#[trigger] ops@.subrange(
                1,
                n as int,
            )[k]).wf() by {
                assert(ops@.subrange(1, n as int)[k] == ops@[k + 1]);
            }
            lemma_total_len_nonneg(ops@.subrange(1, n as int));
            assert(total_len(ops@) == ops@[0].spec_len() + total_len(ops@.subrange(1, n as int)));
            assert(total_len(ops@) > 0);
            lemma_maps_same(*old(self), *self);
            lemma_next_seq_bound(*self, agent as int);
        }
        let ghost sm = *self;
        self.assign_internal(agent, parents, span);
        proof {
            lemma_push_bridge(*old(self), sm, *self, agent as int);
        }
        next_time - 1
    }

    /// Push one insert of `ins_content` at document position `pos`.
    #[verifier::rlimit(100)]
    #[verifier::spinoff_prover]
    pub fn push_insert_at(
        &mut self,
        agent: AgentId,
        parents: &[usize],
        pos: usize,
        ins_content: &str,
    ) -> (r: usize)
        requires
            old(self).wf(),
            (agent as int) < old(self).client_data@.len(),
            agent != ROOT_AGENT,
            ins_content@.len() > 0,
            pos + ins_content@.len() <= usize::MAX,
            old(self).len_spec() + ins_content@.len() < ROOT_TIME,
            parents_valid(parents@, old(self).len_spec()),
        ensures
            final(self).wf(),
            final(self).len_spec() == old(self).len_spec() + ins_content@.len(),
            r == final(self).len_spec() - 1,
            final(self).ins_content@ =~= old(self).ins_content@ + ins_content@,
            final(self).del_content@ =~= old(self).del_content@,
            final(self).operations.entries() =~= rlv_push_spec(
                old(self).operations.entries(),
                KVPair(
                    old(self).len_spec() as usize,
                    OperationInternal {
                        span: TimeSpanRev {
                            span: TimeSpan {
                                start: pos,
                                end: (pos + ins_content@.len()) as usize,
                            },
                            fwd: true,
                        },
                        tag: InsDelTag::Ins,
                        content_pos: Some(
                            TimeSpan {
                                start: old(self).ins_content@.len() as usize,
                                end: (old(self).ins_content@.len() + ins_content@.len()) as usize,
                            },
                        ),
                    },
                ),
            ),
            pushed_assignment(*old(self), *final(self), agent as int),
            final(self).history.inserted_shape(
                old(self).history,
                parents@,
                TimeSpan {
                    start: old(self).len_spec() as usize,
                    end: (old(self).len_spec() + ins_content@.len()) as usize,
                },
            ),
            final(self).frontier@ =~= advance_spec(
                old(self).frontier@,
                parents@,
                TimeSpan {
                    start: old(self).len_spec() as usize,
                    end: (old(self).len_spec() + ins_content@.len()) as usize,
                },
            ),
            final(self).client_data@.len() == old(self).client_data@.len(),
            forall|a: int|
                0 <= a < old(self).client_data@.len() && a != agent as int
                    ==> #[trigger] final(self).client_data@[a] == old(self).client_data@[a],
            name_chars(final(self).client_data@[agent as int].name) == name_chars(
                old(self).client_data@[agent as int].name,
            ),
            final(self).next_seq_of(agent as int) == old(self).next_seq_of(agent as int)
                + ins_content@.len(),
    {
        proof {
            reveal(OpLog::maps_ok);
        }
        let len = ins_content.unicode_len();
        let start = self.len();
        let end = start + len;
        self.push_op_internal(
            start,
            TimeSpanRev::fwd_span(pos, pos + len),
            InsDelTag::Ins,
            Some(ins_content),
        );
        proof {
            lemma_maps_same(*old(self), *self);
            lemma_next_seq_bound(*self, agent as int);
        }
        let ghost sm = *self;
        self.assign_internal(agent, parents, TimeSpan { start, end });
        proof {
            lemma_push_bridge(*old(self), sm, *self, agent as int);
        }
        end - 1
    }

    /// Push one delete of `len` units at document position `pos`.
    #[verifier::rlimit(100)]
    #[verifier::spinoff_prover]
    pub fn push_delete_at(
        &mut self,
        agent: AgentId,
        parents: &[usize],
        pos: usize,
        len: usize,
    ) -> (r: usize)
        requires
            old(self).wf(),
            (agent as int) < old(self).client_data@.len(),
            agent != ROOT_AGENT,
            len > 0,
            pos + len <= usize::MAX,
            old(self).len_spec() + len < ROOT_TIME,
            parents_valid(parents@, old(self).len_spec()),
        ensures
            final(self).wf(),
            final(self).len_spec() == old(self).len_spec() + len,
            r == final(self).len_spec() - 1,
            final(self).ins_content@ =~= old(self).ins_content@,
            final(self).del_content@ =~= old(self).del_content@,
            final(self).operations.entries() =~= rlv_push_spec(
                old(self).operations.entries(),
                KVPair(
                    old(self).len_spec() as usize,
                    OperationInternal {
                        span: TimeSpanRev {
                            span: TimeSpan { start: pos, end: (pos + len) as usize },
                            fwd: true,
                        },
                        tag: InsDelTag::Del,
                        content_pos: None,
                    },
                ),
            ),
            pushed_assignment(*old(self), *final(self), agent as int),
            final(self).history.inserted_shape(
                old(self).history,
                parents@,
                TimeSpan {
                    start: old(self).len_spec() as usize,
                    end: (old(self).len_spec() + len) as usize,
                },
            ),
            final(self).frontier@ =~= advance_spec(
                old(self).frontier@,
                parents@,
                TimeSpan {
                    start: old(self).len_spec() as usize,
                    end: (old(self).len_spec() + len) as usize,
                },
            ),
            final(self).client_data@.len() == old(self).client_data@.len(),
            forall|a: int|
                0 <= a < old(self).client_data@.len() && a != agent as int
                    ==> #[trigger] final(self).client_data@[a] == old(self).client_data@[a],
            name_chars(final(self).client_data@[agent as int].name) == name_chars(
                old(self).client_data@[agent as int].name,
            ),
            final(self).next_seq_of(agent as int) == old(self).next_seq_of(agent as int) + len,
    {
        proof {
            reveal(OpLog::maps_ok);
        }
        let start = self.len();
        let end = start + len;
        self.push_op_internal(start, TimeSpanRev::fwd_span(pos, pos + len), InsDelTag::Del, None);
        proof {
            lemma_maps_same(*old(self), *self);
            lemma_next_seq_bound(*self, agent as int);
        }
        let ghost sm = *self;
        self.assign_internal(agent, parents, TimeSpan { start, end });
        proof {
            lemma_push_bridge(*old(self), sm, *self, agent as int);
        }
        end - 1
    }

    /// Push a batch of operations at the current frontier.
    pub fn push(&mut self, agent: AgentId, ops: &[Operation]) -> (r: usize)
        requires
            old(self).wf(),
            (agent as int) < old(self).client_data@.len(),
            agent != ROOT_AGENT,
            ops@.len() > 0,
            forall|k: int|
                0 <= k < ops@.len() ==> (#[trigger] ops@[k]).wf() && ops@[k].spec_len() > 0,
            old(self).len_spec() + total_len(ops@) < ROOT_TIME,
        ensures
            final(self).wf(),
            final(self).len_spec() == old(self).len_spec() + total_len(ops@),
            r == final(self).len_spec() - 1,
            ({
                let st = store_fold(
                    old(self).operations.entries(),
                    old(self).ins_content@,
                    old(self).del_content@,
                    old(self).len_spec(),
                    ops@,
                );
                final(self).operations.entries() =~= st.0 && final(self).ins_content@ =~= st.1
                    && final(self).del_content@ =~= st.2
            }),
            final(self).history.inserted_shape(
                old(self).history,
                old(self).frontier@,
                TimeSpan {
                    start: old(self).len_spec() as usize,
                    end: (old(self).len_spec() + total_len(ops@)) as usize,
                },
            ),
            final(self).frontier@ =~= advance_spec(
                old(self).frontier@,
                old(self).frontier@,
                TimeSpan {
                    start: old(self).len_spec() as usize,
                    end: (old(self).len_spec() + total_len(ops@)) as usize,
                },
            ),
            pushed_assignment(*old(self), *final(self), agent as int),
            final(self).client_data@.len() == old(self).client_data@.len(),
            forall|a: int|
                0 <= a < old(self).client_data@.len() && a != agent as int
                    ==> #[trigger] final(self).client_data@[a] == old(self).client_data@[a],
            name_chars(final(self).client_data@[agent as int].name) == name_chars(
                old(self).client_data@[agent as int].name,
            ),
            final(self).next_seq_of(agent as int) == old(self).next_seq_of(agent as int)
                + total_len(ops@),
    {
        let frontier = self.frontier.as_vec();
        proof {
            lemma_frontier_parents_valid(*old(self));
        }
        self.push_at(agent, frontier.as_slice(), ops)
    }

    /// Push one insert at the current frontier.
    pub fn push_insert(&mut self, agent: AgentId, pos: usize, ins_content: &str) -> (r: usize)
        requires
            old(self).wf(),
            (agent as int) < old(self).client_data@.len(),
            agent != ROOT_AGENT,
            ins_content@.len() > 0,
            pos + ins_content@.len() <= usize::MAX,
            old(self).len_spec() + ins_content@.len() < ROOT_TIME,
        ensures
            final(self).wf(),
            final(self).len_spec() == old(self).len_spec() + ins_content@.len(),
            r == final(self).len_spec() - 1,
            final(self).ins_content@ =~= old(self).ins_content@ + ins_content@,
            final(self).del_content@ =~= old(self).del_content@,
            final(self).operations.entries() =~= rlv_push_spec(
                old(self).operations.entries(),
                KVPair(
                    old(self).len_spec() as usize,
                    OperationInternal {
                        span: TimeSpanRev {
                            span: TimeSpan {
                                start: pos,
                                end: (pos + ins_content@.len()) as usize,
                            },
                            fwd: true,
                        },
                        tag: InsDelTag::Ins,
                        content_pos: Some(
                            TimeSpan {
                                start: old(self).ins_content@.len() as usize,
                                end: (old(self).ins_content@.len() + ins_content@.len()) as usize,
                            },
                        ),
                    },
                ),
            ),
            pushed_assignment(*old(self), *final(self), agent as int),
            final(self).history.inserted_shape(
                old(self).history,
                old(self).frontier@,
                TimeSpan {
                    start: old(self).len_spec() as usize,
                    end: (old(self).len_spec() + ins_content@.len()) as usize,
                },
            ),
            final(self).frontier@ =~= advance_spec(
                old(self).frontier@,
                old(self).frontier@,
                TimeSpan {
                    start: old(self).len_spec() as usize,
                    end: (old(self).len_spec() + ins_content@.len()) as usize,
                },
            ),
            final(self).client_data@.len() == old(self).client_data@.len(),
            forall|a: int|
                0 <= a < old(self).client_data@.len() && a != agent as int
                    ==> #[trigger] final(self).client_data@[a] == old(self).client_data@[a],
            name_chars(final(self).client_data@[agent as int].name) == name_chars(
                old(self).client_data@[agent as int].name,
            ),
            final(self).next_seq_of(agent as int) == old(self).next_seq_of(agent as int)
                + ins_content@.len(),
    {
        let frontier = self.frontier.as_vec();
        proof {
            lemma_frontier_parents_valid(*old(self));
        }
        self.push_insert_at(agent, frontier.as_slice(), pos, ins_content)
    }

    /// Push one delete at the current frontier.
    pub fn push_delete(&mut self, agent: AgentId, pos: usize, del_span: usize) -> (r: usize)
        requires
            old(self).wf(),
            (agent as int) < old(self).client_data@.len(),
            agent != ROOT_AGENT,
            del_span > 0,
            pos + del_span <= usize::MAX,
            old(self).len_spec() + del_span < ROOT_TIME,
        ensures
            final(self).wf(),
            final(self).len_spec() == old(self).len_spec() + del_span,
            r == final(self).len_spec() - 1,
            final(self).ins_content@ =~= old(self).ins_content@,
            final(self).del_content@ =~= old(self).del_content@,
            final(self).operations.entries() =~= rlv_push_spec(
                old(self).operations.entries(),
                KVPair(
                    old(self).len_spec() as usize,
                    OperationInternal {
                        span: TimeSpanRev {
                            span: TimeSpan { start: pos, end: (pos + del_span) as usize },
                            fwd: true,
                        },
                        tag: InsDelTag::Del,
                        content_pos: None,
                    },
                ),
            ),
            pushed_assignment(*old(self), *final(self), agent as int),
            final(self).history.inserted_shape(
                old(self).history,
                old(self).frontier@,
                TimeSpan {
                    start: old(self).len_spec() as usize,
                    end: (old(self).len_spec() + del_span) as usize,
                },
            ),
            final(self).frontier@ =~= advance_spec(
                old(self).frontier@,
                old(self).frontier@,
                TimeSpan {
                    start: old(self).len_spec() as usize,
                    end: (old(self).len_spec() + del_span) as usize,
                },
            ),
            final(self).client_data@.len() == old(self).client_data@.len(),
            forall|a: int|
                0 <= a < old(self).client_data@.len() && a != agent as int
                    ==> #[trigger] final(self).client_data@[a] == old(self).client_data@[a],
            name_chars(final(self).client_data@[agent as int].name) == name_chars(
                old(self).client_data@[agent as int].name,
            ),
            final(self).next_seq_of(agent as int) == old(self).next_seq_of(agent as int)
                + del_span,
    {
        let frontier = self.frontier.as_vec();
        proof {
            lemma_frontier_parents_valid(*old(self));
        }
        self.push_delete_at(agent, frontier.as_slice(), pos, del_span)
    }
}

/// One operation's effect on the store, spelled out.
pub proof fn lemma_store_fold_one(
    es: Seq<KVPair<OperationInternal>>,
    ins: Seq<char>,
    del: Seq<char>,
    t: int,
    op: Operation,
)
    ensures
        ({
            let arena_len = if op.tag is Ins {
                ins.len() as int
            } else {
                del.len() as int
            };
            let cp = match op.content {
                Some(c) => Some(
                    TimeSpan {
                        start: arena_len as usize,
                        end: (arena_len + op.spec_len()) as usize,
                    },
                ),
                None => None,
            };
            let kv = KVPair(
                t as usize,
                OperationInternal { span: op.span, tag: op.tag, content_pos: cp },
            );
            &&& store_fold(es, ins, del, t, seq![op]).0 =~= rlv_push_spec(es, kv)
            &&& store_fold(es, ins, del, t, seq![op]).1 =~= (if op.content is Some && op.tag
                is Ins {
                ins + op.content->0@
            } else {
                ins
            })
            &&& store_fold(es, ins, del, t, seq![op]).2 =~= (if op.content is Some && op.tag
                is Del {
                del + op.content->0@
            } else {
                del
            })
        }),
{
    let ops1 = seq![op];
    assert(ops1[0] == op);
    assert(ops1.subrange(1, 1).len() == 0);
    let arena_len = if op.tag is Ins {
        ins.len() as int
    } else {
        del.len() as int
    };
    let cp = match op.content {
        Some(c) => Some(
            TimeSpan { start: arena_len as usize, end: (arena_len + op.spec_len()) as usize },
        ),
        None => None,
    };
    let kv = KVPair(t as usize, OperationInternal { span: op.span, tag: op.tag, content_pos: cp });
    let es2 = rlv_push_spec(es, kv);
    let ins2 = if op.content is Some && op.tag is Ins {
        ins + op.content->0@
    } else {
        ins
    };
    let del2 = if op.content is Some && op.tag is Del {
        del + op.content->0@
    } else {
        del
    };
    assert(store_fold(es, ins, del, t, ops1) == store_fold(
        es2,
        ins2,
        del2,
        t + op.spec_len(),
        ops1.subrange(1, 1),
    ));
    assert(store_fold(es2, ins2, del2, t + op.spec_len(), ops1.subrange(1, 1)) == (
        es2,
        ins2,
        del2,
    ));
}

/// A push's assignment facts carry over any earlier state with the same maps.
proof fn lemma_push_bridge(pre: OpLog, mid: OpLog, post: OpLog, agent: int)
    requires
        pushed_assignment(mid, post, agent),
        mid.client_with_localtime == pre.client_with_localtime,
        mid.client_data == pre.client_data,
    ensures
        pushed_assignment(pre, post, agent),
{
    assert(mid.len_spec() == pre.len_spec());
    assert(mid.next_seq_of(agent) == pre.next_seq_of(agent));
    assert forall|t: int|
        0 <= t < pre.len_spec() implies (#[trigger] post.agent_at(t)) == pre.agent_at(t)
        && post.seq_at(t) == pre.seq_at(t) by {
        assert(0 <= t < mid.len_spec());
        assert(post.agent_at(t) == mid.agent_at(t) && post.seq_at(t) == mid.seq_at(t));
        assert(mid.agent_at(t) == pre.agent_at(t));
        assert(mid.seq_at(t) == pre.seq_at(t));
    }
    assert forall|t: int|
        pre.len_spec() <= t < post.len_spec() implies (#[trigger] post.agent_at(t)) == agent
        && post.seq_at(t) == pre.next_seq_of(agent) + (t - pre.len_spec()) by {
        assert(mid.len_spec() <= t < post.len_spec());
        assert(post.agent_at(t) == agent && post.seq_at(t) == mid.next_seq_of(agent) + (t
            - mid.len_spec()));
    }
}

/// Each agent has used at most as many sequence numbers as there are times.
proof fn lemma_next_seq_bound(l: OpLog, a: int)
    requires
        l.maps_ok(),
        0 <= a < l.client_data@.len(),
    ensures
        l.next_seq_of(a) <= l.len_spec(),
{
    reveal(OpLog::maps_ok);
}

/// The current frontier is always a valid parents list for the next push.
proof fn lemma_frontier_parents_valid(l: OpLog)
    requires
        l.wf(),
    ensures
        parents_valid(l.frontier@, l.len_spec()),
{
    if l.len_spec() == 0 {
        assert(l.frontier@.len() == 1);
        assert(l.frontier@[0] == ROOT_TIME);
        assert(is_root_parents(l.frontier@));
    }
}

/// `maps_ok` depends only on the two maps.
proof fn lemma_maps_same(a: OpLog, b: OpLog)
    requires
        a.maps_ok(),
        b.client_with_localtime == a.client_with_localtime,
        b.client_data == a.client_data,
    ensures
        b.maps_ok(),
{
    reveal(OpLog::maps_ok);
    assert forall|x: int|
        0 <= x < b.client_data@.len() implies #[trigger] b.next_seq_of(x) <= b.len_spec() by {
        assert(b.next_seq_of(x) == a.next_seq_of(x));
    }
    assert forall|t: int| 0 <= t < b.len_spec() implies {
        &&& 0 <= #[trigger] b.agent_at(t) < b.client_data@.len()
        &&& b.agent_at(t) != ROOT_AGENT as int
        &&& 0 <= b.seq_at(t) < b.next_seq_of(b.agent_at(t))
        &&& b.time_at(b.agent_at(t), b.seq_at(t)) == t
    } by {
        assert(b.agent_at(t) == a.agent_at(t));
        assert(b.seq_at(t) == a.seq_at(t));
        assert(b.next_seq_of(a.agent_at(t)) == a.next_seq_of(a.agent_at(t)));
        assert(b.time_at(a.agent_at(t), a.seq_at(t)) == a.time_at(a.agent_at(t), a.seq_at(t)));
    }
    assert forall|x: int, s2: int|
        0 <= x < b.client_data@.len() && 0 <= s2 < b.next_seq_of(x) implies {
        &&& 0 <= #[trigger] b.time_at(x, s2) < b.len_spec()
        &&& b.agent_at(b.time_at(x, s2)) == x
        &&& b.seq_at(b.time_at(x, s2)) == s2
    } by {
        assert(b.time_at(x, s2) == a.time_at(x, s2));
        assert(b.agent_at(a.time_at(x, s2)) == a.agent_at(a.time_at(x, s2)));
        assert(b.seq_at(a.time_at(x, s2)) == a.seq_at(a.time_at(x, s2)));
    }
}

/// `ops_ok` depends only on the operation store and the arenas.
proof fn lemma_ops_same(a: OpLog, b: OpLog)
    requires
        a.ops_ok(),
        b.operations == a.operations,
        b.ins_content == a.ins_content,
        b.del_content == a.del_content,
    ensures
        b.ops_ok(),
{
    reveal(OpLog::ops_ok);
}

/// Adding a fresh, empty agent disturbs no other part of the invariant.
proof fn lemma_wf_more_agents(pre: OpLog, post: OpLog)
    requires
        pre.wf(),
        post.client_data@.len() == pre.client_data@.len() + 1,
        forall|a: int|
            0 <= a < pre.client_data@.len() ==> #[trigger] post.client_data@[a]
                == pre.client_data@[a],
        post.client_data@[post.client_data@.len() - 1].wf(),
        post.client_data@[post.client_data@.len() - 1].item_times.entries().len() == 0,
        forall|j: int|
            0 <= j < pre.client_data@.len() ==> name_chars(
                (#[trigger] pre.client_data@[j]).name,
            ) != name_chars(post.client_data@[post.client_data@.len() - 1].name),
        post.client_with_localtime == pre.client_with_localtime,
        post.operations == pre.operations,
        post.ins_content == pre.ins_content,
        post.del_content == pre.del_content,
        post.history == pre.history,
        post.frontier == pre.frontier,
    ensures
        post.wf(),
{
    reveal(OpLog::maps_ok);
    reveal(OpLog::ops_ok);
    let n = pre.client_data@.len() as int;
    assert(post.len_spec() == pre.len_spec());
    assert forall|i: int, j: int|
        0 <= i < j < post.client_data@.len() implies name_chars(
        (#[trigger] post.client_data@[i]).name,
    ) != name_chars((#[trigger] post.client_data@[j]).name) by {
        if j < n {
            assert(post.client_data@[i] == pre.client_data@[i]);
            assert(post.client_data@[j] == pre.client_data@[j]);
        } else {
            assert(post.client_data@[i] == pre.client_data@[i]);
        }
    }
    assert forall|x: int|
        0 <= x < post.client_data@.len() implies #[trigger] post.next_seq_of(x)
        <= post.len_spec() by {
        if x < n {
            assert(post.client_data@[x] == pre.client_data@[x]);
            assert(post.next_seq_of(x) == pre.next_seq_of(x));
        } else {
            assert(post.client_data@[x].item_times.entries().len() == 0);
            assert(post.next_seq_of(x) == 0);
        }
    }
    assert forall|t: int| 0 <= t < post.len_spec() implies {
        &&& 0 <= #[trigger] post.agent_at(t) < post.client_data@.len()
        &&& post.agent_at(t) != ROOT_AGENT as int
        &&& 0 <= post.seq_at(t) < post.next_seq_of(post.agent_at(t))
        &&& post.time_at(post.agent_at(t), post.seq_at(t)) == t
    } by {
        assert(pre.agent_at(t) == post.agent_at(t));
        assert(pre.seq_at(t) == post.seq_at(t));
        assert(post.client_data@[pre.agent_at(t)] == pre.client_data@[pre.agent_at(t)]);
    }
    assert forall|a: int, s: int|
        0 <= a < post.client_data@.len() && 0 <= s < post.next_seq_of(a) implies {
        &&& 0 <= #[trigger] post.time_at(a, s) < post.len_spec()
        &&& post.agent_at(post.time_at(a, s)) == a
        &&& post.seq_at(post.time_at(a, s)) == s
    } by {
        if a < n {
            assert(post.client_data@[a] == pre.client_data@[a]);
            assert(post.time_at(a, s) == pre.time_at(a, s));
            assert(post.next_seq_of(a) == pre.next_seq_of(a));
            assert(post.agent_at(pre.time_at(a, s)) == pre.agent_at(pre.time_at(a, s)));
            assert(post.seq_at(pre.time_at(a, s)) == pre.seq_at(pre.time_at(a, s)));
        } else {
            assert(post.next_seq_of(a) == 0);
        }
    }
}

} // verus!
