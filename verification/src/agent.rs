//! Agents: compact string names, `(agent, seq)` identifiers, and the
//! per-agent table mapping sequence numbers to local time spans.

use vstd::prelude::*;
use smartstring::alias::String as SmartString;
use crate::rle::{HasLength, KVPair, MergableSpan, MergeLaws, RleVec, SplitableSpan};
use crate::span::TimeSpan;
use crate::AgentId;

verus! {

/// An agent's name, held in a small-string buffer. Verus sees it only
/// through [`name_chars`] and the trusted accessors below.
#[verifier::external_body]
#[derive(Debug)]
pub struct AgentName {
    s: SmartString,
}

/// The characters an agent name holds.
pub uninterp spec fn name_chars(n: AgentName) -> Seq<char>;

/// Relies on smartstring's `From<&str>` impl: the copy holds the same text.
#[verifier::external_body]
pub(crate) fn an_from_str(s: &str) -> (r: AgentName)
    ensures
        name_chars(r) =~= s@,
{
    AgentName { s: SmartString::from(s) }
}

/// Relies on smartstring's `PartialEq<str>` impl: equality of the text.
#[verifier::external_body]
pub(crate) fn an_eq_str(n: &AgentName, s: &str) -> (r: bool)
    ensures
        r == (name_chars(*n) == s@),
{
    n.s == s
}

/// Relies on smartstring's `as_str`: a view of the same text.
#[verifier::external_body]
pub(crate) fn an_as_str(n: &AgentName) -> (r: &str)
    ensures
        r@ =~= name_chars(*n),
{
    n.s.as_str()
}

/// Relies on str's `PartialEq` impl: equality of the text.
#[verifier::external_body]
pub(crate) fn str_eq(a: &str, b: &str) -> (r: bool)
    ensures
        r == (a@ == b@),
{
    a == b
}

/// The externally stable name of a time: an agent and a sequence number.
#[derive(Clone, Copy, Debug, PartialEq, Eq, Structural)]
pub struct CRDTId {
    pub agent: AgentId,
    pub seq: usize,
}

/// A contiguous run of sequence numbers belonging to one agent.
#[derive(Clone, Copy, Debug, PartialEq, Eq, Structural)]
pub struct CRDTSpan {
    pub agent: AgentId,
    pub seq_range: TimeSpan,
}

impl CRDTSpan {
    /// The identifier at `offset` within the run.
    pub open spec fn spec_at_offset(self, offset: int) -> CRDTId {
        CRDTId { agent: self.agent, seq: (self.seq_range.start + offset) as usize }
    }

    pub fn at_offset(&self, offset: usize) -> (r: CRDTId)
        requires
            self.rle_wf(),
            offset < self.spec_len(),
        ensures
            r == self.spec_at_offset(offset as int),
    {
        CRDTId { agent: self.agent, seq: self.seq_range.start + offset }
    }
}

impl HasLength for CRDTSpan {
    open spec fn rle_wf(&self) -> bool {
        self.seq_range.wf()
    }

    open spec fn spec_len(&self) -> usize {
        (self.seq_range.end - self.seq_range.start) as usize
    }

    fn len(&self) -> (r: usize) {
        self.seq_range.end - self.seq_range.start
    }
}

impl MergableSpan for CRDTSpan {
    open spec fn spec_can_append(&self, other: &Self) -> bool {
        self.agent == other.agent && other.seq_range.start == self.seq_range.end
    }

    open spec fn spec_append(&self, other: &Self) -> Self {
        CRDTSpan {
            agent: self.agent,
            seq_range: TimeSpan { start: self.seq_range.start, end: other.seq_range.end },
        }
    }

    fn can_append(&self, other: &Self) -> (r: bool) {
        self.agent == other.agent && other.seq_range.start == self.seq_range.end
    }

    fn append(&mut self, other: Self) {
        self.seq_range.end = other.seq_range.end;
    }
}

impl MergeLaws for CRDTSpan {
    proof fn lemma_value_append(&self, other: &Self) {
    }
}

impl SplitableSpan for CRDTSpan {
    open spec fn spec_left(&self, at: int) -> Self {
        CRDTSpan {
            agent: self.agent,
            seq_range: TimeSpan {
                start: self.seq_range.start,
                end: (self.seq_range.start + at) as usize,
            },
        }
    }

    open spec fn spec_right(&self, at: int) -> Self {
        CRDTSpan {
            agent: self.agent,
            seq_range: TimeSpan {
                start: (self.seq_range.start + at) as usize,
                end: self.seq_range.end,
            },
        }
    }

    fn truncate(&mut self, at: usize) -> (r: Self) {
        let r = CRDTSpan {
            agent: self.agent,
            seq_range: TimeSpan { start: self.seq_range.start + at, end: self.seq_range.end },
        };
        self.seq_range.end = self.seq_range.start + at;
        r
    }

    fn truncate_keeping_right(&mut self, at: usize) -> (r: Self) {
        let r = CRDTSpan {
            agent: self.agent,
            seq_range: TimeSpan { start: self.seq_range.start, end: self.seq_range.start + at },
        };
        self.seq_range.start = self.seq_range.start + at;
        r
    }
}

/// Everything the log knows of one agent: its name and the map from its
/// sequence numbers to the local time spans they were assigned.
#[derive(Debug)]
pub struct ClientData {
    pub name: AgentName,
    pub item_times: RleVec<KVPair<TimeSpan>>,
}

impl ClientData {
    pub open spec fn wf(self) -> bool {
        self.item_times.wf()
    }

    /// The local time a sequence number of this agent was assigned.
    pub open spec fn spec_seq_to_time(self, seq: int) -> int {
        let e = self.item_times.entries()[self.item_times.spec_idx(seq)];
        e.1.start + (seq - e.0)
    }

    pub fn new(name: &str) -> (r: ClientData)
        ensures
            r.wf(),
            name_chars(r.name) =~= name@,
            r.item_times.entries().len() == 0,
    {
        ClientData { name: an_from_str(name), item_times: RleVec::new() }
    }

    /// One past the largest sequence number this agent has used.
    pub fn get_next_seq(&self) -> (r: usize)
        requires
            self.wf(),
        ensures
            r == self.item_times.total_end(),
    {
        self.item_times.total_len()
    }

    pub fn is_empty(&self) -> (r: bool)
        ensures
            r == (self.item_times.entries().len() == 0),
    {
        self.item_times.is_empty()
    }

    /// The time assigned to `seq`, or `None` when this agent has not used it.
    #[verifier::rlimit(100)]
    pub fn try_seq_to_time(&self, seq: usize) -> (r: Option<usize>)
        requires
            self.wf(),
        ensures
            match r {
                Some(t) => seq < self.item_times.total_end() && t == self.spec_seq_to_time(
                    seq as int,
                ),
                None => seq >= self.item_times.total_end(),
            },
    {
        match self.item_times.find_with_offset(seq) {
            Some((entry, offset)) => {
                proof {
                    self.item_times.lemma_idx(seq as int);
                }
                Some(entry.1.start + offset)
            },
            None => None,
        }
    }

    /// The time assigned to a sequence number this agent is known to have used.
    #[verifier::rlimit(100)]
    pub fn seq_to_time(&self, seq: usize) -> (r: usize)
        requires
            self.wf(),
            seq < self.item_times.total_end(),
        ensures
            r == self.spec_seq_to_time(seq as int),
    {
        let (entry, offset) = self.item_times.find_packed_with_offset(seq);
        proof {
            self.item_times.lemma_idx(seq as int);
        }
        entry.1.start + offset
    }
}

} // verus!
