//! Half-open integer time ranges, and their directional variant.

use vstd::prelude::*;
use crate::rle::{HasLength, MergableSpan, MergeLaws, SplitableSpan};

verus! {

/// A half-open range `[start, end)` of time (or sequence, or document
/// position) values.
#[derive(Clone, Copy, Debug, PartialEq, Eq, Structural)]
pub struct TimeSpan {
    pub start: usize,
    pub end: usize,
}

impl TimeSpan {
    /// A span is well formed when it does not run backwards.
    pub open spec fn wf(self) -> bool {
        self.start <= self.end
    }

    pub open spec fn spec_contains(self, t: int) -> bool {
        self.start <= t < self.end
    }

    pub open spec fn spec_last(self) -> int {
        self.end - 1
    }

    pub fn new(start: usize, end: usize) -> (r: TimeSpan)
        requires
            start <= end,
        ensures
            r.start == start,
            r.end == end,
    {
        TimeSpan { start, end }
    }

    pub fn is_empty(&self) -> (r: bool)
        ensures
            r == (self.start == self.end),
    {
        self.start == self.end
    }

    /// The last time covered by a non-empty span.
    pub fn last(&self) -> (r: usize)
        requires
            self.start < self.end,
        ensures
            r == self.spec_last(),
    {
        self.end - 1
    }

    pub fn contains(&self, t: usize) -> (r: bool)
        ensures
            r == self.spec_contains(t as int),
    {
        self.start <= t && t < self.end
    }
}

impl HasLength for TimeSpan {
    open spec fn rle_wf(&self) -> bool {
        self.start <= self.end
    }

    open spec fn spec_len(&self) -> usize {
        (self.end - self.start) as usize
    }

    fn len(&self) -> (r: usize) {
        self.end - self.start
    }
}

impl MergableSpan for TimeSpan {
    open spec fn spec_can_append(&self, other: &Self) -> bool {
        other.start == self.end
    }

    open spec fn spec_append(&self, other: &Self) -> Self {
        TimeSpan { start: self.start, end: other.end }
    }

    fn can_append(&self, other: &Self) -> (r: bool) {
        other.start == self.end
    }

    fn append(&mut self, other: Self) {
        self.end = other.end;
    }
}

impl MergeLaws for TimeSpan {
    proof fn lemma_value_append(&self, other: &Self) {
    }
}

impl SplitableSpan for TimeSpan {
    open spec fn spec_left(&self, at: int) -> Self {
        TimeSpan { start: self.start, end: (self.start + at) as usize }
    }

    open spec fn spec_right(&self, at: int) -> Self {
        TimeSpan { start: (self.start + at) as usize, end: self.end }
    }

    fn truncate(&mut self, at: usize) -> (r: Self) {
        let r = TimeSpan { start: self.start + at, end: self.end };
        self.end = self.start + at;
        r
    }

    fn truncate_keeping_right(&mut self, at: usize) -> (r: Self) {
        let r = TimeSpan { start: self.start, end: self.start + at };
        self.start = self.start + at;
        r
    }
}

/// A span together with a direction flag. A reversed span logically runs
/// from its end back to its start (a run of backspaces, say).
#[derive(Clone, Copy, Debug, PartialEq, Eq, Structural)]
pub struct TimeSpanRev {
    pub span: TimeSpan,
    pub fwd: bool,
}

impl TimeSpanRev {
    pub open spec fn wf(self) -> bool {
        self.span.wf()
    }

    /// The document position touched by the unit at `offset` within the run.
    pub open spec fn spec_pos_at(self, offset: int) -> int {
        if self.fwd {
            self.span.start + offset
        } else {
            self.span.end - 1 - offset
        }
    }

    pub fn fwd_span(start: usize, end: usize) -> (r: TimeSpanRev)
        requires
            start <= end,
        ensures
            r.span.start == start,
            r.span.end == end,
            r.fwd,
    {
        TimeSpanRev { span: TimeSpan { start, end }, fwd: true }
    }
}

} // verus!
