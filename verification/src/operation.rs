//! Text operations: the public form callers push, and the compact internal
//! form the log stores (content lives in shared arenas).

use vstd::prelude::*;
use crate::rle::{HasLength, MergableSpan, MergeLaws, SplitableSpan};
use crate::span::{TimeSpan, TimeSpanRev};

verus! {

/// Whether an operation inserts or deletes text.
#[derive(Clone, Copy, Debug, PartialEq, Eq, Structural)]
pub enum InsDelTag {
    Ins,
    Del,
}

/// An operation as a caller hands it in: a positional insert or delete run
/// with the inserted (or deleted) text attached.
#[derive(Clone, Debug)]
pub struct Operation {
    pub span: TimeSpanRev,
    pub tag: InsDelTag,
    pub content: Option<String>,
}

impl Operation {
    /// Valid when the span is ordered and any content covers one char per
    /// span unit.
    pub open spec fn wf(self) -> bool {
        &&& self.span.wf()
        &&& match self.content {
            Some(c) => c@.len() == self.span.span.spec_len(),
            None => true,
        }
        &&& (self.tag is Ins ==> self.content is Some)
    }

    pub open spec fn spec_len(self) -> int {
        self.span.span.spec_len() as int
    }

    pub fn new_insert(pos: usize, content: &str) -> (r: Operation)
        requires
            pos + content@.len() <= usize::MAX,
        ensures
            r.tag is Ins,
            r.span.fwd,
            r.span.span.start == pos,
            r.span.span.end == pos + content@.len(),
            r.content is Some && r.content->0@ == content@,
            r.wf(),
    {
        let len = content.unicode_len();
        Operation {
            span: TimeSpanRev::fwd_span(pos, pos + len),
            tag: InsDelTag::Ins,
            content: Some(String::from_str(content)),
        }
    }

    pub fn new_delete(pos: usize, len: usize) -> (r: Operation)
        requires
            pos + len <= usize::MAX,
        ensures
            r.tag is Del,
            r.span.fwd,
            r.span.span.start == pos,
            r.span.span.end == pos + len,
            r.content is None,
            r.wf(),
    {
        Operation {
            span: TimeSpanRev::fwd_span(pos, pos + len),
            tag: InsDelTag::Del,
            content: None,
        }
    }

    pub fn content_as_str(&self) -> (r: Option<&str>)
        ensures
            match r {
                Some(s) => self.content is Some && s@ == self.content->0@,
                None => self.content is None,
            },
    {
        match &self.content {
            Some(c) => Some(c.as_str()),
            None => None,
        }
    }

    pub fn len(&self) -> (r: usize)
        requires
            self.wf(),
        ensures
            r == self.spec_len(),
    {
        self.span.span.len()
    }
}

/// The stored form of an operation: its positional span, its kind, and
/// (when content was recorded) the char range it occupies in the arena for
/// its kind.
#[derive(Clone, Copy, Debug, PartialEq, Eq)]
pub struct OperationInternal {
    pub span: TimeSpanRev,
    pub tag: InsDelTag,
    pub content_pos: Option<TimeSpan>,
}

/// Whether run `b` continues run `a` in document-position space: inserts
/// extend forward off the end (or backward off the start of a reversed run);
/// deletes repeat at the same position (or walk backward).
pub open spec fn rev_spec_can_append(a: TimeSpanRev, tag: InsDelTag, b: TimeSpanRev) -> bool {
    if (a.span.spec_len() == 1 || a.fwd) && (b.span.spec_len() == 1 || b.fwd) && (match tag {
        InsDelTag::Ins => b.span.start == a.span.end,
        InsDelTag::Del => b.span.start == a.span.start && a.span.end + b.span.spec_len() <= usize::MAX,
    }) {
        true
    } else {
        (a.span.spec_len() == 1 || !a.fwd) && (b.span.spec_len() == 1 || !b.fwd) && (match tag {
            InsDelTag::Ins => b.span.end == a.span.start,
            InsDelTag::Del => b.span.end == a.span.start,
        })
    }
}

/// The merged run when `rev_spec_can_append` holds.
pub open spec fn rev_spec_append(a: TimeSpanRev, tag: InsDelTag, b: TimeSpanRev) -> TimeSpanRev {
    if (a.span.spec_len() == 1 || a.fwd) && (b.span.spec_len() == 1 || b.fwd) && (match tag {
        InsDelTag::Ins => b.span.start == a.span.end,
        InsDelTag::Del => b.span.start == a.span.start && a.span.end + b.span.spec_len() <= usize::MAX,
    }) {
        match tag {
            InsDelTag::Ins => TimeSpanRev {
                span: TimeSpan { start: a.span.start, end: b.span.end },
                fwd: true,
            },
            InsDelTag::Del => TimeSpanRev {
                span: TimeSpan {
                    start: a.span.start,
                    end: (a.span.end + b.span.spec_len()) as usize,
                },
                fwd: true,
            },
        }
    } else {
        TimeSpanRev { span: TimeSpan { start: b.span.start, end: a.span.end }, fwd: false }
    }
}

impl HasLength for OperationInternal {
    open spec fn rle_wf(&self) -> bool {
        &&& self.span.wf()
        &&& match self.content_pos {
            Some(c) => c.wf() && c.spec_len() == self.span.span.spec_len(),
            None => true,
        }
    }

    open spec fn spec_len(&self) -> usize {
        (self.span.span.end - self.span.span.start) as usize
    }

    fn len(&self) -> (r: usize) {
        self.span.span.len()
    }
}

impl MergableSpan for OperationInternal {
    open spec fn spec_can_append(&self, other: &Self) -> bool {
        &&& self.tag == other.tag
        &&& match (self.content_pos, other.content_pos) {
            (Some(a), Some(b)) => b.start == a.end,
            (None, None) => true,
            _ => false,
        }
        &&& rev_spec_can_append(self.span, self.tag, other.span)
    }

    open spec fn spec_append(&self, other: &Self) -> Self {
        OperationInternal {
            span: rev_spec_append(self.span, self.tag, other.span),
            tag: self.tag,
            content_pos: match (self.content_pos, other.content_pos) {
                (Some(a), Some(b)) => Some(TimeSpan { start: a.start, end: b.end }),
                _ => None,
            },
        }
    }

    fn can_append(&self, other: &Self) -> (r: bool) {
        if !(self.tag == other.tag) {
            return false;
        }
        let content_ok = match (&self.content_pos, &other.content_pos) {
            (Some(a), Some(b)) => b.start == a.end,
            (None, None) => true,
            _ => false,
        };
        if !content_ok {
            return false;
        }
        let a = self.span;
        let b = other.span;
        let a_len = a.span.len();
        let b_len = b.span.len();
        let fwd_ok = (a_len == 1 || a.fwd) && (b_len == 1 || b.fwd) && (match self.tag {
            InsDelTag::Ins => b.span.start == a.span.end,
            InsDelTag::Del => b.span.start == a.span.start && b_len <= usize::MAX - a.span.end,
        });
        if fwd_ok {
            true
        } else {
            ((a_len == 1 || !a.fwd) && (b_len == 1 || !b.fwd) && b.span.end == a.span.start)
        }
    }

    fn append(&mut self, other: Self) {
        let a = self.span;
        let b = other.span;
        let a_len = a.span.len();
        let b_len = b.span.len();
        let fwd_ok = (a_len == 1 || a.fwd) && (b_len == 1 || b.fwd) && (match self.tag {
            InsDelTag::Ins => b.span.start == a.span.end,
            InsDelTag::Del => b.span.start == a.span.start && b_len <= usize::MAX - a.span.end,
        });
        if fwd_ok {
            let end = match self.tag {
                InsDelTag::Ins => b.span.end,
                InsDelTag::Del => a.span.end + b_len,
            };
            self.span = TimeSpanRev { span: TimeSpan { start: a.span.start, end }, fwd: true };
        } else {
            self.span = TimeSpanRev {
                span: TimeSpan { start: b.span.start, end: a.span.end },
                fwd: false,
            };
        }
        self.content_pos = match (self.content_pos, other.content_pos) {
            (Some(ca), Some(cb)) => Some(TimeSpan { start: ca.start, end: cb.end }),
            _ => None,
        };
    }
}

impl MergeLaws for OperationInternal {
    proof fn lemma_value_append(&self, other: &Self) {
    }
}

impl SplitableSpan for OperationInternal {
    open spec fn spec_left(&self, at: int) -> Self {
        OperationInternal {
            span: if self.span.fwd {
                match self.tag {
                    InsDelTag::Ins => TimeSpanRev {
                        span: TimeSpan {
                            start: self.span.span.start,
                            end: (self.span.span.start + at) as usize,
                        },
                        fwd: true,
                    },
                    InsDelTag::Del => TimeSpanRev {
                        span: TimeSpan {
                            start: self.span.span.start,
                            end: (self.span.span.start + at) as usize,
                        },
                        fwd: true,
                    },
                }
            } else {
                TimeSpanRev {
                    span: TimeSpan {
                        start: (self.span.span.end - at) as usize,
                        end: self.span.span.end,
                    },
                    fwd: false,
                }
            },
            tag: self.tag,
            content_pos: match self.content_pos {
                Some(c) => Some(TimeSpan { start: c.start, end: (c.start + at) as usize }),
                None => None,
            },
        }
    }

    open spec fn spec_right(&self, at: int) -> Self {
        OperationInternal {
            span: if self.span.fwd {
                match self.tag {
                    InsDelTag::Ins => TimeSpanRev {
                        span: TimeSpan {
                            start: (self.span.span.start + at) as usize,
                            end: self.span.span.end,
                        },
                        fwd: true,
                    },
                    InsDelTag::Del => TimeSpanRev {
                        span: TimeSpan {
                            start: self.span.span.start,
                            end: (self.span.span.end - at) as usize,
                        },
                        fwd: true,
                    },
                }
            } else {
                TimeSpanRev {
                    span: TimeSpan {
                        start: self.span.span.start,
                        end: (self.span.span.end - at) as usize,
                    },
                    fwd: false,
                }
            },
            tag: self.tag,
            content_pos: match self.content_pos {
                Some(c) => Some(TimeSpan { start: (c.start + at) as usize, end: c.end }),
                None => None,
            },
        }
    }

    fn truncate(&mut self, at: usize) -> (r: Self) {
        let r = self.compute_right(at);
        *self = self.compute_left(at);
        r
    }

    fn truncate_keeping_right(&mut self, at: usize) -> (r: Self) {
        let r = self.compute_left(at);
        *self = self.compute_right(at);
        r
    }
}

impl OperationInternal {
    fn compute_left(&self, at: usize) -> (r: Self)
        requires
            self.rle_wf(),
            0 < at < self.spec_len(),
        ensures
            r == self.spec_left(at as int),
    {
        OperationInternal {
            span: if self.span.fwd {
                TimeSpanRev {
                    span: TimeSpan { start: self.span.span.start, end: self.span.span.start + at },
                    fwd: true,
                }
            } else {
                TimeSpanRev {
                    span: TimeSpan { start: self.span.span.end - at, end: self.span.span.end },
                    fwd: false,
                }
            },
            tag: self.tag,
            content_pos: match &self.content_pos {
                Some(c) => Some(TimeSpan { start: c.start, end: c.start + at }),
                None => None,
            },
        }
    }

    fn compute_right(&self, at: usize) -> (r: Self)
        requires
            self.rle_wf(),
            0 < at < self.spec_len(),
        ensures
            r == self.spec_right(at as int),
    {
        OperationInternal {
            span: if self.span.fwd {
                match self.tag {
                    InsDelTag::Ins => TimeSpanRev {
                        span: TimeSpan {
                            start: self.span.span.start + at,
                            end: self.span.span.end,
                        },
                        fwd: true,
                    },
                    InsDelTag::Del => TimeSpanRev {
                        span: TimeSpan {
                            start: self.span.span.start,
                            end: self.span.span.end - at,
                        },
                        fwd: true,
                    },
                }
            } else {
                TimeSpanRev {
                    span: TimeSpan { start: self.span.span.start, end: self.span.span.end - at },
                    fwd: false,
                }
            },
            tag: self.tag,
            content_pos: match &self.content_pos {
                Some(c) => Some(TimeSpan { start: c.start + at, end: c.end }),
                None => None,
            },
        }
    }
}

} // verus!
