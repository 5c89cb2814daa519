//! Applying one operation to many timestamps, one per line of input, all
//! or nothing: blank lines are skipped, the first refused line ends the
//! run with its line number, and a run with no timestamps is refused.
//!
//! The decisions are a state machine: the caller reads lines and applies
//! the operation as the actions say, and hands back what came of it.

use vstd::prelude::*;
use vstd::string::{StrSliceExecFns, StringExecFns};
use crate::text::{decimal, push_decimal, trim, trimmed};

verus! {

/// What the caller reports back.
pub enum BatchEvent {
    /// A line was read (without its line ending).
    Line(String),
    /// The operation on the last line handed out gave this.
    Applied(Result<String, String>),
    /// Reading failed, with this message.
    ReadFailed(String),
    /// There are no more lines.
    End,
}

/// What the caller does next.
pub enum BatchAction {
    /// Read the next line.
    ReadNext,
    /// Apply the operation to this (trimmed) line.
    Apply(String),
    /// Stop: the run's output, or why it was refused.
    Finish(Result<String, String>),
}

/// How far a run has come: the lines read and the results so far.
pub struct BatchState {
    lines: u64,
    results: Vec<String>,
}

/// The results joined by newlines.
pub open spec fn joined_lines(rs: Seq<Seq<char>>) -> Seq<char>
    decreases rs.len(),
{
    if rs.len() == 0 {
        Seq::empty()
    } else if rs.len() == 1 {
        rs[0]
    } else {
        joined_lines(rs.drop_last()) + seq!['\n'] + rs.last()
    }
}

/// The message of a run refused at line `n` because of `m`.
pub open spec fn line_error(n: nat, m: Seq<char>) -> Seq<char> {
    "line "@ + decimal(n) + ": "@ + m
}

impl BatchState {
    /// The number of lines read, blank ones included.
    pub closed spec fn lines_read(&self) -> nat {
        self.lines as nat
    }

    /// The results of the lines applied so far, in order.
    pub closed spec fn results(&self) -> Seq<Seq<char>> {
        Seq::new(self.results@.len(), |i: int| self.results@[i]@)
    }

    /// A run that has read nothing.
    pub fn new() -> (r: BatchState)
        ensures
            r.lines_read() == 0,
            r.results() == Seq::<Seq<char>>::empty(),
    {
        BatchState { lines: 0, results: Vec::new() }
    }

    /// The number of lines read so far.
    pub fn line_count(&self) -> (n: u64)
        ensures
            n == self.lines_read(),
    {
        self.lines
    }

    /// Takes in what happened and says what to do next.
    pub fn step(&mut self, ev: BatchEvent) -> (a: BatchAction)
        requires
            ev is Line ==> old(self).lines_read() < u64::MAX,
        ensures
            match ev {
                BatchEvent::Line(l) => {
                    &&& final(self).lines_read() == old(self).lines_read() + 1
                    &&& final(self).results() == old(self).results()
                    &&& if trimmed(l@).len() == 0 {
                        a is ReadNext
                    } else {
                        a matches BatchAction::Apply(t) && t@ == trimmed(l@)
                    }
                },
                BatchEvent::Applied(Ok(r)) => {
                    &&& final(self).lines_read() == old(self).lines_read()
                    &&& final(self).results() == old(self).results().push(r@)
                    &&& a is ReadNext
                },
                BatchEvent::Applied(Err(m)) => {
                    &&& final(self).lines_read() == old(self).lines_read()
                    &&& final(self).results() == old(self).results()
                    &&& a matches BatchAction::Finish(Err(e)) && e@ == line_error(
                        old(self).lines_read(),
                        m@,
                    )
                },
                BatchEvent::ReadFailed(m) => {
                    &&& final(self).lines_read() == old(self).lines_read()
                    &&& final(self).results() == old(self).results()
                    &&& a matches BatchAction::Finish(Err(e)) && e@ == m@
                },
                BatchEvent::End => {
                    &&& final(self).lines_read() == old(self).lines_read()
                    &&& final(self).results() == old(self).results()
                    &&& if old(self).results().len() == 0 {
                        a matches BatchAction::Finish(Err(e)) && e@
                            == "no timestamps read from stdin"@
                    } else {
                        a matches BatchAction::Finish(Ok(o)) && o@ == joined_lines(
                            old(self).results(),
                        )
                    }
                },
            },
    {
        match ev {
            BatchEvent::Line(l) => {
                self.lines = self.lines + 1;
                let t = trim(l.as_str());
                if t.unicode_len() == 0 {
                    BatchAction::ReadNext
                } else {
                    BatchAction::Apply(String::from_str(t))
                }
            },
            BatchEvent::Applied(Ok(r)) => {
                let ghost before = self.results();
                self.results.push(r);
                assert(self.results() =~= before.push(r@));
                BatchAction::ReadNext
            },
            BatchEvent::Applied(Err(m)) => {
                let mut e = String::new();
                e.append("line ");
                push_decimal(&mut e, self.lines);
                e.append(": ");
                e.append(m.as_str());
                assert(e@ =~= line_error(self.lines_read(), m@));
                BatchAction::Finish(Err(e))
            },
            BatchEvent::ReadFailed(m) => BatchAction::Finish(Err(m)),
            BatchEvent::End => {
                if self.results.len() == 0 {
                    BatchAction::Finish(Err(String::from_str("no timestamps read from stdin")))
                } else {
                    BatchAction::Finish(Ok(self.joined()))
                }
            },
        }
    }

    /// The results so far, joined by newlines.
    fn joined(&self) -> (r: String)
        ensures
            r@ == joined_lines(self.results()),
    {
        let ghost rs = self.results();
        let mut out = String::new();
        let mut i: usize = 0;
        while i < self.results.len()
            invariant
                i <= self.results@.len(),
                rs == self.results(),
                out@ == joined_lines(rs.take(i as int)),
            decreases self.results@.len() - i,
        {
            assert(rs.take(i + 1).drop_last() =~= rs.take(i as int));
            assert(rs.take(i + 1).last() == self.results@[i as int]@);
            if i > 0 {
                out.push('\n');
            } else {
                assert(rs.take(i as int) =~= Seq::<Seq<char>>::empty());
            }
            out.append(self.results[i].as_str());
            i = i + 1;
        }
        assert(rs.take(i as int) =~= rs);
        out
    }
}

} // verus!
