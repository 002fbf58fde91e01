//! Predicate evaluation: the keep/discard decision read paths apply while
//! scanning. Predicates are constructed upstream; here they are only
//! evaluated, and evaluation is a pure function of the point's time, so a
//! backend may apply it during a scan, push it down, or post-filter, with
//! the same outcome.

use vstd::prelude::*;

verus! {

/// A filter over a point, closed under boolean combination. `Always` is
/// the predicate that keeps everything (a read without a filter).
#[derive(Debug)]
pub enum Predicate {
    /// Keep every point.
    Always,
    /// Discard every point.
    Never,
    /// Keep points with `time >= t`.
    TimeAtLeast(i64),
    /// Keep points with `time < t`.
    TimeBefore(i64),
    /// Keep what the inner predicate discards.
    Not(Box<Predicate>),
    /// Keep what both keep.
    And(Box<Predicate>, Box<Predicate>),
    /// Keep what either keeps.
    Or(Box<Predicate>, Box<Predicate>),
}

/// What a predicate decides for a point at `time`.
pub open spec fn spec_eval(p: Predicate, time: i64) -> bool
    decreases p,
{
    match p {
        Predicate::Always => true,
        Predicate::Never => false,
        Predicate::TimeAtLeast(t) => time >= t,
        Predicate::TimeBefore(t) => time < t,
        Predicate::Not(q) => !spec_eval(*q, time),
        Predicate::And(a, b) => spec_eval(*a, time) && spec_eval(*b, time),
        Predicate::Or(a, b) => spec_eval(*a, time) || spec_eval(*b, time),
    }
}

impl Predicate {
    /// Evaluate the predicate for a point at `time`. Pure: the decision
    /// depends on the predicate and the time alone, and nothing is mutated.
    pub fn eval(&self, time: i64) -> (r: bool)
        ensures
            r == spec_eval(*self, time),
        decreases *self,
    {
        match self {
            Predicate::Always => true,
            Predicate::Never => false,
            Predicate::TimeAtLeast(t) => time >= *t,
            Predicate::TimeBefore(t) => time < *t,
            Predicate::Not(q) => !q.eval(time),
            Predicate::And(a, b) => a.eval(time) && b.eval(time),
            Predicate::Or(a, b) => a.eval(time) || b.eval(time),
        }
    }
}

} // verus!
