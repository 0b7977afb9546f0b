//! The interval primitive: a closed time interval `[start, end]`.

use vstd::prelude::*;
use crate::instant::Instant;

verus! {

/// A closed time interval between two instants. All algebra assumes
/// `start <= end`; an inverted interval is tolerated but yields
/// unspecified (though well-defined) results.
#[derive(Clone, Copy, PartialEq, Eq, Structural, Debug)]
pub struct TimeRange {
    pub start: Instant,
    pub end: Instant,
}

impl TimeRange {
    /// Both endpoints carry an in-range time of day.
    pub open spec fn wf(self) -> bool {
        self.start.wf() && self.end.wf()
    }

    /// The interval is not inverted.
    pub open spec fn valid(self) -> bool {
        self.start.to_nanos() <= self.end.to_nanos()
    }

    /// Closed-interval overlap: touching at a single instant counts.
    pub open spec fn spec_overlaps(self, other: TimeRange) -> bool {
        self.start.to_nanos() <= other.end.to_nanos() && other.start.to_nanos()
            <= self.end.to_nanos()
    }

    /// The covering union of the two bounding ranges, whether or not
    /// they actually overlap.
    pub open spec fn spec_merge(self, other: TimeRange) -> TimeRange {
        TimeRange {
            start: if self.start.to_nanos() <= other.start.to_nanos() {
                self.start
            } else {
                other.start
            },
            end: if self.end.to_nanos() >= other.end.to_nanos() {
                self.end
            } else {
                other.end
            },
        }
    }

    /// An instant lies within the closed interval.
    pub open spec fn spec_contains(self, t: int) -> bool {
        self.start.to_nanos() <= t <= self.end.to_nanos()
    }

    /// Builds an interval from its two endpoints.
    pub fn from(start: Instant, end: Instant) -> (r: TimeRange)
        ensures
            r == (TimeRange { start, end }),
    {
        TimeRange { start, end }
    }

    /// The signed length `end - start` in nanoseconds; negative for an
    /// inverted interval.
    pub fn duration(&self) -> (r: i128)
        ensures
            r == self.end.to_nanos() - self.start.to_nanos(),
    {
        self.end.to_unix_nanos() - self.start.to_unix_nanos()
    }

    /// Closed-interval overlap test; touching endpoints overlap.
    pub fn overlaps(&self, other: &TimeRange) -> (r: bool)
        requires
            self.wf(),
            other.wf(),
        ensures
            r == self.spec_overlaps(*other),
    {
        self.start.le(&other.end) && other.start.le(&self.end)
    }

    /// The covering union of the two bounding ranges, regardless of
    /// whether they overlap; callers that need a true union must check
    /// `overlaps` first.
    pub fn merge(&self, other: &TimeRange) -> (r: TimeRange)
        requires
            self.wf(),
            other.wf(),
        ensures
            r == self.spec_merge(*other),
            r.start.to_nanos() == vstd::math::min(self.start.to_nanos(), other.start.to_nanos()),
            r.end.to_nanos() == vstd::math::max(self.end.to_nanos(), other.end.to_nanos()),
    {
        TimeRange {
            start: if self.start.le(&other.start) {
                self.start
            } else {
                other.start
            },
            end: if other.end.le(&self.end) {
                self.end
            } else {
                other.end
            },
        }
    }
}

/// Overlap is symmetric: `a.overlaps(b)` and `b.overlaps(a)` agree for
/// every pair of intervals.
pub proof fn lemma_overlaps_symmetric(a: TimeRange, b: TimeRange)
    ensures
        a.spec_overlaps(b) == b.spec_overlaps(a),
{
}

/// Merge is commutative, and the merged interval covers both inputs:
/// its start is the minimum of the two starts and its end the maximum
/// of the two ends.
pub proof fn lemma_merge_commutative_covering(a: TimeRange, b: TimeRange)
    requires
        a.wf(),
        b.wf(),
    ensures
        a.spec_merge(b) == b.spec_merge(a),
        a.spec_merge(b).start.to_nanos() == vstd::math::min(a.start.to_nanos(), b.start.to_nanos()),
        a.spec_merge(b).end.to_nanos() == vstd::math::max(a.end.to_nanos(), b.end.to_nanos()),
{
    lemma_instant_eq(a.start, b.start);
    lemma_instant_eq(a.end, b.end);
}

/// Two instants with in-range times of day and the same total
/// nanosecond count are the same value.
pub proof fn lemma_instant_eq(a: Instant, b: Instant)
    requires
        a.wf(),
        b.wf(),
    ensures
        (a.to_nanos() == b.to_nanos()) == (a == b),
{
}

} // verus!
