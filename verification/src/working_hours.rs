//! The recurring weekly working-hours policy and its windowing engine:
//! given a query interval, it walks calendar days to materialize the
//! concrete working windows intersecting the query, handling overnight
//! (midnight-crossing) shifts and optional absolute bounds that clamp
//! every generated window.

use vstd::prelude::*;
use crate::instant::Instant;
use crate::instant::TimeOfDay;
use crate::instant::Weekday;
use crate::instant::weekday_of_day;
use crate::instant::weekday_index;
use crate::instant::weekday_from_index;
use crate::instant::NANOS_PER_DAY;
use crate::time_range::TimeRange;

verus! {

/// The instant on calendar day `day` at time of day `t`.
pub open spec fn instant_on(day: int, t: TimeOfDay) -> Instant {
    Instant { day: day as i64, nanos: t.nanos }
}

/// A recurring weekly policy: a daily start and end time of day, the
/// set of active weekdays, and optional absolute bounds that clamp
/// every generated window. When `start > end` the policy is an
/// overnight shift whose daily window crosses midnight.
#[derive(Clone, Debug)]
pub struct WorkingHours {
    pub start: TimeOfDay,
    pub end: TimeOfDay,
    pub active_days: Vec<Weekday>,
    pub lower_bound: Option<Instant>,
    pub upper_bound: Option<Instant>,
}

impl WorkingHours {
    /// Both times of day are in range, as are the optional bounds.
    pub open spec fn wf(self) -> bool {
        &&& self.start.wf()
        &&& self.end.wf()
        &&& (self.lower_bound matches Some(l) ==> l.wf())
        &&& (self.upper_bound matches Some(u) ==> u.wf())
    }

    /// The policy has at least one active weekday.
    pub open spec fn spec_is_active(self) -> bool {
        self.active_days@.len() != 0
    }

    /// The given weekday is in the active set.
    pub open spec fn spec_active_during_day(self, day: Weekday) -> bool {
        self.active_days@.contains(day)
    }

    /// The calendar day `d` falls on an active weekday.
    pub open spec fn active_on(self, d: int) -> bool {
        self.spec_active_during_day(weekday_of_day(d))
    }

    /// The instant falls on an active weekday and its time of day lies
    /// in `[start, end]`; meaningful for non-overnight policies only.
    pub open spec fn spec_active_during_ts(self, ts: Instant) -> bool {
        self.active_on(ts.day as int) && self.start.nanos <= ts.nanos <= self.end.nanos
    }

    /// The instant lies before the lower bound or after the upper one.
    pub open spec fn spec_exceeds_bounds(self, ts: Instant) -> bool {
        (match self.lower_bound {
            Some(l) => ts.to_nanos() < l.to_nanos(),
            None => false,
        }) || (match self.upper_bound {
            Some(u) => ts.to_nanos() > u.to_nanos(),
            None => false,
        })
    }

    /// The policy's daily window crosses midnight.
    pub open spec fn spec_overnight(self) -> bool {
        self.start.nanos > self.end.nanos
    }

    /// Clamps a window end down to the upper bound.
    pub open spec fn spec_clamp_upper(self, e: Instant) -> Instant {
        match self.upper_bound {
            Some(u) => if e.to_nanos() > u.to_nanos() {
                u
            } else {
                e
            },
            None => e,
        }
    }

    /// Clamps a window start up to the lower bound.
    pub open spec fn spec_clamp_lower(self, s: Instant) -> Instant {
        match self.lower_bound {
            Some(l) => if s.to_nanos() < l.to_nanos() {
                l
            } else {
                s
            },
            None => s,
        }
    }

    /// The latest active day at or before `day`, found within `fuel`
    /// steps.
    pub open spec fn seek_active_back(self, day: int, fuel: nat) -> int
        decreases fuel,
    {
        if fuel == 0 {
            day
        } else if self.active_on(day) {
            day
        } else {
            self.seek_active_back(day - 1, (fuel - 1) as nat)
        }
    }

    /// The earliest active day at or after `day`, found within `fuel`
    /// steps.
    pub open spec fn seek_active_fwd(self, day: int, fuel: nat) -> int
        decreases fuel,
    {
        if fuel == 0 {
            day
        } else if self.active_on(day) {
            day
        } else {
            self.seek_active_fwd(day + 1, (fuel - 1) as nat)
        }
    }

    /// The window the backward search builds on active day `d`: an
    /// overnight shift ends on the following day; the end is clamped
    /// to the upper bound, and for a same-day shift the start is
    /// clamped to the lower bound.
    pub open spec fn prev_window_on(self, d: int) -> TimeRange {
        if self.spec_overnight() {
            TimeRange {
                start: instant_on(d, self.start),
                end: self.spec_clamp_upper(instant_on(d + 1, self.end)),
            }
        } else {
            TimeRange {
                start: self.spec_clamp_lower(instant_on(d, self.start)),
                end: self.spec_clamp_upper(instant_on(d, self.end)),
            }
        }
    }

    /// The window the forward search builds on active day `d`: for an
    /// overnight shift the end lands on the following day, is clamped
    /// to the upper bound, and is pushed one more day forward if the
    /// clamp inverted the window; for a same-day shift both clamps
    /// apply and a window inverted by them is absent.
    pub open spec fn next_window_on(self, d: int) -> Option<TimeRange> {
        if self.spec_overnight() {
            let s = instant_on(d, self.start);
            let e1 = self.spec_clamp_upper(instant_on(d + 1, self.end));
            let e = if e1.to_nanos() < s.to_nanos() {
                Instant { day: (e1.day + 1) as i64, nanos: e1.nanos }
            } else {
                e1
            };
            Some(TimeRange { start: s, end: e })
        } else {
            let s = self.spec_clamp_lower(instant_on(d, self.start));
            let e = self.spec_clamp_upper(instant_on(d, self.end));
            if s.to_nanos() > e.to_nanos() {
                None
            } else {
                Some(TimeRange { start: s, end: e })
            }
        }
    }

    /// The day the backward search lands on: step back one day when
    /// `ts` falls before the daily start time, then to the nearest
    /// active weekday at or before it.
    pub open spec fn prev_search_day(self, ts: Instant) -> int {
        let d0: int = if self.start.nanos > ts.nanos {
            ts.day - 1
        } else {
            ts.day as int
        };
        self.seek_active_back(d0, 7)
    }

    /// The day the forward search lands on: step forward one day when
    /// `ts` falls past both daily times, then to the nearest active
    /// weekday at or after it.
    pub open spec fn next_search_day(self, ts: Instant) -> int {
        let d0: int = if ts.nanos > self.start.nanos && ts.nanos > self.end.nanos {
            ts.day + 1
        } else {
            ts.day as int
        };
        self.seek_active_fwd(d0, 7)
    }

    /// The most recent working window at or before `ts`: absent for an
    /// inactive policy or an instant outside the bounds, else the
    /// window of the nearest active day at or before `ts`.
    pub open spec fn spec_previous_working_hours(self, ts: Instant) -> Option<TimeRange> {
        if !self.spec_is_active() {
            None
        } else if self.spec_exceeds_bounds(ts) {
            None
        } else {
            Some(self.prev_window_on(self.prev_search_day(ts)))
        }
    }

    /// The next working window at or after `ts`: absent for an
    /// inactive policy, an instant outside the bounds, or a same-day
    /// window fully clamped away.
    pub open spec fn spec_next_working_hours(self, ts: Instant) -> Option<TimeRange> {
        if !self.spec_is_active() {
            None
        } else if self.spec_exceeds_bounds(ts) {
            None
        } else {
            self.next_window_on(self.next_search_day(ts))
        }
    }

    /// One day-by-day sweep of the query window: starting from day `d`
    /// at time of day `tod`, while the cursor is before `range_end`,
    /// appends the next working window of each active day, unless it
    /// starts past `range_end` or is already present.
    pub open spec fn spec_walk(self, d: int, tod: u64, range_end: Instant, acc: Seq<TimeRange>)
        -> Seq<TimeRange>
        decreases range_end.to_nanos() - (d * (NANOS_PER_DAY as int) + tod) + (
        NANOS_PER_DAY as int),
    {
        if d * (NANOS_PER_DAY as int) + tod >= range_end.to_nanos() {
            acc
        } else if !self.active_on(d) {
            self.spec_walk(d + 1, tod, range_end, acc)
        } else {
            let cur = Instant { day: d as i64, nanos: tod };
            match self.spec_next_working_hours(cur) {
                Some(w) => {
                    let acc2 = if w.start.to_nanos() <= range_end.to_nanos() && !acc.contains(w) {
                        acc.push(w)
                    } else {
                        acc
                    };
                    self.spec_walk(d + 1, tod, range_end, acc2)
                },
                None => self.spec_walk(d + 1, tod, range_end, acc),
            }
        }
    }

    /// The ordered working windows intersecting the query: a seed from
    /// the window bleeding in from before the query start, then the
    /// day walk, then the first window clipped up to the query start
    /// and the last clipped down to the query end.
    pub open spec fn spec_working_time_in_range(self, range: TimeRange) -> Seq<TimeRange> {
        if !self.spec_is_active() {
            Seq::empty()
        } else {
            let seed = match self.spec_previous_working_hours(range.start) {
                Some(p) => if range.start.to_nanos() <= p.end.to_nanos() {
                    seq![p]
                } else {
                    Seq::empty()
                },
                None => Seq::empty(),
            };
            clip_to_range(
                self.spec_walk(range.start.day as int, range.start.nanos, range.end, seed),
                range,
            )
        }
    }

    /// The policy has at least one active weekday.
    pub fn is_active(&self) -> (r: bool)
        ensures
            r == self.spec_is_active(),
    {
        self.active_days.len() != 0
    }

    /// Membership test against the active weekday set.
    pub fn active_during_day(&self, day: Weekday) -> (r: bool)
        ensures
            r == self.spec_active_during_day(day),
    {
        let mut i: usize = 0;
        while i < self.active_days.len()
            invariant
                i <= self.active_days@.len(),
                forall|j: int| 0 <= j < i ==> self.active_days@[j] != day,
            decreases self.active_days@.len() - i,
        {
            if self.active_days[i] == day {
                return true;
            }
            i = i + 1;
        }
        false
    }

    /// True iff `ts` falls on an active weekday with a time of day in
    /// `[start, end]`. Meaningful for non-overnight policies; for an
    /// overnight policy it under-reports the part of a window that
    /// crosses midnight.
    pub fn active_during_ts(&self, ts: Instant) -> (r: bool)
        ensures
            r == self.spec_active_during_ts(ts),
    {
        self.active_during_day(ts.weekday()) && self.start.nanos <= ts.nanos && ts.nanos
            <= self.end.nanos
    }

    /// True iff `ts` lies before the configured lower bound or after
    /// the configured upper bound.
    pub fn exceeds_bounds(&self, ts: Instant) -> (r: bool)
        requires
            self.wf(),
            ts.wf(),
        ensures
            r == self.spec_exceeds_bounds(ts),
    {
        let lower_exceeded = match self.lower_bound {
            Some(l) => ts.lt(&l),
            None => false,
        };
        let upper_exceeded = match self.upper_bound {
            Some(u) => u.lt(&ts),
            None => false,
        };
        lower_exceeded || upper_exceeded
    }

    /// The most recent working window at or before `ts`, if any: steps
    /// back a day when `ts` precedes the daily start time, lands on
    /// the nearest active weekday, and builds that day's window with
    /// the overnight adjustment and the bound clamps.
    #[verifier::rlimit(50)]
    pub fn previous_working_hours(&self, ts: Instant) -> (r: Option<TimeRange>)
        requires
            self.wf(),
            ts.wf(),
            i64::MIN + 8 <= ts.day,
            ts.day < i64::MAX,
        ensures
            r == self.spec_previous_working_hours(ts),
            r matches Some(w) ==> w.wf(),
    {
        if !self.is_active() {
            return None;
        }
        if self.exceeds_bounds(ts) {
            return None;
        }
        let mut current = ts;
        if self.start.nanos > ts.nanos {
            current = current.add_days(-1);
        }
        let ghost d0 = current.day as int;
        proof {
            self.lemma_active_day_within_back(d0);
        }
        let mut active = self.active_during_day(current.weekday());
        while !active
            invariant
                self.wf(),
                self.spec_is_active(),
                i64::MIN + 8 <= ts.day,
                ts.day - 1 <= d0 <= ts.day,
                current.nanos == ts.nanos,
                d0 - 6 <= current.day <= d0,
                active == self.active_on(current.day as int),
                forall|x: int| current.day < x <= d0 ==> !self.active_on(x),
                exists|k: int| 0 <= k < 7 && #[trigger] self.active_on(d0 - k),
            decreases current.day - (d0 - 7),
        {
            proof {
                let k = choose|k: int| 0 <= k < 7 && #[trigger] self.active_on(d0 - k);
                assert(d0 - k < current.day);
            }
            current = current.add_days(-1);
            active = self.active_during_day(current.weekday());
        }
        proof {
            self.lemma_seek_back_exact(d0, current.day as int, 7);
        }
        if self.start.nanos > self.end.nanos {
            let start_date = current.replace_time(self.start);
            let mut end_date = current.replace_time(self.end);
            if end_date.lt(&start_date) {
                end_date = end_date.add_days(1);
            }
            if let Some(u) = self.upper_bound {
                if u.lt(&end_date) {
                    end_date = u;
                }
            }
            return Some(TimeRange { start: start_date, end: end_date });
        }
        let mut end = current.replace_time(self.end);
        if let Some(u) = self.upper_bound {
            if u.lt(&end) {
                end = u;
            }
        }
        let mut start = current.replace_time(self.start);
        if let Some(l) = self.lower_bound {
            if start.lt(&l) {
                start = l;
            }
        }
        Some(TimeRange { start, end })
    }

    /// The next working window at or after `ts`, if any: steps forward
    /// a day when `ts` lies past both daily times, lands on the
    /// nearest active weekday, and builds that day's window with the
    /// overnight adjustment and the bound clamps; a same-day window
    /// fully clamped away is absent.
    #[verifier::rlimit(50)]
    pub fn next_working_hours(&self, ts: Instant) -> (r: Option<TimeRange>)
        requires
            self.wf(),
            ts.wf(),
            ts.day <= i64::MAX - 9,
            (self.upper_bound matches Some(u) ==> u.day < i64::MAX),
        ensures
            r == self.spec_next_working_hours(ts),
            r matches Some(w) ==> w.wf(),
    {
        if !self.is_active() {
            return None;
        }
        if self.exceeds_bounds(ts) {
            return None;
        }
        let mut current = ts;
        if ts.nanos > self.start.nanos && ts.nanos > self.end.nanos {
            current = current.add_days(1);
        }
        let ghost d0 = current.day as int;
        proof {
            self.lemma_active_day_within_fwd(d0);
        }
        let mut active = self.active_during_day(current.weekday());
        while !active
            invariant
                self.wf(),
                self.spec_is_active(),
                ts.day <= i64::MAX - 9,
                ts.day <= d0 <= ts.day + 1,
                current.nanos == ts.nanos,
                d0 <= current.day <= d0 + 6,
                active == self.active_on(current.day as int),
                forall|x: int| d0 <= x < current.day ==> !self.active_on(x),
                exists|k: int| 0 <= k < 7 && #[trigger] self.active_on(d0 + k),
            decreases (d0 + 7) - current.day,
        {
            proof {
                let k = choose|k: int| 0 <= k < 7 && #[trigger] self.active_on(d0 + k);
                assert(current.day < d0 + k);
            }
            current = current.add_days(1);
            active = self.active_during_day(current.weekday());
        }
        proof {
            self.lemma_seek_fwd_exact(d0, current.day as int, 7);
        }
        if self.start.nanos > self.end.nanos {
            let start_date = current.replace_time(self.start);
            let mut end_date = current.replace_time(self.end).add_days(1);
            if let Some(u) = self.upper_bound {
                if u.lt(&end_date) {
                    end_date = u;
                }
            }
            if end_date.lt(&start_date) {
                end_date = end_date.add_days(1);
            }
            return Some(TimeRange { start: start_date, end: end_date });
        }
        let mut end = current.replace_time(self.end);
        if let Some(u) = self.upper_bound {
            if u.lt(&end) {
                end = u;
            }
        }
        let mut start = current.replace_time(self.start);
        if let Some(l) = self.lower_bound {
            if start.lt(&l) {
                start = l;
            }
        }
        if end.lt(&start) {
            return None;
        }
        Some(TimeRange { start, end })
    }

    /// The ordered sequence of working windows intersecting `range`,
    /// clipped to it: seeded with the most recent window when it
    /// bleeds into the query, then one candidate per active day
    /// walking from the query start (duplicates and windows starting
    /// past the query end are dropped), with the first window's start
    /// raised to the query start and the last window's end lowered to
    /// the query end. An inactive policy yields nothing.
    #[verifier::rlimit(50)]
    pub fn working_time_in_range(&self, range: TimeRange) -> (r: Vec<TimeRange>)
        requires
            self.wf(),
            range.wf(),
            i64::MIN + 8 <= range.start.day,
            range.start.day <= i64::MAX - 9,
            range.end.day <= i64::MAX - 10,
            (self.upper_bound matches Some(u) ==> u.day < i64::MAX),
        ensures
            r@ == self.spec_working_time_in_range(range),
            crate::vec_range::all_wf(r@),
    {
        let mut working_times: Vec<TimeRange> = Vec::new();
        if !self.is_active() {
            return working_times;
        }
        if let Some(previous) = self.previous_working_hours(range.start) {
            if range.start.le(&previous.end) {
                working_times.push(previous);
            }
        }
        let ghost seed = working_times@;
        let mut current = range.start;
        let mut cont = current.lt(&range.end);
        while cont
            invariant
                self.wf(),
                range.wf(),
                self.spec_is_active(),
                range.end.day <= i64::MAX - 10,
                (self.upper_bound matches Some(u) ==> u.day < i64::MAX),
                current.wf(),
                current.nanos == range.start.nanos,
                range.start.day <= current.day,
                cont ==> current.day <= range.end.day,
                cont == (current.to_nanos() < range.end.to_nanos()),
                crate::vec_range::all_wf(working_times@),
                self.spec_walk(
                    range.start.day as int,
                    range.start.nanos,
                    range.end,
                    seed,
                ) == self.spec_walk(
                    current.day as int,
                    range.start.nanos,
                    range.end,
                    working_times@,
                ),
            decreases range.end.to_nanos() - current.to_nanos() + NANOS_PER_DAY,
        {
            let active = self.active_during_day(current.weekday());
            if active {
                let next_shift = self.next_working_hours(current);
                if let Some(next_wh) = next_shift {
                    if next_wh.start.le(&range.end) && !contains_range(
                        &working_times,
                        &next_wh,
                    ) {
                        working_times.push(next_wh);
                    }
                }
            }
            current = current.add_days(1);
            cont = current.lt(&range.end);
        }
        if working_times.len() > 0 {
            let first = working_times[0];
            if first.start.lt(&range.start) {
                let clipped = TimeRange { start: range.start, end: first.end };
                let ghost before = working_times@;
                working_times.remove(0);
                working_times.insert(0, clipped);
                proof {
                    assert(working_times@ =~= before.update(0, clipped));
                }
            }
        }
        if working_times.len() > 0 {
            let last_index = working_times.len() - 1;
            let last = working_times[last_index];
            if range.end.lt(&last.end) {
                let clipped = TimeRange { start: last.start, end: range.end };
                let ghost before = working_times@;
                working_times.remove(last_index);
                working_times.push(clipped);
                proof {
                    assert(working_times@ =~= before.update(last_index as int, clipped));
                }
            }
        }
        working_times
    }

    /// Some weekday in the seven days at or before `d0` is active,
    /// because some weekday at all is.
    proof fn lemma_active_day_within_back(self, d0: int)
        requires
            self.spec_is_active(),
        ensures
            exists|k: int| 0 <= k < 7 && #[trigger] self.active_on(d0 - k),
    {
        let w = self.active_days@[0];
        assert(self.spec_active_during_day(w));
        lemma_weekday_back(d0, w);
        let k = choose|k: int| 0 <= k < 7 && #[trigger] weekday_of_day(d0 - k) == w;
        assert(self.active_on(d0 - k));
    }

    /// Some weekday in the seven days at or after `d0` is active,
    /// because some weekday at all is.
    proof fn lemma_active_day_within_fwd(self, d0: int)
        requires
            self.spec_is_active(),
        ensures
            exists|k: int| 0 <= k < 7 && #[trigger] self.active_on(d0 + k),
    {
        let w = self.active_days@[0];
        assert(self.spec_active_during_day(w));
        lemma_weekday_fwd(d0, w);
        let k = choose|k: int| 0 <= k < 7 && #[trigger] weekday_of_day(d0 + k) == w;
        assert(self.active_on(d0 + k));
    }

    /// The backward search lands exactly on the nearest active day.
    proof fn lemma_seek_back_exact(self, d0: int, d: int, fuel: nat)
        requires
            d <= d0,
            d0 - d < fuel,
            self.active_on(d),
            forall|x: int| d < x <= d0 ==> !self.active_on(x),
        ensures
            self.seek_active_back(d0, fuel) == d,
        decreases fuel,
    {
        if d0 != d {
            assert(!self.active_on(d0));
            self.lemma_seek_back_exact(d0 - 1, d, (fuel - 1) as nat);
        }
    }

    /// The forward search lands exactly on the nearest active day.
    proof fn lemma_seek_fwd_exact(self, d0: int, d: int, fuel: nat)
        requires
            d0 <= d,
            d - d0 < fuel,
            self.active_on(d),
            forall|x: int| d0 <= x < d ==> !self.active_on(x),
        ensures
            self.seek_active_fwd(d0, fuel) == d,
        decreases fuel,
    {
        if d0 != d {
            assert(!self.active_on(d0));
            self.lemma_seek_fwd_exact(d0 + 1, d, (fuel - 1) as nat);
        }
    }

    /// When an active day lies within reach, the forward search lands
    /// on the nearest one.
    proof fn lemma_seek_fwd_found(self, d: int, fuel: nat)
        requires
            exists|k: int| 0 <= k < fuel && #[trigger] self.active_on(d + k),
        ensures
            d <= self.seek_active_fwd(d, fuel) < d + fuel,
            self.active_on(self.seek_active_fwd(d, fuel)),
            forall|x: int| d <= x < self.seek_active_fwd(d, fuel) ==> !self.active_on(x),
        decreases fuel,
    {
        if !self.active_on(d) {
            let k = choose|k: int| 0 <= k < fuel && #[trigger] self.active_on(d + k);
            assert(k != 0);
            assert(self.active_on(d + 1 + (k - 1)));
            self.lemma_seek_fwd_found(d + 1, (fuel - 1) as nat);
        }
    }

    /// For an active policy, the forward search from any day lands on
    /// the nearest active day, within the week.
    proof fn lemma_seek_fwd_props(self, d: int)
        requires
            self.spec_is_active(),
        ensures
            d <= self.seek_active_fwd(d, 7) < d + 7,
            self.active_on(self.seek_active_fwd(d, 7)),
            forall|x: int| d <= x < self.seek_active_fwd(d, 7) ==> !self.active_on(x),
    {
        self.lemma_active_day_within_fwd(d);
        self.lemma_seek_fwd_found(d, 7);
    }

    /// The candidate window the walk computes when standing on day `d`
    /// with the cursor's time of day `tod`.
    pub open spec fn walk_candidate(self, d: int, tod: u64) -> Option<TimeRange> {
        self.spec_next_working_hours(Instant { day: d as i64, nanos: tod })
    }

    /// The day the forward search starting at an active day `d` lands
    /// on lies between `d` and the next active day after it.
    proof fn lemma_candidate_day(self, d: int, tod: u64) -> (nsd: int)
        requires
            self.spec_is_active(),
            self.active_on(d),
            tod < NANOS_PER_DAY,
            i64::MIN + 8 <= d <= i64::MAX - 10,
            !self.spec_exceeds_bounds(Instant { day: d as i64, nanos: tod }),
        ensures
            nsd == self.next_search_day(Instant { day: d as i64, nanos: tod }),
            self.walk_candidate(d, tod) == self.next_window_on(nsd),
            d <= nsd < d + 8,
            self.active_on(nsd),
            tod <= self.start.nanos || tod <= self.end.nanos ==> nsd == d,
            tod > self.start.nanos && tod > self.end.nanos ==> d + 1 <= nsd,
            forall|x: int| d + 1 <= x < nsd ==> !self.active_on(x),
    {
        let cur = Instant { day: d as i64, nanos: tod };
        if tod > self.start.nanos && tod > self.end.nanos {
            self.lemma_seek_fwd_props(d + 1);
            self.next_search_day(cur)
        } else {
            assert(self.seek_active_fwd(d, 7) == d);
            self.next_search_day(cur)
        }
    }

    /// Candidate windows of two active days the walk visits in order
    /// never slide backwards: the later window starts at or after the
    /// earlier one's start, and strictly after the earlier one's end.
    proof fn lemma_candidate_sep(self, da: int, db: int, tod: u64)
        requires
            self.wf(),
            self.spec_is_active(),
            self.active_on(da),
            self.active_on(db),
            tod < NANOS_PER_DAY,
            i64::MIN + 8 <= da,
            da < db,
            db <= i64::MAX - 10,
            (self.upper_bound matches Some(u) ==> u.day < i64::MAX),
            !self.spec_exceeds_bounds(Instant { day: da as i64, nanos: tod }),
            !self.spec_exceeds_bounds(Instant { day: db as i64, nanos: tod }),
        ensures
            (self.walk_candidate(da, tod) matches Some(w) ==> self.walk_candidate(db, tod)
                matches Some(w2) ==> w.start.to_nanos() <= w2.start.to_nanos()
                && w.end.to_nanos() < w2.start.to_nanos()),
    {
        let na = self.lemma_candidate_day(da, tod);
        let nb = self.lemma_candidate_day(db, tod);
        if tod > self.start.nanos && tod > self.end.nanos {
            assert(na <= db) by {
                if db < na {
                    assert(!self.active_on(db));
                }
            }
            assert(na < nb);
        } else {
            assert(na == da && nb == db);
        }
        self.lemma_window_sep(na, nb);
    }

    /// Windows built by the forward search on two distinct days, the
    /// earlier of them in hand, never touch: the earlier ends strictly
    /// before the later starts, and starts no later than it.
    proof fn lemma_window_sep(self, dd: int, dn: int)
        requires
            self.wf(),
            dd < dn,
            i64::MIN + 8 <= dd,
            dn <= i64::MAX - 2,
            (self.upper_bound matches Some(u) ==> u.day < i64::MAX),
        ensures
            (self.next_window_on(dd) matches Some(w) ==> self.next_window_on(dn) matches Some(w2)
                ==> w.start.to_nanos() <= w2.start.to_nanos() && w.end.to_nanos()
                < w2.start.to_nanos()),
    {
        if self.spec_overnight() {
            let s = instant_on(dd, self.start);
            let e1 = self.spec_clamp_upper(instant_on(dd + 1, self.end));
            if e1.to_nanos() < s.to_nanos() {
                assert(e1.to_nanos() + NANOS_PER_DAY < s.to_nanos() + NANOS_PER_DAY);
                assert(s.to_nanos() + NANOS_PER_DAY <= instant_on(dn, self.start).to_nanos());
            } else {
                assert(e1.to_nanos() <= instant_on(dd + 1, self.end).to_nanos());
                assert(instant_on(dd + 1, self.end).to_nanos() < instant_on(
                    dn,
                    self.start,
                ).to_nanos());
            }
        }
    }

    /// A candidate window of day `d` never starts before that day.
    proof fn lemma_candidate_start_bound(self, d: int, tod: u64)
        requires
            self.wf(),
            self.spec_is_active(),
            self.active_on(d),
            tod < NANOS_PER_DAY,
            i64::MIN + 8 <= d <= i64::MAX - 10,
            !self.spec_exceeds_bounds(Instant { day: d as i64, nanos: tod }),
        ensures
            (self.walk_candidate(d, tod) matches Some(w) ==> w.start.to_nanos() >= d * (
            NANOS_PER_DAY as int)),
    {
        let nsd = self.lemma_candidate_day(d, tod);
    }

    /// When an active day lies within reach, the backward search lands
    /// on the nearest one.
    proof fn lemma_seek_back_found(self, d: int, fuel: nat)
        requires
            exists|k: int| 0 <= k < fuel && #[trigger] self.active_on(d - k),
        ensures
            d - fuel < self.seek_active_back(d, fuel) <= d,
            self.active_on(self.seek_active_back(d, fuel)),
            forall|x: int| self.seek_active_back(d, fuel) < x <= d ==> !self.active_on(x),
        decreases fuel,
    {
        if !self.active_on(d) {
            let k = choose|k: int| 0 <= k < fuel && #[trigger] self.active_on(d - k);
            assert(k != 0);
            assert(self.active_on(d - 1 - (k - 1)));
            self.lemma_seek_back_found(d - 1, (fuel - 1) as nat);
        }
    }

    /// For an active policy, the backward search from any day lands on
    /// the nearest active day, within the week.
    proof fn lemma_seek_back_props(self, d: int)
        requires
            self.spec_is_active(),
        ensures
            d - 7 < self.seek_active_back(d, 7) <= d,
            self.active_on(self.seek_active_back(d, 7)),
            forall|x: int| self.seek_active_back(d, 7) < x <= d ==> !self.active_on(x),
    {
        self.lemma_active_day_within_back(d);
        self.lemma_seek_back_found(d, 7);
    }

    /// A window the backward search builds never reaches into a window
    /// the forward search builds on a strictly later day.
    proof fn lemma_prev_next_sep(self, dp: int, dn: int)
        requires
            self.wf(),
            dp < dn,
            i64::MIN <= dp,
            dn <= i64::MAX - 2,
            (self.upper_bound matches Some(u) ==> u.day < i64::MAX),
        ensures
            (self.next_window_on(dn) matches Some(w2) ==> self.prev_window_on(
                dp,
            ).start.to_nanos() <= w2.start.to_nanos() && self.prev_window_on(dp).end.to_nanos()
                < w2.start.to_nanos()),
    {
    }

    /// The seeded window never reaches into any candidate the walk can
    /// append, except as the very same window.
    proof fn lemma_seed_sep(self, qs: Instant, d2: int)
        requires
            self.wf(),
            self.spec_is_active(),
            qs.wf(),
            i64::MIN + 8 <= qs.day,
            self.active_on(d2),
            qs.day <= d2 <= i64::MAX - 10,
            (self.upper_bound matches Some(u) ==> u.day < i64::MAX),
            !self.spec_exceeds_bounds(qs),
            !self.spec_exceeds_bounds(Instant { day: d2 as i64, nanos: qs.nanos }),
        ensures
            (self.walk_candidate(d2, qs.nanos) matches Some(w2) ==> {
                let p = self.prev_window_on(self.prev_search_day(qs));
                p.start.to_nanos() <= w2.start.to_nanos() && (p.end.to_nanos()
                    < w2.start.to_nanos() || p == w2)
            }),
    {
        let tod = qs.nanos;
        let d0p: int = if self.start.nanos > tod {
            qs.day - 1
        } else {
            qs.day as int
        };
        self.lemma_seek_back_props(d0p);
        let psd = self.prev_search_day(qs);
        let nsd = self.lemma_candidate_day(d2, tod);
        if psd < nsd {
            self.lemma_prev_next_sep(psd, nsd);
        } else {
            assert(psd == qs.day && d2 == qs.day && nsd == qs.day);
            if self.spec_overnight() {
                let s = instant_on(qs.day as int, self.start);
                let e1 = self.spec_clamp_upper(instant_on(qs.day + 1, self.end));
                if e1.to_nanos() < s.to_nanos() {
                    assert(self.prev_window_on(psd).end == e1);
                }
            }
        }
    }

    /// A first-day candidate that starts before the cursor is exactly
    /// the window the backward search finds for the cursor's instant.
    proof fn lemma_candidate_below_start(self, qs: Instant)
        requires
            self.wf(),
            self.spec_is_active(),
            qs.wf(),
            self.active_on(qs.day as int),
            i64::MIN + 8 <= qs.day <= i64::MAX - 10,
            !self.spec_exceeds_bounds(qs),
        ensures
            (self.walk_candidate(qs.day as int, qs.nanos) matches Some(w) ==> (w.start.to_nanos()
                < qs.to_nanos() ==> self.spec_previous_working_hours(qs) == Some(w))),
    {
        let tod = qs.nanos;
        let nsd = self.lemma_candidate_day(qs.day as int, tod);
        if let Some(w) = self.walk_candidate(qs.day as int, tod) {
            if w.start.to_nanos() < qs.to_nanos() {
                assert(nsd == qs.day) by {
                    if nsd > qs.day {
                        assert(w.start.to_nanos() >= instant_on(nsd, self.start).to_nanos());
                    }
                }
                assert(!self.spec_overnight());
                assert(self.start.nanos < tod);
                assert(self.prev_search_day(qs) == qs.day);
            }
        }
    }

    /// The collected windows stay ordered and inside the query as the
    /// walk advances: every window after the seed starts inside the
    /// query, starts never decrease, and each window ends strictly
    /// before the next one starts.
    proof fn lemma_walk_props(self, d: int, range: TimeRange, acc: Seq<TimeRange>)
        requires
            self.wf(),
            self.spec_is_active(),
            range.wf(),
            i64::MIN + 8 <= range.start.day,
            range.end.day <= i64::MAX - 10,
            (self.upper_bound matches Some(u) ==> u.day < i64::MAX),
            range.start.day <= d,
            forall|i: int|
                1 <= i < acc.len() ==> (#[trigger] acc[i]).start.to_nanos()
                    >= range.start.to_nanos(),
            forall|i: int|
                1 <= i < acc.len() ==> (#[trigger] acc[i]).start.to_nanos()
                    <= range.end.to_nanos(),
            forall|i: int, j: int|
                0 <= i <= j < acc.len() ==> acc[i].start.to_nanos() <= acc[j].start.to_nanos(),
            forall|i: int, j: int|
                0 <= i < j < acc.len() ==> acc[i].end.to_nanos() < acc[j].start.to_nanos(),
            forall|i: int, d2: int|
                #![trigger acc[i], self.active_on(d2)]
                0 <= i < acc.len() && d <= d2 <= range.end.day && self.active_on(d2) ==> (
                match self.walk_candidate(d2, range.start.nanos) {
                    Some(w2) => acc[i].start.to_nanos() <= w2.start.to_nanos() && (
                    acc[i].end.to_nanos() < w2.start.to_nanos() || acc.contains(w2)),
                    None => true,
                }),
            d == range.start.day ==> acc.len() <= 1 && (acc.len() == 1
                ==> self.spec_previous_working_hours(range.start) == Some(acc[0])),
        ensures
            ({
                let res = self.spec_walk(d, range.start.nanos, range.end, acc);
                &&& forall|i: int|
                    1 <= i < res.len() ==> (#[trigger] res[i]).start.to_nanos()
                        >= range.start.to_nanos()
                &&& forall|i: int|
                    1 <= i < res.len() ==> (#[trigger] res[i]).start.to_nanos()
                        <= range.end.to_nanos()
                &&& forall|i: int, j: int|
                    0 <= i <= j < res.len() ==> res[i].start.to_nanos() <= res[j].start.to_nanos()
                &&& forall|i: int, j: int|
                    0 <= i < j < res.len() ==> res[i].end.to_nanos() < res[j].start.to_nanos()
            }),
        decreases range.end.to_nanos() - (d * (NANOS_PER_DAY as int) + range.start.nanos) + (
        NANOS_PER_DAY as int),
    {
        let tod = range.start.nanos;
        let pos = d * (NANOS_PER_DAY as int) + tod;
        if pos >= range.end.to_nanos() {
        } else {
            assert(d <= range.end.day) by {
                if d > range.end.day {
                    assert(pos >= (range.end.day + 1) * (NANOS_PER_DAY as int));
                }
            }
            let cur = Instant { day: d as i64, nanos: tod };
            if !self.active_on(d) {
                self.lemma_walk_props(d + 1, range, acc);
                assert(self.spec_walk(d, tod, range.end, acc) == self.spec_walk(
                    d + 1,
                    tod,
                    range.end,
                    acc,
                ));
            } else {
                match self.spec_next_working_hours(cur) {
                    Some(w) => {
                        assert(self.walk_candidate(d, tod) == Some(w));
                        if w.start.to_nanos() <= range.end.to_nanos() && !acc.contains(w) {
                            assert(!self.spec_exceeds_bounds(cur));
                            let acc2 = acc.push(w);
                            // the new window follows everything collected
                            assert forall|i: int| 0 <= i < acc.len() implies acc[i].start.to_nanos()
                                <= w.start.to_nanos() && acc[i].end.to_nanos()
                                < w.start.to_nanos() by {
                                assert(self.active_on(d));
                            }
                            // it starts inside the query unless it is the very first
                            if d == range.start.day {
                                if w.start.to_nanos() < range.start.to_nanos() {
                                    assert(cur == range.start);
                                    self.lemma_candidate_below_start(range.start);
                                    assert(acc.len() == 0);
                                }
                            } else {
                                self.lemma_candidate_start_bound(d, tod);
                                assert(w.start.to_nanos() >= d * (NANOS_PER_DAY as int));
                                assert(d * (NANOS_PER_DAY as int) >= (range.start.day + 1) * (
                                NANOS_PER_DAY as int));
                            }
                            // relate the grown collection to the candidates ahead
                            assert forall|i: int, d2: int|
                                #![trigger acc2[i], self.active_on(d2)]
                                0 <= i < acc2.len() && d + 1 <= d2 <= range.end.day
                                    && self.active_on(d2) implies (match self.walk_candidate(
                                d2,
                                tod,
                            ) {
                                Some(w2) => acc2[i].start.to_nanos() <= w2.start.to_nanos() && (
                                acc2[i].end.to_nanos() < w2.start.to_nanos() || acc2.contains(w2)),
                                None => true,
                            }) by {
                                match self.walk_candidate(d2, tod) {
                                    Some(w2) => {
                                        assert(!self.spec_exceeds_bounds(
                                            Instant { day: d2 as i64, nanos: tod },
                                        ));
                                        if i < acc.len() {
                                            assert(acc2[i] == acc[i]);
                                            if acc[i].end.to_nanos() >= w2.start.to_nanos() {
                                                assert(acc.contains(w2));
                                                let m = choose|m: int|
                                                    0 <= m < acc.len() && acc[m] == w2;
                                                assert(acc2[m] == w2);
                                                assert(acc2.contains(w2));
                                            }
                                        } else {
                                            assert(acc2[i] == w);
                                            self.lemma_candidate_sep(d, d2, tod);
                                        }
                                    },
                                    None => {},
                                }
                            }
                            self.lemma_walk_props(d + 1, range, acc2);
                            assert(self.spec_walk(d, tod, range.end, acc) == self.spec_walk(
                                d + 1,
                                tod,
                                range.end,
                                acc2,
                            ));
                        } else {
                            self.lemma_walk_props(d + 1, range, acc);
                            assert(self.spec_walk(d, tod, range.end, acc) == self.spec_walk(
                                d + 1,
                                tod,
                                range.end,
                                acc,
                            ));
                        }
                    },
                    None => {
                        self.lemma_walk_props(d + 1, range, acc);
                        assert(self.spec_walk(d, tod, range.end, acc) == self.spec_walk(
                            d + 1,
                            tod,
                            range.end,
                            acc,
                        ));
                    },
                }
            }
        }
    }

    /// Every materialized window lies inside the query interval, and
    /// the sequence never steps backwards: each window's start is at or
    /// past the query start, each window's end is at or before the
    /// query end, and starts are non-decreasing.
    pub proof fn lemma_working_time_within_query(self, range: TimeRange)
        requires
            self.wf(),
            range.wf(),
            i64::MIN + 8 <= range.start.day,
            range.start.day <= i64::MAX - 9,
            range.end.day <= i64::MAX - 10,
            (self.upper_bound matches Some(u) ==> u.day < i64::MAX),
        ensures
            ({
                let out = self.spec_working_time_in_range(range);
                &&& forall|i: int|
                    0 <= i < out.len() ==> (#[trigger] out[i]).start.to_nanos()
                        >= range.start.to_nanos()
                &&& forall|i: int|
                    0 <= i < out.len() ==> (#[trigger] out[i]).end.to_nanos()
                        <= range.end.to_nanos()
                &&& forall|i: int, j: int|
                    0 <= i <= j < out.len() ==> out[i].start.to_nanos() <= out[j].start.to_nanos()
            }),
    {
        if self.spec_is_active() {
            let tod = range.start.nanos;
            let seed: Seq<TimeRange> = match self.spec_previous_working_hours(range.start) {
                Some(p) => if range.start.to_nanos() <= p.end.to_nanos() {
                    seq![p]
                } else {
                    Seq::empty()
                },
                None => Seq::empty(),
            };
            if seed.len() == 1 {
                let p = seed[0];
                assert(!self.spec_exceeds_bounds(range.start));
                assert forall|i: int, d2: int|
                    #![trigger seed[i], self.active_on(d2)]
                    0 <= i < seed.len() && range.start.day <= d2 <= range.end.day
                        && self.active_on(d2) implies (match self.walk_candidate(d2, tod) {
                    Some(w2) => seed[i].start.to_nanos() <= w2.start.to_nanos() && (
                    seed[i].end.to_nanos() < w2.start.to_nanos() || seed.contains(w2)),
                    None => true,
                }) by {
                    match self.walk_candidate(d2, tod) {
                        Some(w2) => {
                            assert(!self.spec_exceeds_bounds(
                                Instant { day: d2 as i64, nanos: tod },
                            ));
                            self.lemma_seed_sep(range.start, d2);
                            if p == w2 {
                                assert(seed[0] == w2);
                                assert(seed.contains(w2));
                            }
                        },
                        None => {},
                    }
                }
            }
            self.lemma_walk_props(range.start.day as int, range, seed);
            let walked = self.spec_walk(range.start.day as int, tod, range.end, seed);
            let out = self.spec_working_time_in_range(range);
            assert(out == clip_to_range(walked, range));
            assert forall|i: int| 0 <= i < out.len() implies (#[trigger] out[i]).end.to_nanos()
                <= range.end.to_nanos() by {
                if i < out.len() - 1 {
                    assert(out[i].end == walked[i].end);
                    assert(walked[i].end.to_nanos() < walked[walked.len() - 1].start.to_nanos());
                }
            }
        }
    }
}

/// Clips the first interval's start up to the range start and the last
/// interval's end down to the range end.
pub open spec fn clip_to_range(s: Seq<TimeRange>, range: TimeRange) -> Seq<TimeRange> {
    let s1 = if s.len() > 0 && s[0].start.to_nanos() < range.start.to_nanos() {
        s.update(0, TimeRange { start: range.start, end: s[0].end })
    } else {
        s
    };
    if s1.len() > 0 && s1[s1.len() - 1].end.to_nanos() > range.end.to_nanos() {
        s1.update(s1.len() - 1, TimeRange { start: s1[s1.len() - 1].start, end: range.end })
    } else {
        s1
    }
}

/// Membership test for a window in the collected results.
fn contains_range(v: &Vec<TimeRange>, w: &TimeRange) -> (r: bool)
    ensures
        r == v@.contains(*w),
{
    let mut i: usize = 0;
    while i < v.len()
        invariant
            i <= v@.len(),
            forall|j: int| 0 <= j < i ==> v@[j] != *w,
        decreases v@.len() - i,
    {
        if v[i] == *w {
            return true;
        }
        i = i + 1;
    }
    false
}

/// Every weekday occurs among any seven consecutive days ending at
/// `day`.
proof fn lemma_weekday_back(day: int, w: Weekday)
    ensures
        exists|k: int| 0 <= k < 7 && #[trigger] weekday_of_day(day - k) == w,
{
    let i = (day + 3) % 7;
    let j = weekday_index(w);
    let k = if i >= j {
        i - j
    } else {
        i - j + 7
    };
    let q = (day + 3) / 7;
    vstd::arithmetic::div_mod::lemma_fundamental_div_mod(day + 3, 7);
    if i >= j {
        assert(day - k + 3 == 7 * q + j);
        vstd::arithmetic::div_mod::lemma_mod_multiples_vanish(q, j, 7);
    } else {
        assert(day - k + 3 == 7 * (q - 1) + j);
        vstd::arithmetic::div_mod::lemma_mod_multiples_vanish(q - 1, j, 7);
    }
    assert(j % 7 == j);
    assert(weekday_of_day(day - k) == weekday_from_index(j));
    assert(weekday_from_index(weekday_index(w)) == w);
    assert(0 <= k < 7 && weekday_of_day(day - k) == w);
}

/// Every weekday occurs among any seven consecutive days starting at
/// `day`.
proof fn lemma_weekday_fwd(day: int, w: Weekday)
    ensures
        exists|k: int| 0 <= k < 7 && #[trigger] weekday_of_day(day + k) == w,
{
    let i = (day + 3) % 7;
    let j = weekday_index(w);
    let k = if j >= i {
        j - i
    } else {
        j - i + 7
    };
    let q = (day + 3) / 7;
    vstd::arithmetic::div_mod::lemma_fundamental_div_mod(day + 3, 7);
    if j >= i {
        assert(day + k + 3 == 7 * q + j);
        vstd::arithmetic::div_mod::lemma_mod_multiples_vanish(q, j, 7);
    } else {
        assert(day + k + 3 == 7 * (q + 1) + j);
        vstd::arithmetic::div_mod::lemma_mod_multiples_vanish(q + 1, j, 7);
    }
    assert(j % 7 == j);
    assert(weekday_of_day(day + k) == weekday_from_index(j));
    assert(weekday_from_index(weekday_index(w)) == w);
    assert(0 <= k < 7 && weekday_of_day(day + k) == w);
}

} // verus!
