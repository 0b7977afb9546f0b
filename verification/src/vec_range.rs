//! Algebra over an ordered sequence of intervals: projections,
//! containment and overlap queries, a clipped-intersection query,
//! deduplication by merging, and gap extraction.

use vstd::prelude::*;
use crate::instant::Instant;
use crate::time_range::TimeRange;

verus! {

/// Every interval in the sequence has in-range times of day.
pub open spec fn all_wf(s: Seq<TimeRange>) -> bool {
    forall|i: int| 0 <= i < s.len() ==> s[i].wf()
}

/// Every interval in the sequence is not inverted.
pub open spec fn all_valid(s: Seq<TimeRange>) -> bool {
    forall|i: int| 0 <= i < s.len() ==> s[i].valid()
}

/// Some interval of the sequence contains the instant `t`.
pub open spec fn covered(s: Seq<TimeRange>, t: int) -> bool {
    exists|i: int| 0 <= i < s.len() && s[i].spec_contains(t)
}

/// The first interval of the sequence, in sequence order, that
/// contains the instant `t`.
pub open spec fn spec_range_within_ts(s: Seq<TimeRange>, t: int) -> Option<TimeRange>
    decreases s.len(),
{
    if s.len() == 0 {
        None
    } else if s[0].spec_contains(t) {
        Some(s[0])
    } else {
        spec_range_within_ts(s.drop_first(), t)
    }
}

/// The first interval of the sequence, in sequence order, that
/// overlaps the query interval.
pub open spec fn spec_overlapping(s: Seq<TimeRange>, query: TimeRange) -> Option<TimeRange>
    decreases s.len(),
{
    if s.len() == 0 {
        None
    } else if query.spec_overlaps(s[0]) {
        Some(s[0])
    } else {
        spec_overlapping(s.drop_first(), query)
    }
}

/// The clipped intersection of a query against the whole collection;
/// see `get_overlapping_range`.
pub open spec fn spec_get_overlapping_range(s: Seq<TimeRange>, tr: TimeRange) -> Option<
    TimeRange,
> {
    let range_start = spec_range_within_ts(s, tr.start.to_nanos());
    let range_end = spec_range_within_ts(s, tr.end.to_nanos());
    match (range_start, range_end) {
        (Some(found_start), Some(found_end)) => if found_start.end != found_end.end {
            Some(TimeRange { start: tr.start, end: found_start.end })
        } else {
            Some(TimeRange { start: tr.start, end: tr.end })
        },
        (Some(found_start), None) => Some(TimeRange { start: tr.start, end: found_start.end }),
        (None, Some(found_end)) => Some(TimeRange { start: found_end.start, end: tr.end }),
        (None, None) => spec_overlapping(s, tr),
    }
}

/// Inserts an interval into a sequence just before its first element
/// whose start is strictly later; in a sequence sorted by start this
/// places it after any element with an equal start.
pub open spec fn insert_by_start(r: TimeRange, s: Seq<TimeRange>) -> Seq<TimeRange>
    decreases s.len(),
{
    if s.len() == 0 {
        seq![r]
    } else if r.start.to_nanos() < s[0].start.to_nanos() {
        seq![r] + s
    } else {
        seq![s[0]] + insert_by_start(r, s.drop_first())
    }
}

/// Stable sort of the sequence, ascending by start instant.
pub open spec fn sort_by_start(s: Seq<TimeRange>) -> Seq<TimeRange>
    decreases s.len(),
{
    if s.len() == 0 {
        Seq::empty()
    } else {
        insert_by_start(s.last(), sort_by_start(s.drop_last()))
    }
}

/// Adjacent starts never decrease.
pub open spec fn sorted_by_start(s: Seq<TimeRange>) -> bool {
    forall|i: int, j: int|
        0 <= i <= j < s.len() ==> s[i].start.to_nanos() <= s[j].start.to_nanos()
}

/// No two adjacent intervals overlap (closed-interval sense).
pub open spec fn adjacent_disjoint(s: Seq<TimeRange>) -> bool {
    forall|i: int| 0 <= i < s.len() - 1 ==> !(#[trigger] s[i]).spec_overlaps(s[i + 1])
}

/// The left-to-right fold that merges every run of overlapping
/// intervals into one: `cur` is the accumulator, `rest` the sorted
/// remainder.
pub open spec fn merge_chain(cur: TimeRange, rest: Seq<TimeRange>) -> Seq<TimeRange>
    decreases rest.len(),
{
    if rest.len() == 0 {
        seq![cur]
    } else if cur.spec_overlaps(rest[0]) {
        merge_chain(cur.spec_merge(rest[0]), rest.drop_first())
    } else {
        seq![cur] + merge_chain(rest[0], rest.drop_first())
    }
}

/// Sorts the sequence by start and merges every run of overlapping
/// intervals; see `dedup_overlapping_ranges`.
pub open spec fn spec_dedup(s: Seq<TimeRange>) -> Seq<TimeRange> {
    if s.len() == 0 {
        Seq::empty()
    } else {
        let t = sort_by_start(s);
        merge_chain(t[0], t.drop_first())
    }
}

/// The gaps between consecutive intervals of an already sorted and
/// deduplicated sequence.
pub open spec fn spec_gaps(s: Seq<TimeRange>) -> Seq<TimeRange>
    decreases s.len(),
{
    if s.len() < 2 {
        Seq::empty()
    } else {
        let head = if s[0].end == s[1].start {
            Seq::<TimeRange>::empty()
        } else {
            seq![TimeRange { start: s[0].end, end: s[1].start }]
        };
        head + spec_gaps(s.drop_first())
    }
}

/// The gaps of the sequence; a single-element sequence yields a
/// trailing gap up to the supplied bounds, if any; see
/// `times_between_contents`.
pub open spec fn spec_times_between(s: Seq<TimeRange>, bounds: Option<TimeRange>) -> Seq<
    TimeRange,
> {
    if s.len() == 1 {
        match bounds {
            Some(b) => if s[0].end.to_nanos() < b.end.to_nanos() {
                seq![TimeRange { start: s[0].end, end: b.end }]
            } else {
                Seq::empty()
            },
            None => Seq::empty(),
        }
    } else {
        spec_gaps(s)
    }
}

/// The start instants of the intervals, in sequence order.
pub fn starts(ranges: &Vec<TimeRange>) -> (r: Vec<Instant>)
    ensures
        r@.len() == ranges@.len(),
        forall|i: int| 0 <= i < r@.len() ==> r@[i] == ranges@[i].start,
{
    let mut out: Vec<Instant> = Vec::new();
    let mut i: usize = 0;
    while i < ranges.len()
        invariant
            i <= ranges@.len(),
            out@.len() == i,
            forall|j: int| 0 <= j < i ==> out@[j] == ranges@[j].start,
        decreases ranges@.len() - i,
    {
        out.push(ranges[i].start);
        i = i + 1;
    }
    out
}

/// The end instants of the intervals, in sequence order.
pub fn ends(ranges: &Vec<TimeRange>) -> (r: Vec<Instant>)
    ensures
        r@.len() == ranges@.len(),
        forall|i: int| 0 <= i < r@.len() ==> r@[i] == ranges@[i].end,
{
    let mut out: Vec<Instant> = Vec::new();
    let mut i: usize = 0;
    while i < ranges.len()
        invariant
            i <= ranges@.len(),
            out@.len() == i,
            forall|j: int| 0 <= j < i ==> out@[j] == ranges@[j].end,
        decreases ranges@.len() - i,
    {
        out.push(ranges[i].end);
        i = i + 1;
    }
    out
}

/// True iff some interval of the sequence contains `ts` under
/// closed-interval semantics.
pub fn contains_ts(ranges: &Vec<TimeRange>, ts: Instant) -> (r: bool)
    requires
        all_wf(ranges@),
        ts.wf(),
    ensures
        r == covered(ranges@, ts.to_nanos()),
{
    let mut i: usize = 0;
    while i < ranges.len()
        invariant
            all_wf(ranges@),
            ts.wf(),
            i <= ranges@.len(),
            forall|j: int| 0 <= j < i ==> !ranges@[j].spec_contains(ts.to_nanos()),
        decreases ranges@.len() - i,
    {
        let r = ranges[i];
        if r.start.le(&ts) && ts.le(&r.end) {
            return true;
        }
        i = i + 1;
    }
    false
}

/// The first interval, in sequence order, containing `ts`, if any.
pub fn range_within_ts(ranges: &Vec<TimeRange>, ts: Instant) -> (r: Option<TimeRange>)
    requires
        all_wf(ranges@),
        ts.wf(),
    ensures
        r == spec_range_within_ts(ranges@, ts.to_nanos()),
{
    let mut i: usize = 0;
    proof {
        assert(ranges@.skip(0) =~= ranges@);
    }
    while i < ranges.len()
        invariant
            all_wf(ranges@),
            ts.wf(),
            i <= ranges@.len(),
            spec_range_within_ts(ranges@, ts.to_nanos()) == spec_range_within_ts(
                ranges@.skip(i as int),
                ts.to_nanos(),
            ),
        decreases ranges@.len() - i,
    {
        let r = ranges[i];
        proof {
            assert(ranges@.skip(i as int)[0] == ranges@[i as int]);
            assert(ranges@.skip(i as int).drop_first() =~= ranges@.skip(i as int + 1));
        }
        if r.start.le(&ts) && ts.le(&r.end) {
            return Some(r);
        }
        i = i + 1;
    }
    None
}

/// The first interval, in sequence order, that overlaps the query, if
/// any.
pub fn overlaps(ranges: &Vec<TimeRange>, query: &TimeRange) -> (r: Option<TimeRange>)
    requires
        all_wf(ranges@),
        query.wf(),
    ensures
        r == spec_overlapping(ranges@, *query),
{
    let mut i: usize = 0;
    proof {
        assert(ranges@.skip(0) =~= ranges@);
    }
    while i < ranges.len()
        invariant
            all_wf(ranges@),
            query.wf(),
            i <= ranges@.len(),
            spec_overlapping(ranges@, *query) == spec_overlapping(
                ranges@.skip(i as int),
                *query,
            ),
        decreases ranges@.len() - i,
    {
        let r = ranges[i];
        proof {
            assert(ranges@.skip(i as int)[0] == ranges@[i as int]);
            assert(ranges@.skip(i as int).drop_first() =~= ranges@.skip(i as int + 1));
        }
        if query.overlaps(&r) {
            return Some(r);
        }
        i = i + 1;
    }
    None
}

/// The clipped intersection of `tr` against the collection. When both
/// of `tr`'s endpoints land inside (possibly different) intervals, the
/// result is `tr` itself if they land in the same interval (compared
/// by end instant), else `tr` clipped to the end of the interval
/// holding `tr.start`. With only `tr.start` inside an interval, the
/// result runs from `tr.start` to that interval's end; with only
/// `tr.end` inside one, from that interval's start to `tr.end`. When
/// neither endpoint lands inside but some interval overlaps `tr`, the
/// first such interval is returned unchanged; otherwise there is no
/// result.
pub fn get_overlapping_range(ranges: &Vec<TimeRange>, tr: TimeRange) -> (r: Option<TimeRange>)
    requires
        all_wf(ranges@),
        tr.wf(),
    ensures
        r == spec_get_overlapping_range(ranges@, tr),
{
    let range_start = range_within_ts(ranges, tr.start);
    let range_end = range_within_ts(ranges, tr.end);
    match (range_start, range_end) {
        (Some(found_start), Some(found_end)) => {
            if found_start.end == found_end.end {
                Some(TimeRange { start: tr.start, end: tr.end })
            } else {
                Some(TimeRange { start: tr.start, end: found_start.end })
            }
        },
        (Some(found_start), None) => Some(TimeRange { start: tr.start, end: found_start.end }),
        (None, Some(found_end)) => Some(TimeRange { start: found_end.start, end: tr.end }),
        (None, None) => overlaps(ranges, &tr),
    }
}

/// `insert_by_start` is plain insertion at the first position whose
/// start is strictly later.
proof fn lemma_insert_by_start_at(r: TimeRange, s: Seq<TimeRange>, j: int)
    requires
        0 <= j <= s.len(),
        forall|k: int| 0 <= k < j ==> s[k].start.to_nanos() <= r.start.to_nanos(),
        j < s.len() ==> s[j].start.to_nanos() > r.start.to_nanos(),
    ensures
        insert_by_start(r, s) == s.insert(j, r),
    decreases j,
{
    if j == 0 {
        if s.len() == 0 {
            assert(insert_by_start(r, s) =~= s.insert(0, r));
        } else {
            assert(r.start.to_nanos() < s[0].start.to_nanos());
            assert(seq![r] + s =~= s.insert(0, r));
        }
    } else {
        assert(s[0].start.to_nanos() <= r.start.to_nanos());
        lemma_insert_by_start_at(r, s.drop_first(), j - 1);
        assert(seq![s[0]] + s.drop_first().insert(j - 1, r) =~= s.insert(j, r));
    }
}

/// Stable insertion sort: inserts each input interval, in input order,
/// before the first already-placed interval with a strictly later
/// start.
fn sort_ranges(ranges: &Vec<TimeRange>) -> (r: Vec<TimeRange>)
    requires
        all_wf(ranges@),
    ensures
        r@ == sort_by_start(ranges@),
        all_wf(r@),
{
    let mut out: Vec<TimeRange> = Vec::new();
    let mut i: usize = 0;
    proof {
        assert(ranges@.take(0) =~= Seq::<TimeRange>::empty());
    }
    while i < ranges.len()
        invariant
            all_wf(ranges@),
            i <= ranges@.len(),
            out@ == sort_by_start(ranges@.take(i as int)),
            all_wf(out@),
        decreases ranges@.len() - i,
    {
        let v = ranges[i];
        let j = find_insert_pos(&out, &v);
        let ghost old_out = out@;
        out.insert(j, v);
        proof {
            lemma_insert_by_start_at(v, old_out, j as int);
            assert(ranges@.take(i as int + 1).drop_last() =~= ranges@.take(i as int));
            assert(ranges@.take(i as int + 1).last() == ranges@[i as int]);
            assert(all_wf(out@)) by {
                assert forall|k: int| 0 <= k < out@.len() implies out@[k].wf() by {
                    if k < j {
                        assert(out@[k] == old_out[k]);
                    } else if k == j {
                        assert(out@[k] == v);
                    } else {
                        assert(out@[k] == old_out[k - 1]);
                    }
                }
            }
        }
        i = i + 1;
    }
    proof {
        assert(ranges@.take(ranges@.len() as int) =~= ranges@);
    }
    out
}

/// `insert_by_start` adds exactly one element.
proof fn lemma_insert_by_start_len(r: TimeRange, s: Seq<TimeRange>)
    ensures
        insert_by_start(r, s).len() == s.len() + 1,
    decreases s.len(),
{
    if s.len() != 0 && !(r.start.to_nanos() < s[0].start.to_nanos()) {
        lemma_insert_by_start_len(r, s.drop_first());
    }
}

/// Sorting keeps the length.
pub proof fn lemma_sort_by_start_len(s: Seq<TimeRange>)
    ensures
        sort_by_start(s).len() == s.len(),
    decreases s.len(),
{
    if s.len() != 0 {
        lemma_sort_by_start_len(s.drop_last());
        lemma_insert_by_start_len(s.last(), sort_by_start(s.drop_last()));
    }
}

/// The first index of `out` whose start is strictly later than `v`'s,
/// or the length if there is none.
fn find_insert_pos(out: &Vec<TimeRange>, v: &TimeRange) -> (j: usize)
    requires
        all_wf(out@),
        v.wf(),
    ensures
        j <= out@.len(),
        forall|k: int| 0 <= k < j ==> out@[k].start.to_nanos() <= v.start.to_nanos(),
        j < out@.len() ==> out@[j as int].start.to_nanos() > v.start.to_nanos(),
{
    let mut j: usize = 0;
    while j < out.len()
        invariant
            all_wf(out@),
            v.wf(),
            j <= out@.len(),
            forall|k: int| 0 <= k < j ==> out@[k].start.to_nanos() <= v.start.to_nanos(),
        decreases out@.len() - j,
    {
        if v.start.lt(&out[j].start) {
            return j;
        }
        j = j + 1;
    }
    j
}

/// Sorts the collection ascending by start, then folds left to right,
/// merging every interval that overlaps the running accumulator
/// (touching endpoints count) and emitting the accumulator whenever a
/// gap is reached. The result is sorted and pairwise non-overlapping;
/// an empty input yields an empty output.
pub fn dedup_overlapping_ranges(ranges: Vec<TimeRange>) -> (r: Vec<TimeRange>)
    requires
        all_wf(ranges@),
    ensures
        r@ == spec_dedup(ranges@),
        all_wf(r@),
{
    if ranges.len() == 0 {
        return ranges;
    }
    let sorted = sort_ranges(&ranges);
    proof {
        lemma_sort_by_start_len(ranges@);
        assert(sorted@.drop_first() =~= sorted@.skip(1));
        assert(Seq::<TimeRange>::empty() + merge_chain(sorted@[0], sorted@.skip(1))
            =~= merge_chain(sorted@[0], sorted@.skip(1)));
    }
    let mut result: Vec<TimeRange> = Vec::new();
    let mut current = sorted[0];
    let mut i: usize = 1;
    while i < sorted.len()
        invariant
            all_wf(sorted@),
            current.wf(),
            all_wf(result@),
            1 <= i <= sorted@.len(),
            merge_chain(sorted@[0], sorted@.drop_first()) == result@ + merge_chain(
                current,
                sorted@.skip(i as int),
            ),
        decreases sorted@.len() - i,
    {
        let r = sorted[i];
        proof {
            assert(sorted@.skip(i as int)[0] == sorted@[i as int]);
            assert(sorted@.skip(i as int).drop_first() =~= sorted@.skip(i as int + 1));
        }
        if current.overlaps(&r) {
            current = current.merge(&r);
        } else {
            proof {
                assert(result@ + (seq![current] + merge_chain(r, sorted@.skip(i as int + 1)))
                    =~= result@.push(current) + merge_chain(r, sorted@.skip(i as int + 1)));
            }
            result.push(current);
            current = r;
        }
        i = i + 1;
    }
    proof {
        assert(sorted@.skip(sorted@.len() as int) =~= Seq::<TimeRange>::empty());
        assert(result@ + seq![current] =~= result@.push(current));
    }
    result.push(current);
    result
}

/// The gaps between consecutive intervals of a sequence assumed
/// already sorted and deduplicated: for each adjacent pair a gap from
/// the earlier end to the later start, unless they touch exactly. A
/// single-element sequence yields one trailing gap up to `bounds.end`,
/// and only if the element ends before it; with no bounds, or fewer
/// than two elements otherwise, there are no gaps.
pub fn times_between_contents(ranges: Vec<TimeRange>, bounds: Option<TimeRange>) -> (r: Vec<
    TimeRange,
>)
    requires
        all_wf(ranges@),
        (bounds matches Some(b) ==> b.wf()),
    ensures
        r@ == spec_times_between(ranges@, bounds),
{
    let mut out: Vec<TimeRange> = Vec::new();
    if ranges.len() == 1 {
        if let Some(b) = bounds {
            if ranges[0].end.lt(&b.end) {
                out.push(TimeRange { start: ranges[0].end, end: b.end });
            }
        }
        return out;
    }
    if ranges.len() == 0 {
        return out;
    }
    let mut i: usize = 0;
    proof {
        assert(ranges@.skip(0) =~= ranges@);
        assert(Seq::<TimeRange>::empty() + spec_gaps(ranges@) =~= spec_gaps(ranges@));
    }
    while i < ranges.len() - 1
        invariant
            all_wf(ranges@),
            2 <= ranges@.len(),
            i <= ranges@.len() - 1,
            spec_gaps(ranges@) == out@ + spec_gaps(ranges@.skip(i as int)),
        decreases ranges@.len() - i,
    {
        let current = ranges[i];
        let next = ranges[i + 1];
        proof {
            assert(ranges@.skip(i as int)[0] == ranges@[i as int]);
            assert(ranges@.skip(i as int)[1] == ranges@[i as int + 1]);
            assert(ranges@.skip(i as int).drop_first() =~= ranges@.skip(i as int + 1));
        }
        if current.end == next.start {
            proof {
                assert(Seq::<TimeRange>::empty() + spec_gaps(ranges@.skip(i as int + 1))
                    =~= spec_gaps(ranges@.skip(i as int + 1)));
                assert(out@ + (Seq::<TimeRange>::empty() + spec_gaps(
                    ranges@.skip(i as int + 1),
                )) =~= out@ + spec_gaps(ranges@.skip(i as int + 1)));
            }
        } else {
            let gap = TimeRange { start: current.end, end: next.start };
            proof {
                assert(out@ + (seq![gap] + spec_gaps(ranges@.skip(i as int + 1)))
                    =~= out@.push(gap) + spec_gaps(ranges@.skip(i as int + 1)));
            }
            out.push(gap);
        }
        i = i + 1;
    }
    proof {
        assert(spec_gaps(ranges@.skip(ranges@.len() - 1)).len() == 0);
        assert(out@ + spec_gaps(ranges@.skip(ranges@.len() - 1)) =~= out@);
    }
    out
}

/// Facts about one insertion step: it adds exactly the inserted
/// element, and it keeps the sequence sorted by start.
proof fn lemma_insert_by_start_props(r: TimeRange, s: Seq<TimeRange>)
    ensures
        insert_by_start(r, s).len() == s.len() + 1,
        forall|k: int|
            0 <= k < insert_by_start(r, s).len() ==> ((#[trigger] insert_by_start(r, s)[k]) == r
                || s.contains(insert_by_start(r, s)[k])),
        sorted_by_start(s) ==> sorted_by_start(insert_by_start(r, s)),
    decreases s.len(),
{
    let res = insert_by_start(r, s);
    if s.len() == 0 {
        assert(res[0] == r);
    } else if r.start.to_nanos() < s[0].start.to_nanos() {
        assert forall|k: int| 0 <= k < res.len() implies (res[k] == r || s.contains(res[k])) by {
            if k > 0 {
                assert(res[k] == s[k - 1]);
                assert(s.contains(res[k]));
            }
        }
        if sorted_by_start(s) {
            assert forall|i: int, j: int|
                0 <= i <= j < res.len() implies res[i].start.to_nanos()
                <= res[j].start.to_nanos() by {
                if i > 0 {
                    assert(res[i] == s[i - 1]);
                    assert(res[j] == s[j - 1]);
                } else if j > 0 {
                    assert(res[j] == s[j - 1]);
                    assert(s[0].start.to_nanos() <= s[j - 1].start.to_nanos());
                }
            }
        }
    } else {
        lemma_insert_by_start_props(r, s.drop_first());
        let tail = insert_by_start(r, s.drop_first());
        assert forall|k: int| 0 <= k < res.len() implies (res[k] == r || s.contains(res[k])) by {
            if k == 0 {
                assert(res[0] == s[0]);
                assert(s.contains(s[0]));
            } else {
                assert(res[k] == tail[k - 1]);
                if tail[k - 1] != r {
                    assert(s.drop_first().contains(tail[k - 1]));
                    let m = choose|m: int|
                        0 <= m < s.drop_first().len() && s.drop_first()[m] == tail[k - 1];
                    assert(s[m + 1] == tail[k - 1]);
                    assert(s.contains(res[k]));
                }
            }
        }
        if sorted_by_start(s) {
            assert(sorted_by_start(s.drop_first()));
            assert forall|i: int, j: int|
                0 <= i <= j < res.len() implies res[i].start.to_nanos()
                <= res[j].start.to_nanos() by {
                if i > 0 {
                    assert(res[i] == tail[i - 1]);
                    assert(res[j] == tail[j - 1]);
                } else if j > 0 {
                    assert(res[j] == tail[j - 1]);
                    if tail[j - 1] == r {
                        assert(s[0].start.to_nanos() <= r.start.to_nanos());
                    } else {
                        let m = choose|m: int|
                            0 <= m < s.drop_first().len() && s.drop_first()[m] == tail[j - 1];
                        assert(s[m + 1] == tail[j - 1]);
                        assert(s[0].start.to_nanos() <= s[m + 1].start.to_nanos());
                    }
                }
            }
        }
    }
}

/// The stable sort really sorts, and returns only input elements.
pub proof fn lemma_sort_by_start_sorted(s: Seq<TimeRange>)
    ensures
        sorted_by_start(sort_by_start(s)),
        forall|k: int|
            0 <= k < sort_by_start(s).len() ==> s.contains(#[trigger] sort_by_start(s)[k]),
    decreases s.len(),
{
    if s.len() != 0 {
        lemma_sort_by_start_sorted(s.drop_last());
        lemma_insert_by_start_props(s.last(), sort_by_start(s.drop_last()));
        let res = sort_by_start(s);
        let prev = sort_by_start(s.drop_last());
        assert forall|k: int| 0 <= k < res.len() implies s.contains(#[trigger] res[k]) by {
            if res[k] == s.last() {
                assert(s[s.len() - 1] == s.last());
                assert(s.contains(res[k]));
            } else {
                assert(prev.contains(res[k]));
                let m = choose|m: int| 0 <= m < prev.len() && prev[m] == res[k];
                assert(s.drop_last().contains(prev[m]));
                let n = choose|n: int|
                    0 <= n < s.drop_last().len() && s.drop_last()[n] == prev[m];
                assert(s[n] == res[k]);
                assert(s.contains(res[k]));
            }
        }
    }
}

/// Prepending one interval to a sequence covers an instant exactly
/// when the interval or the sequence does.
proof fn lemma_covered_cons(x: TimeRange, s: Seq<TimeRange>, t: int)
    ensures
        covered(seq![x] + s, t) == (x.spec_contains(t) || covered(s, t)),
{
    let c = seq![x] + s;
    if x.spec_contains(t) {
        assert(c[0] == x);
        assert(covered(c, t));
    }
    if covered(s, t) {
        let i = choose|i: int| 0 <= i < s.len() && s[i].spec_contains(t);
        assert(c[i + 1] == s[i]);
        assert(covered(c, t));
    }
    if covered(c, t) {
        let i = choose|i: int| 0 <= i < c.len() && c[i].spec_contains(t);
        if i > 0 {
            assert(s[i - 1] == c[i]);
            assert(covered(s, t));
        }
    }
}

/// Inserting one interval adds exactly its own coverage.
proof fn lemma_insert_by_start_covered(r: TimeRange, s: Seq<TimeRange>, t: int)
    ensures
        covered(insert_by_start(r, s), t) == (r.spec_contains(t) || covered(s, t)),
    decreases s.len(),
{
    if s.len() == 0 {
        assert(insert_by_start(r, s) =~= seq![r] + Seq::<TimeRange>::empty());
        lemma_covered_cons(r, Seq::empty(), t);
        assert(!covered(Seq::<TimeRange>::empty(), t));
        assert(covered(s, t) == covered(Seq::<TimeRange>::empty(), t));
    } else if r.start.to_nanos() < s[0].start.to_nanos() {
        lemma_covered_cons(r, s, t);
    } else {
        lemma_insert_by_start_covered(r, s.drop_first(), t);
        lemma_covered_cons(s[0], insert_by_start(r, s.drop_first()), t);
        lemma_covered_cons(s[0], s.drop_first(), t);
        assert(seq![s[0]] + s.drop_first() =~= s);
    }
}

/// Sorting does not change which instants are covered.
pub proof fn lemma_sort_by_start_covered(s: Seq<TimeRange>, t: int)
    ensures
        covered(sort_by_start(s), t) == covered(s, t),
    decreases s.len(),
{
    if s.len() != 0 {
        lemma_sort_by_start_covered(s.drop_last(), t);
        lemma_insert_by_start_covered(s.last(), sort_by_start(s.drop_last()), t);
        if s.last().spec_contains(t) {
            assert(covered(s, t));
        }
        if covered(s.drop_last(), t) {
            let i = choose|i: int| 0 <= i < s.drop_last().len() && s.drop_last()[i].spec_contains(t);
            assert(s[i] == s.drop_last()[i]);
            assert(covered(s, t));
        }
        if covered(s, t) {
            let i = choose|i: int| 0 <= i < s.len() && s[i].spec_contains(t);
            if i < s.len() - 1 {
                assert(s.drop_last()[i] == s[i]);
                assert(covered(s.drop_last(), t));
            } else {
                assert(s.last() == s[i]);
            }
        }
    }
}

/// Merging two overlapping intervals covers exactly the instants the
/// two cover between them (touching intervals leave no new ground).
proof fn lemma_merge_covered(a: TimeRange, b: TimeRange, t: int)
    requires
        a.spec_overlaps(b),
    ensures
        a.spec_merge(b).spec_contains(t) == (a.spec_contains(t) || b.spec_contains(t)),
{
}

/// The merging fold covers exactly what its accumulator and remainder
/// cover.
proof fn lemma_merge_chain_covered(cur: TimeRange, rest: Seq<TimeRange>, t: int)
    ensures
        covered(merge_chain(cur, rest), t) == (cur.spec_contains(t) || covered(rest, t)),
    decreases rest.len(),
{
    if rest.len() == 0 {
        assert(merge_chain(cur, rest) =~= seq![cur] + Seq::<TimeRange>::empty());
        lemma_covered_cons(cur, Seq::empty(), t);
    } else {
        assert(seq![rest[0]] + rest.drop_first() =~= rest);
        lemma_covered_cons(rest[0], rest.drop_first(), t);
        if cur.spec_overlaps(rest[0]) {
            lemma_merge_chain_covered(cur.spec_merge(rest[0]), rest.drop_first(), t);
            lemma_merge_covered(cur, rest[0], t);
        } else {
            lemma_merge_chain_covered(rest[0], rest.drop_first(), t);
            lemma_covered_cons(cur, merge_chain(rest[0], rest.drop_first()), t);
        }
    }
}

/// Deduplication preserves total temporal coverage: an instant lies in
/// some interval of `spec_dedup(s)` exactly when it lies in some
/// interval of `s`.
pub proof fn lemma_dedup_preserves_coverage(s: Seq<TimeRange>, t: int)
    ensures
        covered(spec_dedup(s), t) == covered(s, t),
{
    if s.len() == 0 {
        assert(!covered(spec_dedup(s), t));
        assert(!covered(s, t));
    } else {
        lemma_sort_by_start_len(s);
        let sorted = sort_by_start(s);
        lemma_merge_chain_covered(sorted[0], sorted.drop_first(), t);
        assert(seq![sorted[0]] + sorted.drop_first() =~= sorted);
        lemma_covered_cons(sorted[0], sorted.drop_first(), t);
        lemma_sort_by_start_covered(s, t);
    }
}

/// The merging fold on a sorted remainder whose starts all follow the
/// accumulator's yields a sorted, pairwise non-overlapping sequence of
/// valid intervals that begins at the accumulator's start.
proof fn lemma_merge_chain_props(cur: TimeRange, rest: Seq<TimeRange>)
    requires
        cur.valid(),
        all_valid(rest),
        sorted_by_start(rest),
        forall|k: int|
            0 <= k < rest.len() ==> cur.start.to_nanos() <= (#[trigger] rest[k]).start.to_nanos(),
    ensures
        merge_chain(cur, rest).len() >= 1,
        all_valid(merge_chain(cur, rest)),
        sorted_by_start(merge_chain(cur, rest)),
        adjacent_disjoint(merge_chain(cur, rest)),
        merge_chain(cur, rest)[0].start == cur.start,
    decreases rest.len(),
{
    let res = merge_chain(cur, rest);
    if rest.len() == 0 {
        assert(res =~= seq![cur]);
    } else if cur.spec_overlaps(rest[0]) {
        let merged = cur.spec_merge(rest[0]);
        assert(merged.start == cur.start);
        assert(merged.valid());
        assert(all_valid(rest.drop_first())) by {
            assert(forall|k: int|
                0 <= k < rest.drop_first().len() ==> rest.drop_first()[k] == rest[k + 1]);
        }
        assert(sorted_by_start(rest.drop_first())) by {
            assert(forall|k: int|
                0 <= k < rest.drop_first().len() ==> rest.drop_first()[k] == rest[k + 1]);
        }
        assert(forall|k: int|
            0 <= k < rest.drop_first().len() ==> merged.start.to_nanos() <= (#[trigger] rest.drop_first()[k]).start.to_nanos()) by {
            assert(forall|k: int|
                0 <= k < rest.drop_first().len() ==> rest.drop_first()[k] == rest[k + 1]);
        }
        lemma_merge_chain_props(merged, rest.drop_first());
    } else {
        assert(all_valid(rest.drop_first())) by {
            assert(forall|k: int|
                0 <= k < rest.drop_first().len() ==> rest.drop_first()[k] == rest[k + 1]);
        }
        assert(sorted_by_start(rest.drop_first())) by {
            assert(forall|k: int|
                0 <= k < rest.drop_first().len() ==> rest.drop_first()[k] == rest[k + 1]);
        }
        assert(forall|k: int|
            0 <= k < rest.drop_first().len() ==> rest[0].start.to_nanos() <= (#[trigger] rest.drop_first()[k]).start.to_nanos()) by {
            assert(forall|k: int|
                0 <= k < rest.drop_first().len() ==> rest.drop_first()[k] == rest[k + 1]);
        }
        lemma_merge_chain_props(rest[0], rest.drop_first());
        let tail = merge_chain(rest[0], rest.drop_first());
        // the emitted accumulator does not overlap anything later:
        // the next group starts strictly after its end
        assert(rest[0].start.to_nanos() > cur.end.to_nanos());
        assert forall|i: int, j: int|
            0 <= i <= j < res.len() implies res[i].start.to_nanos() <= res[j].start.to_nanos() by {
            if i > 0 {
                assert(res[i] == tail[i - 1]);
                assert(res[j] == tail[j - 1]);
            } else if j > 0 {
                assert(res[j] == tail[j - 1]);
                assert(tail[0].start.to_nanos() <= tail[j - 1].start.to_nanos());
            }
        }
        assert forall|i: int| 0 <= i < res.len() - 1 implies !(#[trigger] res[i]).spec_overlaps(
            res[i + 1],
        ) by {
            if i == 0 {
                assert(res[1] == tail[0]);
                assert(tail[0].start == rest[0].start);
            } else {
                assert(res[i] == tail[i - 1]);
                assert(res[i + 1] == tail[i]);
            }
        }
        assert forall|i: int| 0 <= i < res.len() implies (#[trigger] res[i]).valid() by {
            if i > 0 {
                assert(res[i] == tail[i - 1]);
            }
        }
    }
}

/// The deduplicated sequence is sorted ascending by start, its
/// intervals are valid, and no two adjacent intervals overlap.
pub proof fn lemma_dedup_sorted_disjoint(s: Seq<TimeRange>)
    requires
        all_valid(s),
    ensures
        all_valid(spec_dedup(s)),
        sorted_by_start(spec_dedup(s)),
        adjacent_disjoint(spec_dedup(s)),
        s.len() != 0 ==> spec_dedup(s).len() >= 1,
{
    if s.len() != 0 {
        lemma_sort_by_start_len(s);
        lemma_sort_by_start_sorted(s);
        let sorted = sort_by_start(s);
        assert(all_valid(sorted)) by {
            assert forall|k: int| 0 <= k < sorted.len() implies (#[trigger] sorted[k]).valid() by {
                assert(s.contains(sorted[k]));
                let m = choose|m: int| 0 <= m < s.len() && s[m] == sorted[k];
                assert(s[m].valid());
            }
        }
        assert(all_valid(sorted.drop_first())) by {
            assert(forall|k: int|
                0 <= k < sorted.drop_first().len() ==> sorted.drop_first()[k] == sorted[k + 1]);
        }
        assert(sorted_by_start(sorted.drop_first())) by {
            assert(forall|k: int|
                0 <= k < sorted.drop_first().len() ==> sorted.drop_first()[k] == sorted[k + 1]);
        }
        assert(forall|k: int|
            0 <= k < sorted.drop_first().len() ==> sorted[0].start.to_nanos() <= (
            #[trigger] sorted.drop_first()[k]).start.to_nanos()) by {
            assert(forall|k: int|
                0 <= k < sorted.drop_first().len() ==> sorted.drop_first()[k] == sorted[k + 1]);
        }
        lemma_merge_chain_props(sorted[0], sorted.drop_first());
    }
}

/// Sorting an already sorted sequence changes nothing.
proof fn lemma_sort_identity(s: Seq<TimeRange>)
    requires
        sorted_by_start(s),
    ensures
        sort_by_start(s) == s,
    decreases s.len(),
{
    if s.len() != 0 {
        assert(sorted_by_start(s.drop_last())) by {
            assert(forall|k: int| 0 <= k < s.drop_last().len() ==> s.drop_last()[k] == s[k]);
        }
        lemma_sort_identity(s.drop_last());
        lemma_insert_by_start_at(s.last(), s.drop_last(), s.len() - 1);
        assert(s.drop_last().insert(s.len() - 1, s.last()) =~= s);
    }
}

/// The merging fold leaves a pairwise non-overlapping sequence as it
/// stands.
proof fn lemma_merge_chain_identity(cur: TimeRange, rest: Seq<TimeRange>)
    requires
        rest.len() > 0 ==> !cur.spec_overlaps(rest[0]),
        adjacent_disjoint(rest),
    ensures
        merge_chain(cur, rest) == seq![cur] + rest,
    decreases rest.len(),
{
    if rest.len() == 0 {
        assert(merge_chain(cur, rest) =~= seq![cur] + rest);
    } else {
        assert(adjacent_disjoint(rest.drop_first())) by {
            assert(forall|k: int|
                0 <= k < rest.drop_first().len() ==> rest.drop_first()[k] == rest[k + 1]);
        }
        lemma_merge_chain_identity(rest[0], rest.drop_first());
        assert(seq![cur] + (seq![rest[0]] + rest.drop_first()) =~= seq![cur] + rest);
    }
}

/// Deduplication is idempotent: deduplicating a deduplicated sequence
/// of valid intervals returns it unchanged.
pub proof fn lemma_dedup_idempotent(s: Seq<TimeRange>)
    requires
        all_valid(s),
    ensures
        spec_dedup(spec_dedup(s)) == spec_dedup(s),
{
    if s.len() == 0 {
    } else {
        lemma_dedup_sorted_disjoint(s);
        let d = spec_dedup(s);
        lemma_sort_identity(d);
        assert(adjacent_disjoint(d.drop_first())) by {
            assert(forall|k: int|
                0 <= k < d.drop_first().len() ==> d.drop_first()[k] == d[k + 1]);
        }
        assert(d.drop_first().len() > 0 ==> !d[0].spec_overlaps(d.drop_first()[0]));
        lemma_merge_chain_identity(d[0], d.drop_first());
        assert(seq![d[0]] + d.drop_first() =~= d);
    }
}

} // verus!
