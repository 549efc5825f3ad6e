//! Week and month identities, and the per-day aggregation of split
//! sessions into an ordered summary.

use vstd::prelude::*;

use crate::dates::{calendar_day_num, calendar_ymd, day_of, monday_of, MAX_ABS_TIMESTAMP,
    MAX_DAY};
use crate::dates::{civil_day, day_of_ymd, monday_of_day, ymd_of_day};
use crate::parser::{civil_dur_sum, lemma_dur_sum_concat, lemma_split_props, lemma_split_sum,
    next_midnight, split_model, valid_offset, GCivil, GSession, NaiveSession, SessionTZ};

verus! {

/// A calendar week, identified solely by the day number of its Monday: two
/// week values are equal exactly when they denote the same calendar week.
#[derive(Debug, Clone, Copy, PartialEq, Eq, Structural)]
pub struct FixedWeek {
    pub monday: i64,
}

impl FixedWeek {
    /// The first day (Monday) of the week.
    pub fn first_day(&self) -> (d: i64)
        ensures
            d == self.monday,
    {
        self.monday
    }
}

/// The week that a calendar day belongs to.
pub fn real_week(day: i64) -> (w: FixedWeek)
    requires
        -MAX_DAY <= day <= MAX_DAY,
    ensures
        w.monday == monday_of(day as int),
        w.monday <= day < w.monday + 7,
{
    FixedWeek { monday: monday_of_day(day) }
}

/// Two days fall in the same week exactly when they share a Monday; in
/// particular a day and the day a full week later never do, while every day
/// shares its week with the six days after its Monday.
pub proof fn lemma_week_identity(d1: int, d2: int)
    ensures
        (monday_of(d1) == monday_of(d2)) <==> (monday_of(d1) <= d2 < monday_of(d1) + 7),
        monday_of(d1 + 7) == monday_of(d1) + 7,
{
    assert((d1 + 3) % 7 == ((d1 + 7) + 3) % 7) by {
        vstd::arithmetic::div_mod::lemma_add_mod_noop(d1 + 3, 7, 7);
        vstd::arithmetic::div_mod::lemma_mod_self_0(7);
        vstd::arithmetic::div_mod::lemma_small_mod(((d1 + 3) % 7) as nat, 7 as nat);
        vstd::arithmetic::div_mod::lemma_mod_bound(d1 + 3, 7);
    }
    assert(0 <= (d1 + 3) % 7 < 7) by {
        vstd::arithmetic::div_mod::lemma_mod_bound(d1 + 3, 7);
    }
    assert(0 <= (d2 + 3) % 7 < 7) by {
        vstd::arithmetic::div_mod::lemma_mod_bound(d2 + 3, 7);
    }
    if monday_of(d1) <= d2 < monday_of(d1) + 7 {
        let k = d2 - monday_of(d1);
        assert((d2 + 3) % 7 == k) by {
            vstd::arithmetic::div_mod::lemma_fundamental_div_mod_converse_mod(
                d2 + 3,
                7,
                (d1 + 3) / 7,
                k,
            );
            vstd::arithmetic::div_mod::lemma_fundamental_div_mod(d1 + 3, 7);
        }
    }
}

/// A calendar month: a common-era year together with a zero-based month
/// index.
#[derive(Debug, Clone, Copy, PartialEq, Eq, PartialOrd, Ord, Structural)]
pub struct MonthId {
    pub year: u32,
    pub month: u8,
}

impl MonthId {
    /// The common-era year.
    pub open spec fn spec_year(&self) -> u32 {
        self.year
    }

    /// The zero-based month index.
    pub open spec fn spec_month(&self) -> u8 {
        self.month
    }

    pub fn new(year: u32, month: u8) -> (m: MonthId)
        requires
            month < 12,
        ensures
            m.spec_year() == year,
            m.spec_month() == month,
    {
        MonthId { year, month }
    }

    pub fn year(&self) -> (y: u32)
        ensures
            y == self.spec_year(),
    {
        self.year
    }

    pub fn month(&self) -> (m: u8)
        ensures
            m == self.spec_month(),
    {
        self.month
    }

    /// The first calendar day of the month; nothing when the month lies
    /// outside the calendar range.
    pub fn first_day(&self) -> (r: Option<i64>)
        requires
            self.spec_month() < 12,
        ensures
            r matches Some(d) ==> calendar_day_num(
                self.spec_year() as int,
                self.spec_month() as int + 1,
                1,
            ) == Some(d as int) && -MAX_DAY <= d <= MAX_DAY,
            r is None ==> (self.spec_year() > i32::MAX as u32 || calendar_day_num(
                self.spec_year() as int,
                self.spec_month() as int + 1,
                1,
            ) is None),
    {
        if self.year > i32::MAX as u32 {
            return None;
        }
        day_of_ymd(self.year as i32, self.month as u32 + 1, 1)
    }

    /// The last calendar day of the month: the day before the following
    /// month's first day; nothing when that lies outside the calendar
    /// range.
    pub fn last_day(&self) -> (r: Option<i64>)
        requires
            self.spec_month() < 12,
        ensures
            r matches Some(d) ==> calendar_day_num(
                next_month_of(self.spec_year() as int, self.spec_month() as int).0,
                next_month_of(self.spec_year() as int, self.spec_month() as int).1 + 1,
                1,
            ) == Some(d + 1) && -MAX_DAY - 1 <= d < MAX_DAY,
            r is None ==> (self.spec_year() + 1 > i32::MAX as u32 || calendar_day_num(
                next_month_of(self.spec_year() as int, self.spec_month() as int).0,
                next_month_of(self.spec_year() as int, self.spec_month() as int).1 + 1,
                1,
            ) is None),
    {
        if self.year >= i32::MAX as u32 {
            return None;
        }
        let (ny, nm) = if self.month == 11 {
            (self.year + 1, 0u8)
        } else {
            (self.year, self.month + 1)
        };
        match day_of_ymd(ny as i32, nm as u32 + 1, 1) {
            Some(d) => Some(d - 1),
            None => None,
        }
    }
}

/// The month after a (year, zero-based month) pair.
pub open spec fn next_month_of(year: int, month: int) -> (int, int) {
    if month == 11 {
        (year + 1, 0)
    } else {
        (year, month + 1)
    }
}

/// The month identity of a calendar day: the common-era year, folding
/// years before 1 CE the way `year_ce` does, with the zero-based month;
/// nothing outside the calendar range.
pub open spec fn month_of(day: int) -> Option<(int, int)> {
    match calendar_ymd(day) {
        Some(t) => Some(
            (
                if t.0 < 1 {
                    1 - t.0
                } else {
                    t.0
                },
                t.1,
            ),
        ),
        None => None,
    }
}

/// The month a calendar day falls in.
pub fn month_id(day: i64) -> (r: Option<MonthId>)
    requires
        -MAX_DAY <= day <= MAX_DAY,
    ensures
        r matches Some(m) ==> month_of(day as int) == Some(
            (m.spec_year() as int, m.spec_month() as int),
        ) && m.spec_month() < 12,
        r is None ==> month_of(day as int) is None,
{
    match ymd_of_day(day) {
        Some((y, m0, _d0)) => {
            let year_ce: u32 = if y < 1 {
                (1 - y) as u32
            } else {
                y as u32
            };
            Some(MonthId::new(year_ce, m0 as u8))
        },
        None => None,
    }
}

/// The model of a per-day aggregate: a calendar day's total duration and
/// its set of distinct non-empty descriptions.
#[verifier::ext_equal]
pub ghost struct GBucket {
    pub date: int,
    pub duration: int,
    pub descriptions: Set<Seq<char>>,
}

/// The descriptions one sub-session contributes: none when it is empty.
pub open spec fn desc_set(d: Seq<char>) -> Set<Seq<char>> {
    if d.len() == 0 {
        Set::empty()
    } else {
        Set::empty().insert(d)
    }
}

/// Fold one split sub-session into the summary: extend the open (last)
/// bucket while the date matches, open a new bucket on a date change.
pub open spec fn add_sub(bs: Seq<GBucket>, s: GCivil) -> Seq<GBucket> {
    let date = day_of(s.start);
    if bs.len() > 0 && bs.last().date == date {
        bs.update(
            bs.len() - 1,
            GBucket {
                date,
                duration: bs.last().duration + s.dur(),
                descriptions: bs.last().descriptions + desc_set(s.description),
            },
        )
    } else {
        bs.push(GBucket { date, duration: s.dur(), descriptions: desc_set(s.description) })
    }
}

/// The summary of a stream of split sub-sessions: a single forward fold.
pub open spec fn buckets_of(subs: Seq<GCivil>) -> Seq<GBucket>
    decreases subs.len(),
{
    if subs.len() == 0 {
        Seq::empty()
    } else {
        add_sub(buckets_of(subs.drop_last()), subs.last())
    }
}

/// A session read on the civil timeline of the given UTC offset.  The
/// duration is unchanged: both instants shift by the same offset.
pub open spec fn civil_of(s: GSession, off: int) -> GCivil {
    GCivil { start: s.start.epoch + off, end: s.end.epoch + off, description: s.description }
}

/// A sequence of offsets as mathematical integers.
pub open spec fn offs_int(offs: Seq<i32>) -> Seq<int> {
    Seq::new(offs.len(), |i: int| offs[i] as int)
}

/// All sessions projected to civil time and split at midnights, in order.
pub open spec fn split_stream(sessions: Seq<GSession>, offsets: Seq<int>) -> Seq<GCivil>
    decreases sessions.len(),
{
    if sessions.len() == 0 {
        Seq::empty()
    } else {
        split_stream(sessions.drop_last(), offsets.drop_last()) + split_model(
            civil_of(sessions.last(), offsets.last()),
        )
    }
}

/// The sessions' own total duration, from the absolute instants.
pub open spec fn sessions_dur_sum(sessions: Seq<GSession>) -> int
    decreases sessions.len(),
{
    if sessions.len() == 0 {
        0
    } else {
        sessions_dur_sum(sessions.drop_last()) + sessions.last().end.epoch
            - sessions.last().start.epoch
    }
}

/// Well-formed aggregation input: one offset per session, instants within
/// the calendar bound, each session starting no later than it ends, and
/// valid offsets.
pub open spec fn sessions_wf(sessions: Seq<GSession>, offsets: Seq<int>) -> bool {
    &&& sessions.len() == offsets.len()
    &&& forall|i: int| 0 <= i < sessions.len() ==> (#[trigger] sessions[i]).wf()
    &&& forall|i: int|
        0 <= i < sessions.len() ==> (#[trigger] sessions[i]).start.epoch <= sessions[i].end.epoch
    &&& forall|i: int| 0 <= i < offsets.len() ==> valid_offset(#[trigger] offsets[i])
}

/// What the aggregator asks of its input: well-formed sessions in
/// civil-time order without overlap — the shape an append-only
/// chronological log yields.
pub open spec fn summarize_pre(sessions: Seq<GSession>, offsets: Seq<int>) -> bool {
    &&& sessions_wf(sessions, offsets)
    &&& forall|i: int|
        0 <= i && i + 1 < sessions.len() ==> civil_of(#[trigger] sessions[i], offsets[i]).end
            <= civil_of(sessions[i + 1], offsets[i + 1]).start
}

/// The start dates of a stream of sub-sessions never decrease.
pub open spec fn dates_nondec(subs: Seq<GCivil>) -> bool {
    forall|i: int, j: int|
        0 <= i <= j < subs.len() ==> day_of((#[trigger] subs[i]).start) <= day_of(
            (#[trigger] subs[j]).start,
        )
}

/// Every sub-session of the stream is well-formed, non-empty, and
/// confined to a single calendar day.
pub open spec fn subs_ok(subs: Seq<GCivil>) -> bool {
    forall|k: int|
        0 <= k < subs.len() ==> {
            let s = #[trigger] subs[k];
            s.wf() && s.start < s.end <= next_midnight(s.start)
        }
}

/// An inclusive or unbounded end of a date range.
#[derive(Debug, Clone, Copy, PartialEq, Eq, Structural)]
pub enum DateBound {
    Unbounded,
    Included(i64),
}

/// Whether a date lies in the range `[from, to]`, either end possibly
/// unbounded.
pub open spec fn in_range(date: int, from: DateBound, to: DateBound) -> bool {
    (match from {
        DateBound::Unbounded => true,
        DateBound::Included(d) => d as int <= date,
    }) && (match to {
        DateBound::Unbounded => true,
        DateBound::Included(d) => date <= d as int,
    })
}

/// The summed duration of the buckets whose date lies in the range.
pub open spec fn range_sum(bs: Seq<GBucket>, from: DateBound, to: DateBound) -> int
    decreases bs.len(),
{
    if bs.len() == 0 {
        0
    } else {
        range_sum(bs.drop_last(), from, to) + if in_range(bs.last().date, from, to) {
            bs.last().duration
        } else {
            0
        }
    }
}

proof fn lemma_add_sub_total(bs: Seq<GBucket>, s: GCivil)
    ensures
        range_sum(add_sub(bs, s), DateBound::Unbounded, DateBound::Unbounded) == range_sum(
            bs,
            DateBound::Unbounded,
            DateBound::Unbounded,
        ) + s.dur(),
{
    let date = day_of(s.start);
    if bs.len() > 0 && bs.last().date == date {
        let nb = add_sub(bs, s);
        assert(nb.drop_last() =~= bs.drop_last());
    } else {
        let nb = add_sub(bs, s);
        assert(nb.drop_last() =~= bs);
    }
}

proof fn lemma_buckets_total(subs: Seq<GCivil>)
    ensures
        range_sum(buckets_of(subs), DateBound::Unbounded, DateBound::Unbounded) == civil_dur_sum(
            subs,
        ),
    decreases subs.len(),
{
    if subs.len() == 0 {
    } else {
        lemma_buckets_total(subs.drop_last());
        lemma_add_sub_total(buckets_of(subs.drop_last()), subs.last());
    }
}

pub proof fn lemma_stream_total(sessions: Seq<GSession>, offsets: Seq<int>)
    requires
        sessions_wf(sessions, offsets),
    ensures
        civil_dur_sum(split_stream(sessions, offsets)) == sessions_dur_sum(sessions),
    decreases sessions.len(),
{
    if sessions.len() == 0 {
    } else {
        let pre = sessions.drop_last();
        let poff = offsets.drop_last();
        assert(sessions_wf(pre, poff));
        lemma_stream_total(pre, poff);
        let c = civil_of(sessions.last(), offsets.last());
        lemma_split_sum(c);
        lemma_dur_sum_concat(split_stream(pre, poff), split_model(c));
    }
}

/// Aggregation is lossless: over the full (unbounded) date range, the
/// summary's day durations sum to the sessions' own durations, for any
/// well-formed session set — ordered or not, split-then-sum loses
/// nothing.
pub proof fn lemma_summarize_lossless(sessions: Seq<GSession>, offsets: Seq<int>)
    requires
        sessions_wf(sessions, offsets),
    ensures
        range_sum(
            buckets_of(split_stream(sessions, offsets)),
            DateBound::Unbounded,
            DateBound::Unbounded,
        ) == sessions_dur_sum(sessions),
{
    lemma_buckets_total(split_stream(sessions, offsets));
    lemma_stream_total(sessions, offsets);
}

pub proof fn lemma_sessions_sum_bound(sessions: Seq<GSession>)
    requires
        forall|i: int| 0 <= i < sessions.len() ==> (#[trigger] sessions[i]).wf(),
        forall|i: int|
            0 <= i < sessions.len() ==> (#[trigger] sessions[i]).start.epoch
                <= sessions[i].end.epoch,
    ensures
        0 <= sessions_dur_sum(sessions) <= sessions.len() * (2 * MAX_ABS_TIMESTAMP as int),
    decreases sessions.len(),
{
    if sessions.len() == 0 {
    } else {
        lemma_sessions_sum_bound(sessions.drop_last());
        assert((sessions.len() - 1) * (2 * MAX_ABS_TIMESTAMP as int) + (2 * MAX_ABS_TIMESTAMP
            as int) == sessions.len() * (2 * MAX_ABS_TIMESTAMP as int)) by (nonlinear_arith);
    }
}

proof fn lemma_buckets_sorted(subs: Seq<GCivil>)
    requires
        dates_nondec(subs),
    ensures
        forall|i: int, j: int|
            0 <= i < j < buckets_of(subs).len() ==> (#[trigger] buckets_of(subs)[i]).date < (
            #[trigger] buckets_of(subs)[j]).date,
        buckets_of(subs).len() > 0 <==> subs.len() > 0,
        subs.len() > 0 ==> buckets_of(subs).last().date == day_of(subs.last().start),
    decreases subs.len(),
{
    if subs.len() == 0 {
    } else {
        let pre = subs.drop_last();
        lemma_buckets_sorted(pre);
        let s = subs.last();
        let date = day_of(s.start);
        let bs = buckets_of(pre);
        let nb = buckets_of(subs);
        if pre.len() > 0 {
            assert(day_of(pre.last().start) <= date);
        }
        assert forall|i: int, j: int| 0 <= i < j < nb.len() implies (#[trigger] nb[i]).date < (
        #[trigger] nb[j]).date by {
            if bs.len() > 0 && bs.last().date == date {
                if j < bs.len() - 1 {
                    assert(nb[i] == bs[i] && nb[j] == bs[j]);
                } else {
                    assert(j == bs.len() - 1);
                    assert(nb[i] == bs[i]);
                    assert(nb[j].date == bs[j].date);
                }
            } else {
                if j < bs.len() {
                    assert(nb[i] == bs[i] && nb[j] == bs[j]);
                } else {
                    assert(j == bs.len());
                    assert(nb[i] == bs[i]);
                    assert(nb[j].date == date);
                    assert(bs.last().date < date || bs.len() == 0) by {
                        if bs.len() > 0 {
                            assert(bs.last().date == day_of(pre.last().start));
                        }
                    }
                    assert(bs[i].date <= bs.last().date || i == bs.len() - 1);
                }
            }
        }
    }
}

proof fn lemma_range_nonneg(bs: Seq<GBucket>, from: DateBound, to: DateBound)
    requires
        forall|k: int| 0 <= k < bs.len() ==> (#[trigger] bs[k]).duration >= 0,
    ensures
        0 <= range_sum(bs, from, to) <= range_sum(bs, DateBound::Unbounded, DateBound::Unbounded),
    decreases bs.len(),
{
    if bs.len() > 0 {
        lemma_range_nonneg(bs.drop_last(), from, to);
    }
}

proof fn lemma_range_take(bs: Seq<GBucket>, i: int, from: DateBound, to: DateBound)
    requires
        0 <= i <= bs.len(),
        forall|k: int| 0 <= k < bs.len() ==> (#[trigger] bs[k]).duration >= 0,
    ensures
        range_sum(bs.take(i), from, to) <= range_sum(bs, from, to),
    decreases bs.len(),
{
    if i == bs.len() {
        assert(bs.take(i) =~= bs);
    } else {
        assert(bs.take(i) =~= bs.drop_last().take(i));
        lemma_range_take(bs.drop_last(), i, from, to);
    }
}

proof fn lemma_range_sum_elem(bs: Seq<GBucket>, k: int)
    requires
        0 <= k < bs.len(),
        forall|j: int| 0 <= j < bs.len() ==> (#[trigger] bs[j]).duration >= 0,
    ensures
        bs[k].duration <= range_sum(bs, DateBound::Unbounded, DateBound::Unbounded),
    decreases bs.len(),
{
    if k == bs.len() - 1 {
        lemma_range_nonneg(bs.drop_last(), DateBound::Unbounded, DateBound::Unbounded);
    } else {
        lemma_range_sum_elem(bs.drop_last(), k);
    }
}

proof fn lemma_to_set_push(s: Seq<Seq<char>>, x: Seq<char>)
    ensures
        s.push(x).to_set() == s.to_set().insert(x),
{
    let p = s.push(x);
    assert forall|y: Seq<char>| p.to_set().contains(y) implies s.to_set().insert(x).contains(
        y,
    ) by {
        let w = choose|w: int| 0 <= w < p.len() && p[w] == y;
        if w < s.len() {
            assert(s[w] == y);
        }
    }
    assert forall|y: Seq<char>| s.to_set().insert(x).contains(y) implies p.to_set().contains(
        y,
    ) by {
        if y == x {
            assert(p[s.len() as int] == y);
        } else {
            let w = choose|w: int| 0 <= w < s.len() && s[w] == y;
            assert(p[w] == y);
        }
    }
    assert(p.to_set() =~= s.to_set().insert(x));
}

/// The stream of split sub-sessions of an ordered session set: dates never
/// decrease, and every sub-session is well-formed, non-empty and confined
/// to one day.
pub proof fn lemma_stream_props(sessions: Seq<GSession>, offsets: Seq<int>)
    requires
        summarize_pre(sessions, offsets),
    ensures
        dates_nondec(split_stream(sessions, offsets)),
        subs_ok(split_stream(sessions, offsets)),
        split_stream(sessions, offsets).len() > 0 ==> sessions.len() > 0 && split_stream(
            sessions,
            offsets,
        ).last().start < civil_of(sessions.last(), offsets.last()).end,
    decreases sessions.len(),
{
    broadcast use vstd::arithmetic::div_mod::lemma_div_is_ordered;

    if sessions.len() == 0 {
    } else {
        let pre = sessions.drop_last();
        let poff = offsets.drop_last();
        assert(summarize_pre(pre, poff));
        lemma_stream_props(pre, poff);
        let a = split_stream(pre, poff);
        let c = civil_of(sessions.last(), offsets.last());
        assert(c.wf());
        assert(c.start <= c.end);
        lemma_split_props(c);
        let b = split_model(c);
        let stream = split_stream(sessions, offsets);
        assert(stream == a + b);
        if a.len() > 0 {
            let plast = pre.last();
            let pc = civil_of(plast, poff.last());
            assert(a.last().start < pc.end);
            assert(pc.end <= c.start) by {
                assert(sessions[sessions.len() - 2] == plast);
                assert(offsets[offsets.len() - 2] == poff.last());
            }
        }
        assert forall|k: int| 0 <= k < stream.len() implies {
            let s = #[trigger] stream[k];
            s.wf() && s.start < s.end <= next_midnight(s.start)
        } by {
            if k < a.len() {
                assert(stream[k] == a[k]);
            } else {
                assert(stream[k] == b[k - a.len()]);
            }
        }
        assert forall|i: int, j: int| 0 <= i <= j < stream.len() implies day_of(
            (#[trigger] stream[i]).start,
        ) <= day_of((#[trigger] stream[j]).start) by {
            if j < a.len() {
                assert(stream[i] == a[i] && stream[j] == a[j]);
            } else if i >= a.len() {
                assert(stream[i] == b[i - a.len()] && stream[j] == b[j - a.len()]);
            } else {
                assert(stream[i] == a[i] && stream[j] == b[j - a.len()]);
                assert(day_of(a[i].start) <= day_of(a.last().start));
                assert(a.last().start <= c.start);
                assert(day_of(a.last().start) <= day_of(c.start));
                assert(day_of(c.start) == day_of(b[0].start));
                assert(day_of(b[0].start) <= day_of(b[j - a.len()].start));
            }
        }
        if stream.len() > 0 {
            if b.len() > 0 {
                assert(stream.last() == b.last());
            } else {
                assert(stream.last() == a.last());
            }
        }
    }
}

/// One day's aggregate: its total duration in seconds and the distinct
/// non-empty descriptions seen that day.
#[derive(Debug)]
pub struct Day {
    pub duration: u128,
    pub descriptions: Vec<String>,
}

impl Day {
    /// The stored descriptions are distinct and non-empty.
    pub open spec fn wf(self) -> bool {
        &&& forall|i: int, j: int|
            0 <= i < j < self.descriptions@.len() ==> (#[trigger] self.descriptions@[i])@ != (
            #[trigger] self.descriptions@[j])@
        &&& forall|i: int|
            0 <= i < self.descriptions@.len() ==> (#[trigger] self.descriptions@[i])@.len() > 0
    }
}

/// A calendar day together with its aggregate.
#[derive(Debug)]
pub struct DayEntry {
    pub date: i64,
    pub day: Day,
}

impl View for DayEntry {
    type V = GBucket;

    open spec fn view(&self) -> GBucket {
        GBucket {
            date: self.date as int,
            duration: self.day.duration as int,
            descriptions: self.day.descriptions.deep_view().to_set(),
        }
    }
}

/// An ordered mapping from calendar days to their aggregates, ascending
/// by date, built in one forward pass over split sessions.
#[derive(Debug)]
pub struct Summary {
    pub days: Vec<DayEntry>,
}

impl View for Summary {
    type V = Seq<GBucket>;

    open spec fn view(&self) -> Seq<GBucket> {
        Seq::new(self.days@.len(), |i: int| self.days@[i]@)
    }
}

/// Whether a vector of strings holds one reading `s`.
fn contains_str(v: &Vec<String>, s: &String) -> (b: bool)
    ensures
        b == v.deep_view().contains(s@),
{
    let mut i: usize = 0;
    while i < v.len()
        invariant
            i <= v@.len(),
            forall|j: int| 0 <= j < i ==> v.deep_view()[j] != s@,
        decreases v@.len() - i,
    {
        if s.eq(&v[i]) {
            proof {
                assert(v.deep_view()[i as int] == s@);
            }
            return true;
        }
        i = i + 1;
    }
    false
}

impl Summary {
    /// Dates strictly ascend, each day is well-formed, and the grand
    /// total fits the duration type.
    pub open spec fn wf(self) -> bool {
        &&& forall|i: int, j: int|
            0 <= i < j < self@.len() ==> (#[trigger] self@[i]).date < (#[trigger] self@[j]).date
        &&& forall|i: int| 0 <= i < self.days@.len() ==> (#[trigger] self.days@[i]).day.wf()
        &&& range_sum(self@, DateBound::Unbounded, DateBound::Unbounded) <= u128::MAX as int
    }

    /// Fold one split sub-session into the summary, extending the last
    /// bucket when the date matches.
    #[verifier::loop_isolation(false)]
    fn push_day_sub(&mut self, sub: &NaiveSession)
        requires
            old(self).wf(),
            sub@.wf(),
            sub@.start <= sub@.end,
            old(self)@.len() > 0 ==> old(self)@.last().date <= day_of(sub@.start),
            range_sum(old(self)@, DateBound::Unbounded, DateBound::Unbounded) + sub@.dur()
                <= u128::MAX as int,
        ensures
            final(self)@ == add_sub(old(self)@, sub@),
            final(self).wf(),
    {
        proof {
            lemma_add_sub_total(old(self)@, sub@);
        }
        let date = civil_day(sub.start);
        let dur = (sub.end - sub.start) as u128;
        let n = self.days.len();
        if n > 0 && self.days[n - 1].date == date {
            proof {
                lemma_range_sum_elem(old(self)@, n - 1);
            }
            let mut entry = match self.days.pop() {
                Some(e) => e,
                None => {
                    proof {
                        assert(false);
                    }
                    DayEntry { date, day: Day { duration: 0, descriptions: Vec::new() } }
                },
            };
            let ghost oldentry = entry;
            entry.day.duration = entry.day.duration + dur;
            if !sub.description.as_str().is_empty() {
                if !contains_str(&entry.day.descriptions, &sub.description) {
                    entry.day.descriptions.push(sub.description.clone());
                    proof {
                        assert(entry.day.descriptions.deep_view()
                            =~= oldentry.day.descriptions.deep_view().push(sub.description@));
                        lemma_to_set_push(
                            oldentry.day.descriptions.deep_view(),
                            sub.description@,
                        );
                    }
                }
            }
            self.days.push(entry);
            proof {
                let nb = add_sub(old(self)@, sub@);
                assert(entry@.descriptions =~= oldentry@.descriptions + desc_set(
                    sub@.description,
                ));
                assert(entry@ =~~= nb.last());
                assert(self@ =~= nb);
                assert(entry.day.wf()) by {
                    let odv = oldentry.day.descriptions.deep_view();
                    let ndv = entry.day.descriptions.deep_view();
                    assert(oldentry.day.wf());
                    assert forall|a: int, b: int|
                        0 <= a < b < entry.day.descriptions@.len() implies (
                    #[trigger] entry.day.descriptions@[a])@ != (
                    #[trigger] entry.day.descriptions@[b])@ by {
                        if b >= odv.len() {
                            assert(ndv[b] == sub.description@);
                            assert(!odv.contains(sub.description@));
                            assert(odv[a] == ndv[a]);
                        }
                    }
                    assert forall|a: int|
                        0 <= a < entry.day.descriptions@.len() implies (
                    #[trigger] entry.day.descriptions@[a])@.len() > 0 by {
                        if a >= odv.len() {
                            assert(ndv[a] == sub.description@);
                        }
                    }
                }
                assert forall|i: int, j: int|
                    0 <= i < j < self@.len() implies (#[trigger] self@[i]).date < (
                #[trigger] self@[j]).date by {
                    assert(self@[i].date == old(self)@[i].date);
                    assert(self@[j].date == old(self)@[j].date);
                }
                assert forall|i: int|
                    0 <= i < self.days@.len() implies (#[trigger] self.days@[i]).day.wf() by {
                    if i < self.days@.len() - 1 {
                        assert(self.days@[i] == old(self).days@[i]);
                        assert(old(self).days@[i].day.wf());
                    }
                }
            }
        } else {
            let mut descs: Vec<String> = Vec::new();
            if !sub.description.as_str().is_empty() {
                descs.push(sub.description.clone());
            }
            let entry = DayEntry { date, day: Day { duration: dur, descriptions: descs } };
            self.days.push(entry);
            proof {
                let nb = add_sub(old(self)@, sub@);
                if sub.description@.len() == 0 {
                    assert(entry.day.descriptions.deep_view() =~= Seq::<Seq<char>>::empty());
                    assert(entry@.descriptions =~= desc_set(sub@.description));
                } else {
                    assert(entry.day.descriptions.deep_view() =~= Seq::<
                        Seq<char>,
                    >::empty().push(sub.description@));
                    lemma_to_set_push(Seq::empty(), sub.description@);
                    assert(Seq::<Seq<char>>::empty().to_set() =~= Set::<Seq<char>>::empty());
                    assert(entry@.descriptions =~= desc_set(sub@.description));
                }
                assert(entry@ =~~= nb.last());
                assert(self@ =~= nb);
                assert(entry.day.wf());
                assert forall|i: int, j: int|
                    0 <= i < j < self@.len() implies (#[trigger] self@[i]).date < (
                #[trigger] self@[j]).date by {
                    if j < old(self)@.len() {
                        assert(self@[i] == old(self)@[i]);
                        assert(self@[j] == old(self)@[j]);
                    } else {
                        assert(self@[i] == old(self)@[i]);
                        assert(self@[j].date == day_of(sub@.start));
                        if old(self)@.len() > 0 {
                            assert(old(self)@.last().date != day_of(sub@.start));
                            if i < old(self)@.len() - 1 {
                                assert(old(self)@[i].date < old(self)@.last().date);
                            }
                        }
                    }
                }
                assert forall|i: int|
                    0 <= i < self.days@.len() implies (#[trigger] self.days@[i]).day.wf() by {
                    if i < self.days@.len() - 1 {
                        assert(self.days@[i] == old(self).days@[i]);
                        assert(old(self).days@[i].day.wf());
                    }
                }
            }
        }
    }

    /// Aggregate sessions into per-day buckets: each session is read in
    /// the timezone of its offset, cut at local midnights, and folded
    /// into the summary in one forward pass.  The input must be ordered
    /// (chronological, non-overlapping in civil time), as an append-only
    /// log guarantees.
    #[verifier::loop_isolation(false)]
    pub fn summarize(sessions: &Vec<SessionTZ>, offsets: &Vec<i32>) -> (r: Summary)
        requires
            summarize_pre(sessions.deep_view(), offs_int(offsets@)),
        ensures
            r.wf(),
            r@ == buckets_of(split_stream(sessions.deep_view(), offs_int(offsets@))),
    {
        let ghost gsessions = sessions.deep_view();
        let ghost goffs = offs_int(offsets@);
        let n = sessions.len();
        let mut summary = Summary { days: Vec::new() };
        proof {
            assert(gsessions.take(0) =~= Seq::<GSession>::empty());
            assert(goffs.take(0) =~= Seq::<int>::empty());
            assert(summary@ =~= Seq::<GBucket>::empty());
            lemma_stream_props(gsessions, goffs);
        }
        let mut i: usize = 0;
        while i < n
            invariant
                i <= n,
                n == gsessions.len(),
                summary.wf(),
                summary@ == buckets_of(
                    split_stream(gsessions.take(i as int), goffs.take(i as int)),
                ),
            decreases n - i,
        {
            let ghost done = split_stream(gsessions.take(i as int), goffs.take(i as int));
            let ghost gs = gsessions[i as int];
            let ghost goff = goffs[i as int];
            let ghost c = civil_of(gs, goff);
            proof {
                assert(c.wf());
                assert(c.start <= c.end);
                assert(gsessions.take(i + 1).drop_last() =~= gsessions.take(i as int));
                assert(goffs.take(i + 1).drop_last() =~= goffs.take(i as int));
                assert(gsessions.take(i + 1).last() == gs);
                assert(goffs.take(i + 1).last() == goff);
            }
            let s = &sessions[i];
            let off = offsets[i] as i64;
            let civ = NaiveSession {
                start: s.start.epoch + off,
                end: s.end.epoch + off,
                description: s.description.clone(),
            };
            proof {
                assert(civ@ =~~= c);
            }
            let subs = civ.split_at_days();
            let m = subs.len();
            let mut j: usize = 0;
            while j < m
                invariant
                    j <= m,
                    m == split_model(c).len(),
                    subs.deep_view() == split_model(c),
                    summary.wf(),
                    summary@ == buckets_of(done + split_model(c).take(j as int)),
                decreases m - j,
            {
                let ghost partial = done + split_model(c).take(j as int);
                let ghost gsub = split_model(c)[j as int];
                proof {
                    assert(subs[j as int]@ == gsub);
                    lemma_fold_budget(gsessions, goffs, i as int, j as int);
                }
                summary.push_day_sub(&subs[j]);
                proof {
                    assert(summary@ == buckets_of(done + split_model(c).take(j + 1)));
                }
                j = j + 1;
            }
            proof {
                assert(split_model(c).take(m as int) =~= split_model(c));
                assert(split_stream(gsessions.take(i + 1), goffs.take(i + 1)) =~= done
                    + split_model(c));
            }
            i = i + 1;
        }
        proof {
            assert(gsessions.take(n as int) =~= gsessions);
            assert(goffs.take(n as int) =~= goffs);
        }
        summary
    }

    /// The summed duration of the days whose date lies in the inclusive
    /// (or unbounded) range.
    #[verifier::loop_isolation(false)]
    pub fn duration(&self, from: DateBound, to: DateBound) -> (d: u128)
        requires
            self.wf(),
        ensures
            d as int == range_sum(self@, from, to),
    {
        let mut acc: u128 = 0;
        let mut i: usize = 0;
        let n = self.days.len();
        proof {
            assert(self@.take(0) =~= Seq::<GBucket>::empty());
        }
        while i < n
            invariant
                i <= n,
                n == self.days@.len(),
                self.wf(),
                acc as int == range_sum(self@.take(i as int), from, to),
            decreases n - i,
        {
            let entry = &self.days[i];
            let lo_ok = match from {
                DateBound::Unbounded => true,
                DateBound::Included(d) => d <= entry.date,
            };
            let hi_ok = match to {
                DateBound::Unbounded => true,
                DateBound::Included(d) => entry.date <= d,
            };
            proof {
                assert(self@.take(i + 1).drop_last() =~= self@.take(i as int));
                assert(self@.take(i + 1).last() == self@[i as int]);
                lemma_range_take(self@, i + 1, from, to);
                lemma_range_nonneg(self@, from, to);
            }
            if lo_ok && hi_ok {
                acc = acc + entry.day.duration;
            }
            i = i + 1;
        }
        proof {
            assert(self@.take(n as int) =~= self@);
        }
        acc
    }

    /// The summed duration of a week: its Monday through its Sunday.
    pub fn week_duration(&self, week: FixedWeek) -> (d: u128)
        requires
            self.wf(),
            -MAX_DAY <= week.monday <= MAX_DAY,
        ensures
            d as int == range_sum(
                self@,
                DateBound::Included(week.monday),
                DateBound::Included((week.monday + 6) as i64),
            ),
    {
        self.duration(DateBound::Included(week.monday), DateBound::Included(week.monday + 6))
    }
}

/// The distinct non-empty descriptions of a date's sub-sessions.
pub open spec fn day_descs(subs: Seq<GCivil>, date: int) -> Set<Seq<char>> {
    Set::new(
        |d: Seq<char>|
            d.len() > 0 && exists|i: int|
                0 <= i < subs.len() && (#[trigger] subs[i]).description == d && day_of(
                    subs[i].start,
                ) == date,
    )
}

proof fn lemma_day_descs_step(subs: Seq<GCivil>, date: int)
    requires
        subs.len() > 0,
    ensures
        day_of(subs.last().start) != date ==> day_descs(subs, date) == day_descs(
            subs.drop_last(),
            date,
        ),
        day_of(subs.last().start) == date ==> day_descs(subs, date) == day_descs(
            subs.drop_last(),
            date,
        ) + desc_set(subs.last().description),
{
    let pre = subs.drop_last();
    let s = subs.last();
    if day_of(s.start) != date {
        assert forall|d: Seq<char>| day_descs(subs, date).contains(d) implies day_descs(
            pre,
            date,
        ).contains(d) by {
            let i = choose|i: int|
                0 <= i < subs.len() && (#[trigger] subs[i]).description == d && day_of(
                    subs[i].start,
                ) == date;
            assert(i < pre.len());
            assert(pre[i] == subs[i]);
        }
        assert forall|d: Seq<char>| day_descs(pre, date).contains(d) implies day_descs(
            subs,
            date,
        ).contains(d) by {
            let i = choose|i: int|
                0 <= i < pre.len() && (#[trigger] pre[i]).description == d && day_of(pre[i].start)
                    == date;
            assert(subs[i] == pre[i]);
        }
        assert(day_descs(subs, date) =~= day_descs(pre, date));
    } else {
        assert forall|d: Seq<char>| day_descs(subs, date).contains(d) implies (day_descs(
            pre,
            date,
        ) + desc_set(s.description)).contains(d) by {
            let i = choose|i: int|
                0 <= i < subs.len() && (#[trigger] subs[i]).description == d && day_of(
                    subs[i].start,
                ) == date;
            if i < pre.len() {
                assert(pre[i] == subs[i]);
            } else {
                assert(subs[i] == s);
            }
        }
        assert forall|d: Seq<char>| (day_descs(pre, date) + desc_set(s.description)).contains(
            d,
        ) implies day_descs(subs, date).contains(d) by {
            if day_descs(pre, date).contains(d) {
                let i = choose|i: int|
                    0 <= i < pre.len() && (#[trigger] pre[i]).description == d && day_of(
                        pre[i].start,
                    ) == date;
                assert(subs[i] == pre[i]);
            } else {
                assert(d == s.description && d.len() > 0);
                assert(subs[subs.len() - 1] == s);
            }
        }
        assert(day_descs(subs, date) =~= day_descs(pre, date) + desc_set(s.description));
    }
}

/// A summary day's description set holds exactly the distinct non-empty
/// descriptions of the sub-sessions falling on that day: an empty
/// description adds nothing, and two equal descriptions add one entry.
pub proof fn lemma_day_descriptions(subs: Seq<GCivil>, k: int)
    requires
        dates_nondec(subs),
        0 <= k < buckets_of(subs).len(),
    ensures
        buckets_of(subs)[k].descriptions == day_descs(subs, buckets_of(subs)[k].date),
    decreases subs.len(),
{
    lemma_buckets_sorted(subs);
    let pre = subs.drop_last();
    let s = subs.last();
    let date = day_of(s.start);
    let bs = buckets_of(pre);
    let nb = buckets_of(subs);
    assert(dates_nondec(pre)) by {
        assert(forall|a: int| 0 <= a < pre.len() ==> pre[a] == #[trigger] subs[a]);
    }
    lemma_buckets_sorted(pre);
    lemma_day_descs_step(subs, date);
    if bs.len() > 0 && bs.last().date == date {
        if k < bs.len() - 1 {
            assert(nb[k] == bs[k]);
            lemma_day_descriptions(pre, k);
            assert(bs[k].date < bs.last().date);
            lemma_day_descs_step(subs, nb[k].date);
        } else {
            assert(k == bs.len() - 1);
            lemma_day_descriptions(pre, k);
            assert(nb[k].descriptions =~= bs.last().descriptions + desc_set(s.description));
        }
    } else {
        if k < bs.len() {
            assert(nb[k] == bs[k]);
            lemma_day_descriptions(pre, k);
            assert(bs[k].date != date) by {
                assert(bs.last().date == day_of(pre.last().start));
                if k < bs.len() - 1 {
                    assert(bs[k].date < bs.last().date);
                }
                assert(day_of(pre.last().start) <= date);
            }
            lemma_day_descs_step(subs, nb[k].date);
        } else {
            assert(k == bs.len());
            assert(nb[k].descriptions == desc_set(s.description));
            assert(day_descs(pre, date) =~= Set::<Seq<char>>::empty()) by {
                if exists|d: Seq<char>| day_descs(pre, date).contains(d) {
                    let d = choose|d: Seq<char>| day_descs(pre, date).contains(d);
                    let i = choose|i: int|
                        0 <= i < pre.len() && (#[trigger] pre[i]).description == d && day_of(
                            pre[i].start,
                        ) == date;
                    assert(pre.len() > 0);
                    assert(day_of(subs[i].start) <= day_of(pre.last().start));
                    assert(day_of(pre.last().start) <= date);
                    assert(bs.last().date == day_of(pre.last().start));
                    assert(false);
                }
            }
            assert(nb[k].descriptions =~= day_descs(subs, date));
        }
    }
}

proof fn lemma_fold_budget(gsessions: Seq<GSession>, goffs: Seq<int>, i: int, j: int)
    requires
        summarize_pre(gsessions, goffs),
        gsessions.len() <= usize::MAX as int,
        0 <= i < gsessions.len(),
        0 <= j < split_model(civil_of(gsessions[i], goffs[i])).len(),
    ensures
        ({
            let done = split_stream(gsessions.take(i), goffs.take(i));
            let sm = split_model(civil_of(gsessions[i], goffs[i]));
            let partial = done + sm.take(j);
            let gsub = sm[j];
            &&& gsub.wf()
            &&& gsub.start <= gsub.end
            &&& (buckets_of(partial).len() > 0 ==> buckets_of(partial).last().date <= day_of(
                gsub.start,
            ))
            &&& range_sum(buckets_of(partial), DateBound::Unbounded, DateBound::Unbounded)
                + gsub.dur() <= u128::MAX as int
            &&& buckets_of(done + sm.take(j + 1)) == add_sub(buckets_of(partial), gsub)
        }),
{
    let done = split_stream(gsessions.take(i), goffs.take(i));
    let c = civil_of(gsessions[i], goffs[i]);
    let sm = split_model(c);
    let partial = done + sm.take(j);
    let gsub = sm[j];
    assert(summarize_pre(gsessions.take(i + 1), goffs.take(i + 1)));
    lemma_stream_props(gsessions.take(i + 1), goffs.take(i + 1));
    assert(gsessions.take(i + 1).drop_last() =~= gsessions.take(i));
    assert(goffs.take(i + 1).drop_last() =~= goffs.take(i));
    lemma_stream_total(gsessions.take(i + 1), goffs.take(i + 1));
    lemma_sessions_sum_bound(gsessions.take(i + 1));
    let whole = split_stream(gsessions.take(i + 1), goffs.take(i + 1));
    assert(whole == done + sm);
    assert(subs_ok(whole));
    assert(gsub == whole[done.len() + j]);
    assert(partial =~= whole.take(done.len() + j));
    assert forall|k: int| 0 <= k < partial.len() implies (#[trigger] partial[k]).start
        <= partial[k].end by {
        assert(partial[k] == whole[k]);
    }
    assert(dates_nondec(partial)) by {
        assert(dates_nondec(whole));
        assert(forall|a: int| 0 <= a < partial.len() ==> partial[a] == #[trigger] whole[a]);
    }
    lemma_buckets_sorted(partial);
    if partial.len() > 0 {
        assert(partial.last() == whole[partial.len() - 1]);
        assert(day_of(partial.last().start) <= day_of(gsub.start)) by {
            assert(dates_nondec(whole));
        }
    }
    lemma_buckets_total(partial);
    assert(civil_dur_sum(partial) + gsub.dur() <= civil_dur_sum(whole)) by {
        assert(whole.take(partial.len() as int + 1) =~= partial.push(gsub));
        lemma_dur_sum_concat(partial, seq![gsub]);
        assert(partial + seq![gsub] =~= partial.push(gsub));
        assert(civil_dur_sum(seq![gsub]) == gsub.dur()) by {
            assert(seq![gsub].drop_last() =~= Seq::<GCivil>::empty());
            assert(civil_dur_sum(Seq::<GCivil>::empty()) == 0);
        }
        assert forall|k: int| 0 <= k < whole.len() implies (#[trigger] whole[k]).start
            <= whole[k].end by {
            assert(subs_ok(whole));
        }
        lemma_sum_take_le(whole, partial.len() as int + 1);
    }
    assert(civil_dur_sum(whole) == sessions_dur_sum(gsessions.take(i + 1)));
    assert(sessions_dur_sum(gsessions.take(i + 1)) <= gsessions.take(i + 1).len() * (2
        * MAX_ABS_TIMESTAMP as int));
    assert(gsessions.take(i + 1).len() * (2 * MAX_ABS_TIMESTAMP as int) <= u128::MAX as int)
        by (nonlinear_arith)
        requires
            gsessions.take(i + 1).len() <= usize::MAX as int,
    ;
    assert(sm.take(j + 1).drop_last() =~= sm.take(j));
    assert(done + sm.take(j + 1) =~= partial.push(gsub));
    assert(buckets_of(partial.push(gsub)) == add_sub(buckets_of(partial), gsub)) by {
        assert(partial.push(gsub).drop_last() =~= partial);
        assert(partial.push(gsub).last() == gsub);
    }
}

/// Sessions that are ordered by their absolute instants satisfy the
/// aggregator's precondition whenever a single fixed offset reads them
/// all: one timezone shifts every instant alike.
pub proof fn lemma_ordered_fixed_offset(sessions: Seq<GSession>, offsets: Seq<int>, off: int)
    requires
        offsets == Seq::new(sessions.len(), |i: int| off),
        valid_offset(off),
        forall|k: int| 0 <= k < sessions.len() ==> (#[trigger] sessions[k]).wf(),
        forall|k: int|
            0 <= k < sessions.len() ==> (#[trigger] sessions[k]).start.epoch
                <= sessions[k].end.epoch,
        forall|k: int|
            0 <= k && k + 1 < sessions.len() ==> (#[trigger] sessions[k]).end.epoch <= sessions[k
                + 1].start.epoch,
    ensures
        summarize_pre(sessions, offsets),
{
}

fn session_entry_ok(s: &SessionTZ, off: i32) -> (b: bool)
    ensures
        b == (s@.wf() && s@.start.epoch <= s@.end.epoch && valid_offset(off as int)),
{
    -MAX_ABS_TIMESTAMP <= s.start.epoch && s.start.epoch <= MAX_ABS_TIMESTAMP
        && -MAX_ABS_TIMESTAMP <= s.end.epoch && s.end.epoch <= MAX_ABS_TIMESTAMP && -86400
        < s.start.offset && s.start.offset < 86400 && -86400 < s.end.offset && s.end.offset
        < 86400 && s.start.epoch <= s.end.epoch && -86400 < off && off < 86400
}

/// Whether the aggregator's precondition holds of the given sessions and
/// offsets: equal lengths, well-formed instants and offsets, each session
/// ending no earlier than it starts, and civil-time order without
/// overlap.  A caller that cannot establish the precondition otherwise
/// tests it with this and fails fast.
#[verifier::loop_isolation(false)]
pub fn summarize_input_ok(sessions: &Vec<SessionTZ>, offsets: &Vec<i32>) -> (b: bool)
    ensures
        b == summarize_pre(sessions.deep_view(), offs_int(offsets@)),
{
    let ghost gsessions = sessions.deep_view();
    let ghost goffs = offs_int(offsets@);
    let n = sessions.len();
    if offsets.len() != n {
        return false;
    }
    let mut i: usize = 0;
    while i < n
        invariant
            i <= n,
            n == gsessions.len(),
            n == goffs.len(),
            forall|k: int|
                0 <= k < i ==> (#[trigger] gsessions[k]).wf() && gsessions[k].start.epoch
                    <= gsessions[k].end.epoch,
            forall|k: int| 0 <= k < i ==> valid_offset(#[trigger] goffs[k]),
            forall|k: int|
                0 <= k && k + 1 < i ==> civil_of(#[trigger] gsessions[k], goffs[k]).end
                    <= civil_of(gsessions[k + 1], goffs[k + 1]).start,
        decreases n - i,
    {
        let s = &sessions[i];
        let off = offsets[i];
        proof {
            assert(gsessions[i as int] == s@);
            assert(goffs[i as int] == off as int);
        }
        if !session_entry_ok(s, off) {
            return false;
        }
        if i > 0 {
            let p = &sessions[i - 1];
            let poff = offsets[i - 1];
            proof {
                assert(gsessions[i - 1] == p@);
                assert(goffs[i - 1] == poff as int);
            }
            if p.end.epoch + poff as i64 > s.start.epoch + off as i64 {
                return false;
            }
        }
        i = i + 1;
    }
    true
}

/// Whether a session's start, read at the given offset, falls on a date
/// inside the inclusive (or unbounded) range.
pub open spec fn start_date_in(s: GSession, off: int, from: DateBound, to: DateBound) -> bool {
    in_range(day_of(s.start.epoch + off), from, to)
}

/// The predicate selecting sessions whose start date lies in a range.
pub open spec fn start_filter(off: int, from: DateBound, to: DateBound) -> spec_fn(
    GSession,
) -> bool {
    |s: GSession| start_date_in(s, off, from, to)
}

fn clone_session(s: &SessionTZ) -> (r: SessionTZ)
    ensures
        r == *s,
{
    let r = SessionTZ {
        start: s.start,
        end: s.end,
        description: s.description.clone(),
    };
    r
}

/// The sessions whose start date, read in the timezone of the given
/// offset, lies in the inclusive (or unbounded) date range.
#[verifier::loop_isolation(false)]
pub fn filter_by_start_date(
    sessions: &Vec<SessionTZ>,
    offset: i32,
    from: DateBound,
    to: DateBound,
) -> (r: Vec<SessionTZ>)
    requires
        forall|i: int| 0 <= i < sessions@.len() ==> (#[trigger] sessions@[i])@.wf(),
        valid_offset(offset as int),
    ensures
        r.deep_view() == sessions.deep_view().filter(start_filter(offset as int, from, to)),
{
    let ghost gsessions = sessions.deep_view();
    let ghost pred = start_filter(offset as int, from, to);
    let mut out: Vec<SessionTZ> = Vec::new();
    let n = sessions.len();
    proof {
        reveal(Seq::filter);
        assert(gsessions.take(0) =~= Seq::<GSession>::empty());
        assert(out.deep_view() =~= gsessions.take(0).filter(pred));
    }
    let mut i: usize = 0;
    while i < n
        invariant
            i <= n,
            n == gsessions.len(),
            out.deep_view() == gsessions.take(i as int).filter(pred),
        decreases n - i,
    {
        proof {
            reveal(Seq::filter);
            assert(gsessions.take(i + 1).drop_last() =~= gsessions.take(i as int));
            assert(gsessions.take(i + 1).last() == gsessions[i as int]);
        }
        let s = &sessions[i];
        let day = civil_day(s.start.epoch + offset as i64);
        let lo_ok = match from {
            DateBound::Unbounded => true,
            DateBound::Included(d) => d <= day,
        };
        let hi_ok = match to {
            DateBound::Unbounded => true,
            DateBound::Included(d) => day <= d,
        };
        if lo_ok && hi_ok {
            let ghost dv0 = out.deep_view();
            out.push(clone_session(s));
            proof {
                assert(out.deep_view() =~= dv0.push(gsessions[i as int]));
            }
        }
        i = i + 1;
    }
    proof {
        assert(gsessions.take(n as int) =~= gsessions);
    }
    out
}

/// The summed duration, in seconds, of a set of sessions, from their
/// absolute instants.
#[verifier::loop_isolation(false)]
pub fn total_worked_seconds(sessions: &Vec<SessionTZ>) -> (t: u128)
    requires
        forall|i: int| 0 <= i < sessions@.len() ==> (#[trigger] sessions@[i])@.wf(),
        forall|i: int|
            0 <= i < sessions@.len() ==> (#[trigger] sessions@[i])@.start.epoch
                <= sessions@[i]@.end.epoch,
    ensures
        t as int == sessions_dur_sum(sessions.deep_view()),
{
    let ghost gsessions = sessions.deep_view();
    let mut t: u128 = 0;
    let n = sessions.len();
    proof {
        assert(gsessions.take(0) =~= Seq::<GSession>::empty());
    }
    let mut i: usize = 0;
    while i < n
        invariant
            i <= n,
            n == gsessions.len(),
            t as int == sessions_dur_sum(gsessions.take(i as int)),
        decreases n - i,
    {
        proof {
            assert(gsessions.take(i + 1).drop_last() =~= gsessions.take(i as int));
            assert(gsessions.take(i + 1).last() == gsessions[i as int]);
            assert(forall|k: int|
                0 <= k < gsessions.take(i + 1).len() ==> (#[trigger] gsessions.take(i + 1)[k])
                    == gsessions[k]);
            lemma_sessions_sum_bound(gsessions.take(i + 1));
            assert(gsessions.take(i + 1).len() * (2 * MAX_ABS_TIMESTAMP as int)
                <= u128::MAX as int) by (nonlinear_arith)
                requires
                    gsessions.take(i + 1).len() <= usize::MAX as int,
            ;
        }
        let s = &sessions[i];
        t = t + ((s.end.epoch - s.start.epoch) as u128);
        i = i + 1;
    }
    proof {
        assert(gsessions.take(n as int) =~= gsessions);
    }
    t
}

pub proof fn lemma_sum_take_le(subs: Seq<GCivil>, i: int)
    requires
        0 <= i <= subs.len(),
        forall|k: int| 0 <= k < subs.len() ==> (#[trigger] subs[k]).start <= subs[k].end,
    ensures
        civil_dur_sum(subs.take(i)) <= civil_dur_sum(subs),
    decreases subs.len(),
{
    if i == subs.len() {
        assert(subs.take(i) =~= subs);
    } else {
        assert(subs.take(i) =~= subs.drop_last().take(i));
        lemma_sum_take_le(subs.drop_last(), i);
    }
}

} // verus!
