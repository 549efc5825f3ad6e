//! The log parser and the session model.
//!
//! A log is a sequence of lines.  A line starting with `%-` followed by an
//! RFC 3339 timestamp opens a session; a line starting with `%+` and a
//! timestamp closes it; the lines in between are its description.  Lines
//! before the first start marker are ignored.  A session left open at the
//! end of the log ends "now", an instant the caller supplies.  A marker
//! line whose timestamp does not parse aborts the whole read.

use vstd::prelude::*;

use crate::dates::{day_of, lemma_day_bounds, MAX_ABS_TIMESTAMP, MAX_CIVIL_SECS,
    SECS_PER_DAY};
use crate::dates::{civil_day, midnight_of};
use crate::text::{trim_end_spec, trim_end_str};

verus! {

/// An absolute instant: seconds since the Unix epoch, with the UTC offset
/// (seconds east) it was recorded with.
#[derive(Debug, Clone, Copy, PartialEq, Eq, Structural)]
pub struct Zoned {
    pub epoch: i64,
    pub offset: i32,
}

/// The mathematical model of a [`Zoned`] instant.
#[verifier::ext_equal]
pub ghost struct GStamp {
    pub epoch: int,
    pub offset: int,
}

/// A UTC offset in seconds lies strictly within one day.
pub open spec fn valid_offset(o: int) -> bool {
    -(SECS_PER_DAY as int) < o < (SECS_PER_DAY as int)
}

impl GStamp {
    /// Within the calendar range, with an offset strictly inside one day.
    pub open spec fn wf(self) -> bool {
        &&& -MAX_ABS_TIMESTAMP <= self.epoch <= MAX_ABS_TIMESTAMP
        &&& valid_offset(self.offset)
    }

    /// The civil (wall-clock) seconds this instant reads as in its offset.
    pub open spec fn civil(self) -> int {
        self.epoch + self.offset
    }
}

impl View for Zoned {
    type V = GStamp;

    open spec fn view(&self) -> GStamp {
        GStamp { epoch: self.epoch as int, offset: self.offset as int }
    }
}

/// A work session: a start and end instant with a free-text description.
pub struct SessionTZ {
    pub start: Zoned,
    pub end: Zoned,
    pub description: String,
}

/// The sessions this library works with all carry fixed UTC offsets.
pub type Session = SessionTZ;

/// The mathematical model of a session.
#[verifier::ext_equal]
pub ghost struct GSession {
    pub start: GStamp,
    pub end: GStamp,
    pub description: Seq<char>,
}

impl GSession {
    pub open spec fn wf(self) -> bool {
        self.start.wf() && self.end.wf()
    }

    /// The projection of the session onto the civil timeline of its own
    /// start offset: the end instant is read with the start's offset, and
    /// the duration is the difference of the absolute instants.
    pub open spec fn naive_local(self) -> GCivil {
        GCivil {
            start: self.start.civil(),
            end: self.end.epoch + self.start.offset,
            description: self.description,
        }
    }
}

impl View for SessionTZ {
    type V = GSession;

    open spec fn view(&self) -> GSession {
        GSession { start: self.start@, end: self.end@, description: self.description@ }
    }
}

impl DeepView for SessionTZ {
    type V = GSession;

    open spec fn deep_view(&self) -> GSession {
        self.view()
    }
}

/// A session projected onto a civil (wall-clock) timeline: naive seconds
/// with no offset attached.
#[derive(Debug, PartialEq, Eq)]
pub struct NaiveSession {
    pub start: i64,
    pub end: i64,
    pub description: String,
}

/// The mathematical model of a civil session or sub-session.
#[verifier::ext_equal]
pub ghost struct GCivil {
    pub start: int,
    pub end: int,
    pub description: Seq<char>,
}

impl GCivil {
    pub open spec fn wf(self) -> bool {
        &&& -MAX_CIVIL_SECS <= self.start <= MAX_CIVIL_SECS
        &&& -MAX_CIVIL_SECS <= self.end <= MAX_CIVIL_SECS
    }

    /// The duration in seconds; on the civil timeline of a single offset
    /// this equals the difference of the absolute instants.
    pub open spec fn dur(self) -> int {
        self.end - self.start
    }
}

impl View for NaiveSession {
    type V = GCivil;

    open spec fn view(&self) -> GCivil {
        GCivil { start: self.start as int, end: self.end as int, description: self.description@ }
    }
}

impl DeepView for NaiveSession {
    type V = GCivil;

    open spec fn deep_view(&self) -> GCivil {
        self.view()
    }
}

impl SessionTZ {
    /// The session's duration in seconds, computed from the absolute
    /// instants, never from civil time.
    pub fn duration(&self) -> (d: i64)
        requires
            self@.wf(),
        ensures
            d == self@.end.epoch - self@.start.epoch,
    {
        self.end.epoch - self.start.epoch
    }

    /// The same session, read in a timezone with the given fixed UTC
    /// offset: the absolute instants are unchanged.
    pub fn with_timezone(self, offset: i32) -> (r: SessionTZ)
        ensures
            r@.start.epoch == self@.start.epoch,
            r@.end.epoch == self@.end.epoch,
            r@.start.offset == offset as int,
            r@.end.offset == offset as int,
            r@.description == self@.description,
    {
        SessionTZ {
            start: Zoned { epoch: self.start.epoch, offset },
            end: Zoned { epoch: self.end.epoch, offset },
            description: self.description,
        }
    }

    /// Strip the offsets: both instants are read on the civil timeline of
    /// the start's own offset, in case the end's differs.
    pub fn naive_local(self) -> (r: NaiveSession)
        requires
            self@.wf(),
        ensures
            r@ == self@.naive_local(),
    {
        let off = self.start.offset as i64;
        NaiveSession {
            start: self.start.epoch + off,
            end: self.end.epoch + off,
            description: self.description,
        }
    }
}

/// A fatal log-reading failure: a marker line carried a timestamp that is
/// not valid RFC 3339.  The whole read is abandoned, with no partial
/// result.
#[derive(Debug, Clone, Copy, PartialEq, Eq, Structural)]
pub enum LogParseError {
    MalformedTimestamp,
}

/// Whether a line starts with `%` followed by the given prefix character.
pub fn is_macro_line(line: &str, prefix: char) -> (b: bool)
    ensures
        b == (line@.len() >= 2 && line@[0] == '%' && line@[1] == prefix),
{
    let n = line.unicode_len();
    n >= 2 && line.get_char(0) == '%' && line.get_char(1) == prefix
}

/// A line that opens a session: `%-` followed by a timestamp.
pub open spec fn is_start_marker(l: Seq<char>) -> bool {
    l.len() >= 2 && l[0] == '%' && l[1] == '-'
}

/// A line that closes a session: `%+` followed by a timestamp.
pub open spec fn is_end_marker(l: Seq<char>) -> bool {
    l.len() >= 2 && l[0] == '%' && l[1] == '+'
}

/// The timestamp text of a marker line: everything after the two-character
/// prefix.
pub open spec fn ts_part(l: Seq<char>) -> Seq<char> {
    l.skip(2)
}

/// What chrono's RFC 3339 parser yields on a string: the instant as whole
/// seconds since the Unix epoch together with its UTC offset in seconds,
/// or nothing when the string is not a valid RFC 3339 timestamp.
pub uninterp spec fn rfc3339_timestamp(s: Seq<char>) -> Option<(int, int)>;

/// Relies on `chrono::DateTime::parse_from_rfc3339`: the result is a
/// function of the characters alone.  A parsed timestamp carries a
/// `FixedOffset` whose seconds lie strictly within one day, and an instant
/// within chrono's calendar range of roughly plus or minus 262000 years,
/// well inside `MAX_ABS_TIMESTAMP`.
#[verifier::external_body]
fn parse_rfc3339(s: &str) -> (r: Option<Zoned>)
    ensures
        r matches Some(z) ==> rfc3339_timestamp(s@) == Some((z.epoch as int, z.offset as int))
            && z@.wf(),
        r is None ==> rfc3339_timestamp(s@) is None,
{
    match chrono::DateTime::parse_from_rfc3339(s) {
        Ok(dt) => Some(Zoned { epoch: dt.timestamp(), offset: dt.offset().local_minus_utc() }),
        Err(_) => None,
    }
}

/// Relies on `chrono::DateTime::from_timestamp` and `chrono::Local`: the
/// local timezone's UTC offset, in seconds east, at a given instant;
/// nothing when the instant lies outside the calendar range.  The offset
/// depends on the machine's timezone database, so no two calls are
/// related.
#[verifier::external_body]
fn chrono_local_offset(epoch: i64) -> (r: Option<i32>)
    ensures
        r matches Some(o) ==> valid_offset(o as int),
{
    match chrono::DateTime::from_timestamp(epoch, 0) {
        Some(utc) => Some(utc.with_timezone(&chrono::Local).offset().local_minus_utc()),
        None => None,
    }
}

/// The local timezone's UTC offset at each session's start instant, or
/// nothing if any instant falls outside the calendar range.
pub fn local_offsets(sessions: &Vec<SessionTZ>) -> (r: Option<Vec<i32>>)
    ensures
        r matches Some(v) ==> v@.len() == sessions@.len() && (forall|i: int|
            0 <= i < v@.len() ==> valid_offset((#[trigger] v@[i]) as int)),
{
    let mut out: Vec<i32> = Vec::new();
    let mut i: usize = 0;
    while i < sessions.len()
        invariant
            i <= sessions@.len(),
            out@.len() == i,
            forall|j: int| 0 <= j < i ==> valid_offset((#[trigger] out@[j]) as int),
        decreases sessions@.len() - i,
    {
        match chrono_local_offset(sessions[i].start.epoch) {
            Some(o) => out.push(o),
            None => {
                return None;
            },
        }
        i = i + 1;
    }
    Some(out)
}

/// The description lines joined, each followed by a newline.
pub open spec fn joined(lines: Seq<Seq<char>>) -> Seq<char>
    decreases lines.len(),
{
    if lines.len() == 0 {
        Seq::empty()
    } else {
        lines[0] + "\n"@ + joined(lines.skip(1))
    }
}

proof fn lemma_joined_push(acc: Seq<Seq<char>>, l: Seq<char>)
    ensures
        joined(acc.push(l)) == joined(acc) + l + "\n"@,
    decreases acc.len(),
{
    if acc.len() == 0 {
        assert(acc.push(l).skip(1) =~= Seq::<Seq<char>>::empty());
        assert(acc.push(l)[0] == l);
        assert(l + "\n"@ + joined(Seq::<Seq<char>>::empty()) =~= l + "\n"@);
        assert(joined(acc) + l + "\n"@ =~= l + "\n"@);
    } else {
        lemma_joined_push(acc.skip(1), l);
        assert(acc.push(l).skip(1) =~= acc.skip(1).push(l));
        assert(acc.push(l)[0] == acc[0]);
        assert(acc[0] + "\n"@ + (joined(acc.skip(1)) + l + "\n"@) =~= (acc[0] + "\n"@ + joined(
            acc.skip(1),
        )) + l + "\n"@);
    }
}

/// The description of a session whose content lines are `acc`: the lines
/// newline-joined, with trailing whitespace trimmed.
pub open spec fn desc_of(acc: Seq<Seq<char>>) -> Seq<char> {
    trim_end_spec(joined(acc))
}

/// The sessions a log parses to, given the instant `now` that closes a
/// trailing open session; nothing when a marker line carries a malformed
/// timestamp.  Lines before the first start marker are skipped.
pub open spec fn parse_model(lines: Seq<Seq<char>>, now: GStamp) -> Option<Seq<GSession>>
    decreases lines.len(),
{
    if lines.len() == 0 {
        Some(Seq::empty())
    } else if is_start_marker(lines[0]) {
        match rfc3339_timestamp(ts_part(lines[0])) {
            Some(t) => body_model(
                lines.skip(1),
                now,
                GStamp { epoch: t.0, offset: t.1 },
                Seq::empty(),
            ),
            None => None,
        }
    } else {
        parse_model(lines.skip(1), now)
    }
}

/// The rest of a log once a session has started: lines accumulate into the
/// description until an end marker closes the session, or the log ends and
/// `now` closes it.
pub open spec fn body_model(
    lines: Seq<Seq<char>>,
    now: GStamp,
    start: GStamp,
    acc: Seq<Seq<char>>,
) -> Option<Seq<GSession>>
    decreases lines.len(),
{
    if lines.len() == 0 {
        Some(seq![GSession { start, end: now, description: desc_of(acc) }])
    } else if is_end_marker(lines[0]) {
        match rfc3339_timestamp(ts_part(lines[0])) {
            Some(t) => match parse_model(lines.skip(1), now) {
                Some(rest) => Some(
                    seq![
                        GSession {
                            start,
                            end: GStamp { epoch: t.0, offset: t.1 },
                            description: desc_of(acc),
                        },
                    ] + rest,
                ),
                None => None,
            },
            None => None,
        }
    } else {
        body_model(lines.skip(1), now, start, acc.push(lines[0]))
    }
}

/// The civil second at which the day after `c`'s day begins: the midnight
/// boundary that ends `c`'s calendar day.
pub open spec fn next_midnight(c: int) -> int {
    (day_of(c) + 1) * (SECS_PER_DAY as int)
}

/// The ordered cuts of a civil session at every midnight strictly between
/// its endpoints.  Intervals are half-open, so an empty session yields no
/// sub-session at all.
pub open spec fn split_model(s: GCivil) -> Seq<GCivil>
    decreases s.end - s.start,
{
    if s.start >= s.end {
        Seq::empty()
    } else if s.end <= next_midnight(s.start) {
        seq![s]
    } else {
        seq![GCivil { start: s.start, end: next_midnight(s.start), description: s.description }]
            + split_model(
            GCivil { start: next_midnight(s.start), end: s.end, description: s.description },
        )
    }
}

/// Every sub-session of a split lies within its session and within a
/// single calendar day, carries the session's description, and the
/// sub-sessions walk forward one day at a time from the session's first
/// day; a non-empty session begins and ends exactly where its split does.
pub proof fn lemma_split_props(s: GCivil)
    requires
        s.wf(),
        s.start <= s.end,
    ensures
        forall|k: int|
            0 <= k < split_model(s).len() ==> {
                let sub = #[trigger] split_model(s)[k];
                &&& s.start <= sub.start < sub.end <= s.end
                &&& sub.end <= next_midnight(sub.start)
                &&& sub.description == s.description
                &&& sub.wf()
                &&& day_of(sub.start) == day_of(s.start) + k
            },
        s.start < s.end ==> split_model(s).len() > 0 && split_model(s)[0].start == s.start
            && split_model(s).last().end == s.end,
    decreases s.end - s.start,
{
    lemma_day_bounds(s.start);
    if s.start >= s.end || s.end <= next_midnight(s.start) {
    } else {
        let mid = next_midnight(s.start);
        let rest = GCivil { start: mid, end: s.end, description: s.description };
        lemma_day_bounds(mid);
        assert(day_of(mid) == day_of(s.start) + 1) by {
            vstd::arithmetic::div_mod::lemma_fundamental_div_mod_converse_div(
                mid,
                SECS_PER_DAY as int,
                day_of(s.start) + 1,
                0,
            );
        }
        lemma_split_props(rest);
    }
}

/// Splitting loses no time: the durations of the sub-sessions sum to the
/// session's own duration.
pub proof fn lemma_split_sum(s: GCivil)
    requires
        s.start <= s.end,
    ensures
        civil_dur_sum(split_model(s)) == s.end - s.start,
    decreases s.end - s.start,
{
    reveal_with_fuel(civil_dur_sum, 3);
    if s.start >= s.end {
    } else if s.end <= next_midnight(s.start) {
        assert(split_model(s) =~= seq![s]);
        assert(split_model(s).drop_last() =~= Seq::<GCivil>::empty());
        assert(civil_dur_sum(Seq::<GCivil>::empty()) == 0);
    } else {
        let mid = next_midnight(s.start);
        let head = GCivil { start: s.start, end: mid, description: s.description };
        let rest = GCivil { start: mid, end: s.end, description: s.description };
        lemma_split_sum(rest);
        lemma_dur_sum_prepend(head, split_model(rest));
        assert(split_model(s) =~= seq![head] + split_model(rest));
    }
}

/// The total duration of a sequence of civil sub-sessions.
pub open spec fn civil_dur_sum(subs: Seq<GCivil>) -> int
    decreases subs.len(),
{
    if subs.len() == 0 {
        0
    } else {
        civil_dur_sum(subs.drop_last()) + subs.last().dur()
    }
}

/// The total duration of concatenated streams is the sum of the totals.
pub proof fn lemma_dur_sum_concat(a: Seq<GCivil>, b: Seq<GCivil>)
    ensures
        civil_dur_sum(a + b) == civil_dur_sum(a) + civil_dur_sum(b),
    decreases b.len(),
{
    reveal_with_fuel(civil_dur_sum, 2);
    if b.len() == 0 {
        assert(a + b =~= a);
    } else {
        lemma_dur_sum_concat(a, b.drop_last());
        assert((a + b).drop_last() =~= a + b.drop_last());
        assert((a + b).last() == b.last());
    }
}

proof fn lemma_dur_sum_prepend(head: GCivil, subs: Seq<GCivil>)
    ensures
        civil_dur_sum(seq![head] + subs) == head.dur() + civil_dur_sum(subs),
    decreases subs.len(),
{
    reveal_with_fuel(civil_dur_sum, 3);
    if subs.len() == 0 {
        assert(seq![head] + subs =~= seq![head]);
        assert((seq![head] + subs).drop_last() =~= Seq::<GCivil>::empty());
        assert(civil_dur_sum(Seq::<GCivil>::empty()) == 0);
        assert(civil_dur_sum(subs) == 0);
    } else {
        lemma_dur_sum_prepend(head, subs.drop_last());
        assert((seq![head] + subs).drop_last() =~= seq![head] + subs.drop_last());
        assert((seq![head] + subs).last() == subs.last());
        assert(civil_dur_sum(seq![head] + subs) == civil_dur_sum(seq![head] + subs.drop_last())
            + subs.last().dur());
    }
}

/// A forward-only, non-restartable reader of sessions from the lines of a
/// log.  The instant `now` closes a trailing session without an end
/// marker, so repeated reads of an open session grow with the clock.
pub struct SessionIterator {
    pub lines: Vec<String>,
    pub pos: usize,
    pub now: Zoned,
}

impl SessionIterator {
    /// The lines still to be read.
    pub open spec fn remaining(self) -> Seq<Seq<char>> {
        self.lines.deep_view().skip(self.pos as int)
    }

    pub open spec fn wf(self) -> bool {
        self.pos <= self.lines@.len() && self.now@.wf()
    }

    pub fn new(lines: Vec<String>, now: Zoned) -> (it: SessionIterator)
        requires
            now@.wf(),
        ensures
            it.wf(),
            it.lines == lines,
            it.pos == 0,
            it.now == now,
    {
        SessionIterator { lines, pos: 0, now }
    }

    /// Skip lines until a start marker opens a session; parse its
    /// timestamp.
    #[verifier::loop_isolation(false)]
    fn scan_start(&mut self) -> (r: Result<Option<Zoned>, LogParseError>)
        requires
            old(self).wf(),
        ensures
            final(self).wf(),
            final(self).lines == old(self).lines,
            final(self).now == old(self).now,
            old(self).pos <= final(self).pos,
            match r {
                Ok(None) => final(self).pos == old(self).lines@.len() && parse_model(
                    old(self).remaining(),
                    old(self).now@,
                ) == Some(Seq::<GSession>::empty()),
                Ok(Some(z)) => z@.wf() && old(self).pos < final(self).pos && parse_model(
                    old(self).remaining(),
                    old(self).now@,
                ) == body_model(final(self).remaining(), old(self).now@, z@, Seq::empty()),
                Err(_) => parse_model(old(self).remaining(), old(self).now@) is None,
            },
    {
        let ghost s0 = *self;
        let ghost l = self.lines.deep_view();
        while self.pos < self.lines.len()
            invariant
                self.wf(),
                self.lines == s0.lines,
                self.now == s0.now,
                s0.pos <= self.pos,
                l == self.lines.deep_view(),
                parse_model(s0.remaining(), s0.now@) == parse_model(self.remaining(), s0.now@),
            decreases self.lines@.len() - self.pos,
        {
            let ghost rem = self.remaining();
            proof {
                assert(rem[0] == l[self.pos as int]);
                assert(rem.skip(1) =~= l.skip(self.pos + 1));
            }
            let line = &self.lines[self.pos];
            if is_macro_line(line.as_str(), '-') {
                let n = line.as_str().unicode_len();
                let ts = line.as_str().substring_char(2, n);
                proof {
                    assert(ts@ =~= ts_part(rem[0]));
                }
                let parsed = parse_rfc3339(ts);
                match parsed {
                    Some(z) => {
                        self.pos = self.pos + 1;
                        proof {
                            assert(GStamp {
                                epoch: z.epoch as int,
                                offset: z.offset as int,
                            } =~= z@);
                        }
                        return Ok(Some(z));
                    },
                    None => {
                        return Err(LogParseError::MalformedTimestamp);
                    },
                }
            } else {
                self.pos = self.pos + 1;
            }
        }
        proof {
            assert(self.remaining() =~= Seq::<Seq<char>>::empty());
        }
        Ok(None)
    }

    /// Read the body of a session opened at `start`: accumulate
    /// description lines until an end marker or the end of the log.
    #[verifier::loop_isolation(false)]
    fn read_body(&mut self, start: Zoned) -> (r: Result<SessionTZ, LogParseError>)
        requires
            old(self).wf(),
            start@.wf(),
        ensures
            final(self).wf(),
            final(self).lines == old(self).lines,
            final(self).now == old(self).now,
            old(self).pos <= final(self).pos,
            match r {
                Ok(s) => s@.wf() && s@.start == start@ && (match parse_model(
                    final(self).remaining(),
                    old(self).now@,
                ) {
                    Some(rest) => body_model(
                        old(self).remaining(),
                        old(self).now@,
                        start@,
                        Seq::empty(),
                    ) == Some(seq![s@] + rest),
                    None => body_model(
                        old(self).remaining(),
                        old(self).now@,
                        start@,
                        Seq::empty(),
                    ) is None,
                }),
                Err(_) => body_model(
                    old(self).remaining(),
                    old(self).now@,
                    start@,
                    Seq::empty(),
                ) is None,
            },
    {
        let ghost s0 = *self;
        let ghost l = self.lines.deep_view();
        let ghost n0 = self.now@;
        let mut desc = String::new();
        let ghost mut acc: Seq<Seq<char>> = Seq::empty();
        proof {
            assert(joined(acc) =~= desc@);
        }
        while self.pos < self.lines.len()
            invariant
                self.wf(),
                self.lines == s0.lines,
                self.now == s0.now,
                s0.pos <= self.pos,
                l == self.lines.deep_view(),
                n0 == self.now@,
                start@.wf(),
                desc@ == joined(acc),
                body_model(s0.remaining(), n0, start@, Seq::empty()) == body_model(
                    self.remaining(),
                    n0,
                    start@,
                    acc,
                ),
            decreases self.lines@.len() - self.pos,
        {
            let ghost rem = self.remaining();
            proof {
                assert(rem[0] == l[self.pos as int]);
                assert(rem.skip(1) =~= l.skip(self.pos + 1));
            }
            let line = &self.lines[self.pos];
            if is_macro_line(line.as_str(), '+') {
                let n = line.as_str().unicode_len();
                let ts = line.as_str().substring_char(2, n);
                proof {
                    assert(ts@ =~= ts_part(rem[0]));
                }
                let parsed = parse_rfc3339(ts);
                match parsed {
                    Some(z) => {
                        self.pos = self.pos + 1;
                        let d = trim_end_str(desc.as_str());
                        let s = SessionTZ { start, end: z, description: d };
                        proof {
                            assert(GStamp {
                                epoch: z.epoch as int,
                                offset: z.offset as int,
                            } =~= z@);
                            assert(s@ =~= GSession {
                                start: start@,
                                end: z@,
                                description: desc_of(acc),
                            });
                        }
                        return Ok(s);
                    },
                    None => {
                        return Err(LogParseError::MalformedTimestamp);
                    },
                }
            } else {
                desc.append(line.as_str());
                desc.append("\n");
                proof {
                    lemma_joined_push(acc, rem[0]);
                    acc = acc.push(rem[0]);
                }
                self.pos = self.pos + 1;
            }
        }
        proof {
            assert(self.remaining() =~= Seq::<Seq<char>>::empty());
        }
        let d = trim_end_str(desc.as_str());
        let s = SessionTZ { start, end: self.now, description: d };
        proof {
            assert(s@ =~= GSession { start: start@, end: n0, description: desc_of(acc) });
            let one = seq![s@];
            assert(one + Seq::<GSession>::empty() =~= one);
            assert(parse_model(self.remaining(), n0) == Some(Seq::<GSession>::empty()));
        }
        Ok(s)
    }

    /// The next session of the log: `Ok(None)` at the end, an error on a
    /// marker line whose timestamp is malformed.
    pub fn next_session(&mut self) -> (r: Result<Option<SessionTZ>, LogParseError>)
        requires
            old(self).wf(),
        ensures
            final(self).wf(),
            final(self).lines == old(self).lines,
            final(self).now == old(self).now,
            old(self).pos <= final(self).pos,
            match r {
                Ok(None) => final(self).pos == old(self).lines@.len() && parse_model(
                    old(self).remaining(),
                    old(self).now@,
                ) == Some(Seq::<GSession>::empty()),
                Ok(Some(s)) => s@.wf() && old(self).pos < final(self).pos && (match parse_model(
                    final(self).remaining(),
                    old(self).now@,
                ) {
                    Some(rest) => parse_model(old(self).remaining(), old(self).now@) == Some(
                        seq![s@] + rest,
                    ),
                    None => parse_model(old(self).remaining(), old(self).now@) is None,
                }),
                Err(_) => parse_model(old(self).remaining(), old(self).now@) is None,
            },
    {
        match self.scan_start() {
            Err(e) => Err(e),
            Ok(None) => Ok(None),
            Ok(Some(z)) => match self.read_body(z) {
                Err(e) => Err(e),
                Ok(s) => Ok(Some(s)),
            },
        }
    }
}

/// Parse a whole log into its sessions, in file order.  `now` closes a
/// trailing session that has no end marker.  A malformed timestamp on a
/// marker line aborts the read with an error and no partial result.
#[verifier::loop_isolation(false)]
pub fn parse_sessions(lines: Vec<String>, now: Zoned) -> (r: Result<
    Vec<SessionTZ>,
    LogParseError,
>)
    requires
        now@.wf(),
    ensures
        match r {
            Ok(ss) => parse_model(lines.deep_view(), now@) == Some(ss.deep_view()) && (forall|
                i: int,
            |
                0 <= i < ss@.len() ==> (#[trigger] ss@[i])@.wf()),
            Err(_) => parse_model(lines.deep_view(), now@) is None,
        },
        r matches Ok(ss) ==> (chronological(lines.deep_view(), now@) ==> sessions_ordered(
            ss.deep_view(),
        )),
        r matches Ok(ss) ==> ((lines.deep_view().len() > 0 && is_start_marker(
            lines.deep_view().last(),
        )) ==> ss.deep_view().len() > 0 && ss.deep_view().last().end == now@),
{
    let ghost l = lines.deep_view();
    let mut it = SessionIterator::new(lines, now);
    let mut out: Vec<SessionTZ> = Vec::new();
    proof {
        assert(it.remaining() =~= l);
        assert(out.deep_view() =~= Seq::<GSession>::empty());
    }
    loop
        invariant
            it.wf(),
            it.lines.deep_view() == l,
            it.now == now,
            now@.wf(),
            forall|i: int| 0 <= i < out@.len() ==> (#[trigger] out@[i])@.wf(),
            match parse_model(it.remaining(), now@) {
                Some(rest) => parse_model(l, now@) == Some(out.deep_view() + rest),
                None => parse_model(l, now@) is None,
            },
        decreases it.lines@.len() - it.pos,
    {
        let ghost dv0 = out.deep_view();
        match it.next_session() {
            Ok(Some(s)) => {
                out.push(s);
                proof {
                    assert(out.deep_view() =~= dv0.push(s@));
                    if let Some(rest) = parse_model(it.remaining(), now@) {
                        assert(dv0 + (seq![s@] + rest) =~= out.deep_view() + rest);
                    }
                }
            },
            Ok(None) => {
                proof {
                    assert(out.deep_view() + Seq::<GSession>::empty() =~= out.deep_view());
                    if chronological(l, now@) {
                        lemma_parse_ordered(l, now@);
                    }
                    if l.len() > 0 && is_start_marker(l.last()) {
                        lemma_parse_open(l, now@);
                    }
                }
                return Ok(out);
            },
            Err(e) => {
                return Err(e);
            },
        }
    }
}

impl NaiveSession {
    /// Cut the session at every local midnight strictly between its
    /// endpoints, yielding one sub-session per calendar day it touches; a
    /// sub-session never has equal endpoints.
    pub fn split_at_days(self) -> (r: Vec<NaiveSession>)
        requires
            self@.wf(),
            self@.start <= self@.end,
        ensures
            r.deep_view() == split_model(self@),
    {
        let ghost whole = self@;
        let mut out: Vec<NaiveSession> = Vec::new();
        let end = self.end;
        let mut cur = self.start;
        proof {
            assert(out.deep_view() + split_model(whole) =~= split_model(whole));
        }
        while cur < end
            invariant
                -MAX_CIVIL_SECS <= cur <= MAX_CIVIL_SECS,
                end == self@.end,
                cur <= end,
                self@.wf(),
                split_model(whole) == out.deep_view() + split_model(
                    GCivil { start: cur as int, end: end as int, description: whole.description },
                ),
                self.description@ == whole.description,
            decreases end - cur,
        {
            let ghost rem = GCivil {
                start: cur as int,
                end: end as int,
                description: whole.description,
            };
            let day = civil_day(cur);
            proof {
                lemma_day_bounds(cur as int);
            }
            let nm = midnight_of(day + 1);
            let stop = if end < nm {
                end
            } else {
                nm
            };
            let ghost old_dv = out.deep_view();
            out.push(
                NaiveSession { start: cur, end: stop, description: self.description.clone() },
            );
            proof {
                let sub = GCivil {
                    start: cur as int,
                    end: stop as int,
                    description: whole.description,
                };
                assert(out.deep_view() =~= old_dv.push(sub));
                let after = GCivil {
                    start: stop as int,
                    end: end as int,
                    description: whole.description,
                };
                if end as int <= next_midnight(cur as int) {
                    assert(split_model(rem) =~= seq![sub]);
                    assert(split_model(after) =~= Seq::<GCivil>::empty());
                } else {
                    assert(split_model(rem) =~= seq![sub] + split_model(after));
                }
                assert(split_model(whole) =~= out.deep_view() + split_model(after));
            }
            cur = stop;
        }
        proof {
            assert(split_model(
                GCivil { start: cur as int, end: end as int, description: whole.description },
            ) =~= Seq::<GCivil>::empty());
            assert(split_model(whole) =~= out.deep_view());
        }
        out
    }
}

/// Whether the log's trailing session, if any, has been closed.
#[derive(Debug, Clone, Copy, PartialEq, Eq, Structural)]
pub enum SessionStatus {
    Finished,
    Started,
}

/// Whether a log ends inside a session: a start marker was seen with no
/// end marker after it.  `in_session` says whether a session is already
/// open when these lines begin.
pub open spec fn open_tail(lines: Seq<Seq<char>>, in_session: bool) -> bool
    decreases lines.len(),
{
    if lines.len() == 0 {
        in_session
    } else if !in_session {
        open_tail(lines.skip(1), is_start_marker(lines[0]))
    } else {
        open_tail(lines.skip(1), !is_end_marker(lines[0]))
    }
}

/// The status of the log's last session: `Started` when the log ends
/// inside a session that no end marker has closed, `Finished` otherwise
/// (also for an empty log).
#[verifier::loop_isolation(false)]
pub fn get_last_session_status(lines: &Vec<String>) -> (r: SessionStatus)
    ensures
        r == (if open_tail(lines.deep_view(), false) {
            SessionStatus::Started
        } else {
            SessionStatus::Finished
        }),
{
    let ghost l = lines.deep_view();
    let mut in_session = false;
    let mut i: usize = 0;
    proof {
        assert(l.skip(0) =~= l);
    }
    while i < lines.len()
        invariant
            i <= lines@.len(),
            open_tail(l, false) == open_tail(l.skip(i as int), in_session),
        decreases lines@.len() - i,
    {
        proof {
            assert(l.skip(i as int)[0] == l[i as int]);
            assert(l.skip(i as int).skip(1) =~= l.skip(i + 1));
        }
        let line = &lines[i];
        if !in_session {
            in_session = is_macro_line(line.as_str(), '-');
        } else {
            in_session = !is_macro_line(line.as_str(), '+');
        }
        i = i + 1;
    }
    proof {
        assert(l.skip(i as int) =~= Seq::<Seq<char>>::empty());
    }
    if in_session {
        SessionStatus::Started
    } else {
        SessionStatus::Finished
    }
}

/// The timestamps (epoch seconds) of the well-formed marker lines of a
/// log, in file order.
pub open spec fn marker_stamps(lines: Seq<Seq<char>>) -> Seq<int>
    decreases lines.len(),
{
    if lines.len() == 0 {
        Seq::empty()
    } else {
        let rest = marker_stamps(lines.skip(1));
        if is_start_marker(lines[0]) || is_end_marker(lines[0]) {
            match rfc3339_timestamp(ts_part(lines[0])) {
                Some(t) => seq![t.0] + rest,
                None => rest,
            }
        } else {
            rest
        }
    }
}

/// A sequence of integers that never decreases.
pub open spec fn nondecreasing(s: Seq<int>) -> bool {
    forall|i: int, j: int| 0 <= i <= j < s.len() ==> s[i] <= s[j]
}

/// Every element of the sequence is at most `hi`.
pub open spec fn bounded_by(s: Seq<int>, hi: int) -> bool {
    forall|i: int| 0 <= i < s.len() ==> s[i] <= hi
}

/// Every element of the sequence is at least `lo`.
pub open spec fn at_least(s: Seq<int>, lo: int) -> bool {
    forall|i: int| 0 <= i < s.len() ==> lo <= s[i]
}

/// A log is chronological with respect to `now` when its marker
/// timestamps never decrease in file order and none lies after `now`.
/// This is the well-formedness that an append-only log written by a
/// single clock guarantees.
pub open spec fn chronological(lines: Seq<Seq<char>>, now: GStamp) -> bool {
    nondecreasing(marker_stamps(lines)) && bounded_by(marker_stamps(lines), now.epoch)
}

/// Sessions are ordered: each starts no later than it ends, and none
/// overlaps the one after it.
pub open spec fn sessions_ordered(ss: Seq<GSession>) -> bool {
    &&& forall|k: int| 0 <= k < ss.len() ==> (#[trigger] ss[k]).start.epoch <= ss[k].end.epoch
    &&& forall|k: int|
        0 <= k && k + 1 < ss.len() ==> (#[trigger] ss[k]).end.epoch <= ss[k + 1].start.epoch
}

proof fn lemma_stamps_tail(lines: Seq<Seq<char>>, lo: int, hi: int)
    requires
        lines.len() > 0,
        nondecreasing(marker_stamps(lines)),
        bounded_by(marker_stamps(lines), hi),
        at_least(marker_stamps(lines), lo),
    ensures
        nondecreasing(marker_stamps(lines.skip(1))),
        bounded_by(marker_stamps(lines.skip(1)), hi),
        at_least(marker_stamps(lines.skip(1)), lo),
        ((is_start_marker(lines[0]) || is_end_marker(lines[0])) && rfc3339_timestamp(
            ts_part(lines[0]),
        ) is Some) ==> {
            let h = rfc3339_timestamp(ts_part(lines[0]))->Some_0.0;
            &&& marker_stamps(lines)[0] == h
            &&& lo <= h <= hi
            &&& at_least(marker_stamps(lines.skip(1)), h)
        },
{
    let s = marker_stamps(lines);
    let rest = marker_stamps(lines.skip(1));
    if (is_start_marker(lines[0]) || is_end_marker(lines[0])) && rfc3339_timestamp(
        ts_part(lines[0]),
    ) is Some {
        let h = rfc3339_timestamp(ts_part(lines[0]))->Some_0.0;
        assert(s =~= seq![h] + rest);
        assert forall|i: int| 0 <= i < rest.len() implies h <= rest[i] by {
            assert(s[0] <= s[i + 1]);
        }
        assert forall|i: int, j: int| 0 <= i <= j < rest.len() implies rest[i] <= rest[j] by {
            assert(s[i + 1] <= s[j + 1]);
        }
        assert forall|i: int| 0 <= i < rest.len() implies rest[i] <= hi by {
            assert(s[i + 1] <= hi);
        }
        assert forall|i: int| 0 <= i < rest.len() implies lo <= rest[i] by {
            assert(lo <= s[i + 1]);
        }
    } else {
        assert(s =~= rest);
    }
}

proof fn lemma_stamps_tail_sorted(lines: Seq<Seq<char>>, hi: int)
    requires
        lines.len() > 0,
        nondecreasing(marker_stamps(lines)),
        bounded_by(marker_stamps(lines), hi),
    ensures
        nondecreasing(marker_stamps(lines.skip(1))),
        bounded_by(marker_stamps(lines.skip(1)), hi),
{
    let s = marker_stamps(lines);
    let rest = marker_stamps(lines.skip(1));
    if (is_start_marker(lines[0]) || is_end_marker(lines[0])) && rfc3339_timestamp(
        ts_part(lines[0]),
    ) is Some {
        let h = rfc3339_timestamp(ts_part(lines[0]))->Some_0.0;
        assert(s =~= seq![h] + rest);
        assert forall|i: int, j: int| 0 <= i <= j < rest.len() implies rest[i] <= rest[j] by {
            assert(s[i + 1] <= s[j + 1]);
        }
        assert forall|i: int| 0 <= i < rest.len() implies rest[i] <= hi by {
            assert(s[i + 1] <= hi);
        }
    } else {
        assert(s =~= rest);
    }
}

proof fn lemma_parse_ordered(lines: Seq<Seq<char>>, now: GStamp)
    requires
        parse_model(lines, now) is Some,
        nondecreasing(marker_stamps(lines)),
        bounded_by(marker_stamps(lines), now.epoch),
    ensures
        sessions_ordered(parse_model(lines, now)->Some_0),
        parse_model(lines, now)->Some_0.len() > 0 ==> marker_stamps(lines).contains(
            parse_model(lines, now)->Some_0[0].start.epoch,
        ),
    decreases lines.len(),
{
    if lines.len() == 0 {
    } else if is_start_marker(lines[0]) {
        let t = rfc3339_timestamp(ts_part(lines[0]))->Some_0;
        let start = GStamp { epoch: t.0, offset: t.1 };
        let s = marker_stamps(lines);
        assert(s =~= seq![t.0] + marker_stamps(lines.skip(1)));
        assert forall|i: int| 0 <= i < s.len() implies t.0 <= s[i] by {
            assert(s[0] <= s[i]);
        }
        lemma_stamps_tail(lines, t.0, now.epoch);
        lemma_body_ordered(lines.skip(1), now, start, Seq::empty());
        let ss = parse_model(lines, now)->Some_0;
        assert(ss[0].start.epoch == t.0);
        assert(marker_stamps(lines).contains(ss[0].start.epoch)) by {
            assert(marker_stamps(lines)[0] == ss[0].start.epoch);
        }
    } else {
        lemma_stamps_tail_sorted(lines, now.epoch);
        lemma_parse_ordered(lines.skip(1), now);
        let ss = parse_model(lines, now)->Some_0;
        if ss.len() > 0 {
            let x = ss[0].start.epoch;
            let tail = marker_stamps(lines.skip(1));
            let w = choose|w: int| 0 <= w < tail.len() && tail[w] == x;
            if is_end_marker(lines[0]) && rfc3339_timestamp(ts_part(lines[0])) is Some {
                let h = rfc3339_timestamp(ts_part(lines[0]))->Some_0.0;
                assert(marker_stamps(lines) =~= seq![h] + tail);
                assert(marker_stamps(lines)[w + 1] == x);
            } else {
                assert(marker_stamps(lines) =~= tail);
                assert(marker_stamps(lines)[w] == x);
            }
        }
    }
}

proof fn lemma_body_ordered(lines: Seq<Seq<char>>, now: GStamp, start: GStamp, acc: Seq<Seq<char>>)
    requires
        body_model(lines, now, start, acc) is Some,
        nondecreasing(marker_stamps(lines)),
        bounded_by(marker_stamps(lines), now.epoch),
        at_least(marker_stamps(lines), start.epoch),
        start.epoch <= now.epoch,
    ensures
        sessions_ordered(body_model(lines, now, start, acc)->Some_0),
        body_model(lines, now, start, acc)->Some_0.len() > 0,
        body_model(lines, now, start, acc)->Some_0[0].start == start,
    decreases lines.len(),
{
    let ss = body_model(lines, now, start, acc)->Some_0;
    if lines.len() == 0 {
    } else if is_end_marker(lines[0]) {
        let t = rfc3339_timestamp(ts_part(lines[0]))->Some_0;
        let stop = GStamp { epoch: t.0, offset: t.1 };
        let rest = parse_model(lines.skip(1), now)->Some_0;
        lemma_stamps_tail(lines, start.epoch, now.epoch);
        lemma_parse_ordered(lines.skip(1), now);
        let sess = GSession { start, end: stop, description: desc_of(acc) };
        assert(ss =~= seq![sess] + rest);
        assert(start.epoch <= t.0) by {
            assert(marker_stamps(lines)[0] == t.0);
        }
        if rest.len() > 0 {
            let w = choose|w: int|
                0 <= w < marker_stamps(lines.skip(1)).len() && marker_stamps(lines.skip(1))[w]
                    == rest[0].start.epoch;
            assert(t.0 <= marker_stamps(lines.skip(1))[w]);
        }
        assert forall|k: int| 0 <= k < ss.len() implies (#[trigger] ss[k]).start.epoch
            <= ss[k].end.epoch by {
            if k > 0 {
                assert(ss[k] == rest[k - 1]);
            }
        }
        assert forall|k: int| 0 <= k && k + 1 < ss.len() implies (#[trigger] ss[k]).end.epoch
            <= ss[k + 1].start.epoch by {
            if k > 0 {
                assert(ss[k] == rest[k - 1]);
                assert(ss[k + 1] == rest[k]);
            } else {
                assert(ss[1] == rest[0]);
            }
        }
    } else {
        lemma_stamps_tail(lines, start.epoch, now.epoch);
        lemma_body_ordered(lines.skip(1), now, start, acc.push(lines[0]));
    }
}

proof fn lemma_parse_open(lines: Seq<Seq<char>>, now: GStamp)
    requires
        parse_model(lines, now) is Some,
        lines.len() > 0,
        is_start_marker(lines.last()),
    ensures
        parse_model(lines, now)->Some_0.len() > 0,
        parse_model(lines, now)->Some_0.last().end == now,
    decreases lines.len(),
{
    if is_start_marker(lines[0]) {
        lemma_body_open(lines.skip(1), now);
        let t = rfc3339_timestamp(ts_part(lines[0]))->Some_0;
        let start = GStamp { epoch: t.0, offset: t.1 };
        if lines.len() > 1 {
            assert(lines.skip(1).last() == lines.last());
        }
        let ss = body_model(lines.skip(1), now, start, Seq::empty())->Some_0;
        assert(ss.len() > 0 && ss.last().end == now);
    } else {
        if lines.len() == 1 {
            assert(lines.last() == lines[0]);
            assert(false);
        }
        assert(lines.skip(1).last() == lines.last());
        lemma_parse_open(lines.skip(1), now);
    }
}

proof fn lemma_body_open(lines: Seq<Seq<char>>, now: GStamp)
    ensures
        forall|start: GStamp, acc: Seq<Seq<char>>|
            (body_model(lines, now, start, acc) is Some && (lines.len() == 0 || is_start_marker(
                lines.last(),
            ))) ==> {
                let ss = #[trigger] body_model(lines, now, start, acc)->Some_0;
                ss.len() > 0 && ss.last().end == now
            },
    decreases lines.len(),
{
    if lines.len() == 0 {
    } else {
        lemma_body_open(lines.skip(1), now);
        assert forall|start: GStamp, acc: Seq<Seq<char>>|
            body_model(lines, now, start, acc) is Some && (lines.len() == 0 || is_start_marker(
                lines.last(),
            )) implies {
            let ss = #[trigger] body_model(lines, now, start, acc)->Some_0;
            ss.len() > 0 && ss.last().end == now
        } by {
            let ss = body_model(lines, now, start, acc)->Some_0;
            if is_end_marker(lines[0]) {
                assert(lines.len() >= 2) by {
                    assert(is_start_marker(lines.last()));
                    assert(!is_end_marker(lines.last()));
                }
                assert(lines.skip(1).len() > 0);
                assert(lines.skip(1).last() == lines.last());
                lemma_parse_open(lines.skip(1), now);
                let rest = parse_model(lines.skip(1), now)->Some_0;
                let t = rfc3339_timestamp(ts_part(lines[0]))->Some_0;
                let sess = GSession {
                    start,
                    end: GStamp { epoch: t.0, offset: t.1 },
                    description: desc_of(acc),
                };
                assert(ss =~= seq![sess] + rest);
                assert(ss.last() == rest.last());
            } else {
                assert(lines.skip(1).len() == 0 || lines.skip(1).last() == lines.last());
                if lines.len() == 1 {
                    assert(body_model(lines.skip(1), now, start, acc.push(lines[0])) == Some(
                        seq![
                            GSession {
                                start,
                                end: now,
                                description: desc_of(acc.push(lines[0])),
                            },
                        ],
                    ));
                }
            }
        }
    }
}

} // verus!
